//! Binary envelopes for media payloads.
//!
//! Layout:
//! - 4 little-endian bytes that hold the length of the header.
//! - The header, a JSON object with a version and a list of entries.
//! - The payloads, one after the other.
//!
//! The offset of an entry counts from the start of the payloads, right behind
//! the header. The version tells the shape of the entries, so that a decoder
//! can reject a header that it does not understand.

use vstd::prelude::*;
use crate::errors;
use crate::errors::MediaParserError;
use crate::text::joined;
use crate::time::Duration;
use crate::types::{CoverArt, Frame, PixelFormat};

verus! {

/// The version of the envelope format.
pub const ENVELOPE_VERSION: u32 = 1;

/// The largest integer that JavaScript holds exactly.
pub const JS_MAX_SAFE_INTEGER: u64 = 9007199254740991;

/// The entry of a cover.
#[derive(Debug, Clone, Copy)]
pub struct CoverEnvelopeEntry {
    pub format: &'static str,
    pub mime_type: &'static str,
    pub offset: usize,
    pub length: usize,
}

/// The entry of a thumbnail.
#[derive(Debug, Clone, Copy)]
pub struct ThumbnailEnvelopeEntry {
    pub track_id: u32,
    pub width: u32,
    pub height: u32,
    pub timestamp: Duration,
    pub format: &'static str,
    pub mime_type: &'static str,
    pub offset: usize,
    pub length: usize,
}

/// The entry of a cover, which must be an encoded image. The entry goes by the
/// format of the cover, not by the media type that came with it.
pub fn cover_entry(cover: &Option<CoverArt>) -> (r: Result<
    Option<CoverEnvelopeEntry>,
    MediaParserError,
>)
    ensures
        match *cover {
            None => r matches Ok(None),
            Some(c) => match c.format.media_type() {
                Some(mime) => r matches Ok(Some(entry)) && entry.format@ == c.format.name()
                    && entry.mime_type@ == mime && entry.offset == 0 && entry.length
                    == c.data@.len(),
                None => r matches Err(e) && e@ == errors::ErrorView::Other(
                    "cover must be JPEG or PNG, got "@ + c.format.name(),
                ),
            },
        },
{
    match cover {
        None => Ok(None),
        Some(c) => match c.format.mime_type() {
            Some(mime_type) => Ok(
                Some(
                    CoverEnvelopeEntry {
                        format: c.format.label(),
                        mime_type,
                        offset: 0,
                        length: c.data.len(),
                    },
                ),
            ),
            None => Err(
                MediaParserError::Other(
                    joined("cover must be JPEG or PNG, got ", c.format.label()),
                ),
            ),
        },
    }
}

/// The bytes that the first `n` frames take.
pub open spec fn frames_size(frames: Seq<Frame>, n: int) -> int
    decreases n,
{
    if n <= 0 {
        0
    } else {
        frames_size(frames, n - 1) + frames[n - 1].data@.len()
    }
}

/// Why the first `n` frames cannot go into an envelope: one is no JPEG image,
/// or they take too many bytes.
pub open spec fn frames_error(frames: Seq<Frame>, max: usize, n: int) -> Option<Seq<char>>
    decreases n,
{
    if n <= 0 {
        None
    } else {
        match frames_error(frames, max, n - 1) {
            Some(e) => Some(e),
            None => if frames[n - 1].format != PixelFormat::Jpeg {
                Some("thumbnail must be JPEG, got "@ + frames[n - 1].format.name())
            } else if frames_size(frames, n) > max {
                Some("thumbnail payload is too large"@)
            } else {
                None
            },
        }
    }
}

proof fn lemma_frames_error(frames: Seq<Frame>, max: usize, k: int, n: int)
    requires
        0 <= k <= n,
        frames_error(frames, max, k) is Some,
    ensures
        frames_error(frames, max, n) == frames_error(frames, max, k),
    decreases n,
{
    if k < n {
        lemma_frames_error(frames, max, k, n - 1);
    }
}

/// Whether an entry is that of a frame.
pub open spec fn is_entry_of(
    entry: ThumbnailEnvelopeEntry,
    frames: Seq<Frame>,
    index: int,
) -> bool {
    &&& entry.track_id == frames[index].track_id
    &&& entry.width == frames[index].width
    &&& entry.height == frames[index].height
    &&& entry.timestamp.nanos() == frames[index].timestamp.nanos()
    &&& entry.format@ == "jpeg"@
    &&& entry.mime_type@ == "image/jpeg"@
    &&& entry.offset == frames_size(frames, index)
    &&& entry.length == frames[index].data@.len()
}

/// Whether all indices are those of frames.
pub open spec fn in_range(order: Seq<usize>, n: nat) -> bool {
    forall|i: int| 0 <= i < order.len() ==> #[trigger] order[i] < n
}

/// Why there are no entries for frames and outputs: the frames cannot go into an
/// envelope, or an output is none of them.
pub open spec fn entries_error(frames: Seq<Frame>, order: Seq<usize>, max: usize) -> Option<
    Seq<char>,
> {
    match frames_error(frames, max, frames.len() as int) {
        Some(reason) => Some(reason),
        None => if in_range(order, frames.len()) {
            None
        } else {
            Some("thumbnail frame index out of range"@)
        },
    }
}

/// One entry per output. An output is a frame by its index, so that outputs
/// with the same time share the bytes of one frame.
pub fn thumbnail_entries(frames: &[Frame], order: &[usize], max_output_bytes: usize) -> (r: Result<
    Vec<ThumbnailEnvelopeEntry>,
    MediaParserError,
>)
    ensures
        match entries_error(frames@, order@, max_output_bytes) {
            Some(reason) => r matches Err(e) && e@ == errors::ErrorView::Other(reason),
            None => r matches Ok(entries) && entries@.len() == order@.len() && forall|i: int|
                0 <= i < order@.len() ==> is_entry_of(
                    #[trigger] entries@[i],
                    frames@,
                    order@[i] as int,
                ),
        },
{
    let frame_count: usize = frames.len();
    let mut offsets: Vec<usize> = Vec::new();
    let mut payload_len: usize = 0;
    let mut i: usize = 0;
    while i < frame_count
        invariant
            i <= frame_count,
            frame_count == frames@.len(),
            payload_len == frames_size(frames@, i as int),
            frames_error(frames@, max_output_bytes, i as int) is None,
            offsets@.len() == i,
            forall|k: int| 0 <= k < i ==> #[trigger] offsets@[k] == frames_size(frames@, k),
        decreases frame_count - i,
    {
        let format: PixelFormat = frames[i].format;
        if format != PixelFormat::Jpeg {
            proof {
                lemma_frames_error(frames@, max_output_bytes, i + 1, frame_count as int);
            }
            return Err(
                MediaParserError::Other(joined("thumbnail must be JPEG, got ", format.label())),
            );
        }
        offsets.push(payload_len);
        let total: Option<usize> = payload_len.checked_add(frames[i].data.len());
        let fits: bool = match total {
            Some(t) => t <= max_output_bytes,
            None => false,
        };
        if !fits {
            proof {
                lemma_frames_error(frames@, max_output_bytes, i + 1, frame_count as int);
            }
            return Err(MediaParserError::other("thumbnail payload is too large"));
        }
        payload_len = payload_len + frames[i].data.len();
        i = i + 1;
    }
    let mut entries: Vec<ThumbnailEnvelopeEntry> = Vec::new();
    let mut j: usize = 0;
    while j < order.len()
        invariant
            j <= order@.len(),
            frame_count == frames@.len(),
            frames_error(frames@, max_output_bytes, frames@.len() as int) is None,
            offsets@.len() == frame_count,
            forall|k: int|
                0 <= k < frame_count ==> #[trigger] offsets@[k] == frames_size(frames@, k),
            entries@.len() == j,
            forall|k: int| 0 <= k < j ==> #[trigger] order@[k] < frame_count,
            forall|k: int|
                0 <= k < j ==> is_entry_of(#[trigger] entries@[k], frames@, order@[k] as int),
        decreases order@.len() - j,
    {
        let index: usize = order[j];
        if index >= frame_count {
            return Err(MediaParserError::other("thumbnail frame index out of range"));
        }
        entries.push(
            ThumbnailEnvelopeEntry {
                track_id: frames[index].track_id,
                width: frames[index].width,
                height: frames[index].height,
                timestamp: frames[index].timestamp,
                format: "jpeg",
                mime_type: "image/jpeg",
                offset: offsets[index],
                length: frames[index].data.len(),
            },
        );
        j = j + 1;
    }
    Ok(entries)
}

/// The payloads one after the other.
pub open spec fn payload(payloads: Seq<Vec<u8>>) -> Seq<u8>
    decreases payloads.len(),
{
    if payloads.len() == 0 {
        Seq::empty()
    } else {
        payload(payloads.drop_last()) + payloads.last()@
    }
}

/// The four bytes of a number, the lowest first.
pub open spec fn low_first(n: nat) -> Seq<u8> {
    seq![
        (n % 256) as u8,
        (n / 256 % 256) as u8,
        (n / 65536 % 256) as u8,
        (n / 16777216 % 256) as u8,
    ]
}

/// An envelope: the length of the header, the header and the payloads.
pub open spec fn envelope(header: Seq<u8>, body: Seq<u8>) -> Seq<u8> {
    low_first(header.len()) + header + body
}

/// The envelope of a header and a body, or why there is none: a length does not
/// fit its number, or the whole is larger than allowed.
pub open spec fn envelope_within(header: Seq<u8>, body: Seq<u8>, max: usize) -> Result<
    Seq<u8>,
    Seq<char>,
> {
    if body.len() > usize::MAX {
        Err("envelope payload is too large"@)
    } else if header.len() > u32::MAX {
        Err("envelope header is too large"@)
    } else if envelope(header, body).len() > max {
        Err("envelope is too large"@)
    } else {
        Ok(envelope(header, body))
    }
}

/// Puts a header and payloads into an envelope, which must not be larger than
/// allowed.
pub fn encode_binary_envelope(header: &[u8], payloads: &[Vec<u8>], max_output_bytes: usize) -> (r:
    Result<Vec<u8>, MediaParserError>)
    ensures
        match envelope_within(header@, payload(payloads@), max_output_bytes) {
            Ok(bytes) => r matches Ok(out) && out@ == bytes,
            Err(reason) => r matches Err(e) && e@ == errors::ErrorView::Other(reason),
        },
{
    let count: usize = payloads.len();
    let mut payload_len: usize = 0;
    let mut i: usize = 0;
    assert(payloads@.take(0) =~= Seq::empty());
    while i < count
        invariant
            i <= count,
            count == payloads@.len(),
            payload_len == payload(payloads@.take(i as int)).len(),
        decreases count - i,
    {
        proof {
            assert(payloads@.take(i + 1).drop_last() =~= payloads@.take(i as int));
            lemma_payload_grows(payloads@, i + 1);
        }
        match payload_len.checked_add(payloads[i].len()) {
            Some(total) => {
                payload_len = total;
            },
            None => {
                return Err(MediaParserError::other("envelope payload is too large"));
            },
        }
        i = i + 1;
    }
    assert(payloads@.take(i as int) =~= payloads@);
    let header_len: usize = header.len();
    if header_len > u32::MAX as usize {
        return Err(MediaParserError::other("envelope header is too large"));
    }
    let framed: Option<usize> = header_len.checked_add(4);
    let whole: Option<usize> = match framed {
        Some(n) => n.checked_add(payload_len),
        None => None,
    };
    let fits: bool = match whole {
        Some(n) => n <= max_output_bytes,
        None => false,
    };
    if !fits {
        return Err(MediaParserError::other("envelope is too large"));
    }
    let mut out: Vec<u8> = Vec::new();
    out.push((header_len % 256) as u8);
    out.push((header_len / 256 % 256) as u8);
    out.push((header_len / 65536 % 256) as u8);
    out.push((header_len / 16777216 % 256) as u8);
    assert(out@ =~= low_first(header_len as nat));
    out.extend_from_slice(header);
    let ghost before = out@;
    let mut k: usize = 0;
    assert(payloads@.take(0) =~= Seq::empty());
    assert(before + payload(payloads@.take(0)) =~= before);
    while k < count
        invariant
            k <= count,
            count == payloads@.len(),
            out@ == before + payload(payloads@.take(k as int)),
        decreases count - k,
    {
        out.extend_from_slice(payloads[k].as_slice());
        proof {
            assert(payloads@.take(k + 1).drop_last() =~= payloads@.take(k as int));
            assert(out@ =~= before + payload(payloads@.take(k + 1)));
        }
        k = k + 1;
    }
    assert(payloads@.take(k as int) =~= payloads@);
    Ok(out)
}

proof fn lemma_payload_grows(payloads: Seq<Vec<u8>>, k: int)
    requires
        0 <= k <= payloads.len(),
    ensures
        payload(payloads.take(k)).len() <= payload(payloads).len(),
    decreases payloads.len() - k,
{
    if k < payloads.len() {
        lemma_payload_grows(payloads, k + 1);
        assert(payloads.take(k + 1).drop_last() =~= payloads.take(k));
    } else {
        assert(payloads.take(k) =~= payloads);
    }
}

/// The envelope of thumbnails with a header that was made of their entries, or
/// why there is none: the entries are made first, then the envelope.
pub open spec fn thumbnails_within(
    frames: Seq<Frame>,
    order: Seq<usize>,
    header: Seq<u8>,
    payloads: Seq<Vec<u8>>,
    max: usize,
) -> Result<Seq<u8>, Seq<char>> {
    match entries_error(frames, order, max) {
        Some(reason) => Err(reason),
        None => envelope_within(header, payload(payloads), max),
    }
}

proof fn lemma_frames_size_grows(frames: Seq<Frame>, k: int, n: int)
    requires
        k <= n,
    ensures
        frames_size(frames, k) <= frames_size(frames, n),
    decreases n,
{
    if k < n {
        if 0 < n {
            lemma_frames_size_grows(frames, k, n - 1);
        }
    }
}

/// Frames that fit a limit fit another one that is no smaller than their size.
proof fn lemma_frames_fit(frames: Seq<Frame>, wide: usize, max: usize, n: int)
    requires
        frames_error(frames, wide, n) is None,
        frames_size(frames, n) <= max,
    ensures
        frames_error(frames, max, n) is None,
    decreases n,
{
    if n > 0 {
        lemma_frames_size_grows(frames, n - 1, n);
        lemma_frames_fit(frames, wide, max, n - 1);
    }
}

/// The limit of an envelope of thumbnails counts the whole of it: the length,
/// the header and the payloads. Thumbnails that have an envelope without a limit
/// have the same one within every limit that it fits, and none within a smaller
/// one.
pub proof fn law_limit_counts_the_whole_envelope(
    frames: Seq<Frame>,
    order: Seq<usize>,
    header: Seq<u8>,
    payloads: Seq<Vec<u8>>,
    max: usize,
)
    requires
        payloads.len() == frames.len(),
        forall|i: int| 0 <= i < frames.len() ==> (#[trigger] payloads[i])@ == frames[i].data@,
        thumbnails_within(frames, order, header, payloads, usize::MAX) is Ok,
    ensures
        ({
            let full = thumbnails_within(frames, order, header, payloads, usize::MAX)->Ok_0;
            if full.len() <= max {
                thumbnails_within(frames, order, header, payloads, max) == Ok::<
                    Seq<u8>,
                    Seq<char>,
                >(full)
            } else {
                thumbnails_within(frames, order, header, payloads, max) is Err
            }
        }),
{
    let n = frames.len() as int;
    if envelope(header, payload(payloads)).len() <= max {
        lemma_frames_size(frames, payloads, n);
        assert(payloads.take(n) =~= payloads);
        lemma_frames_fit(frames, usize::MAX, max, n);
    }
}

/// An envelope gives back its header and its payloads: its first four bytes
/// tell where the header ends.
pub proof fn law_envelope_gives_back_its_parts(header: Seq<u8>, body: Seq<u8>)
    requires
        header.len() <= u32::MAX,
    ensures
        envelope(header, body)[0] + 256 * envelope(header, body)[1] + 65536 * envelope(
            header,
            body,
        )[2] + 16777216 * envelope(header, body)[3] == header.len(),
        envelope(header, body).subrange(4, 4int + header.len()) == header,
        envelope(header, body).skip(4int + header.len()) == body,
{
    let n = header.len();
    let all = envelope(header, body);
    assert(all.subrange(4, 4int + header.len()) =~= header);
    assert(all.skip(4int + header.len()) =~= body);
    assert(all.take(4) =~= low_first(n));
    assert(all[0] == low_first(n)[0]);
    assert(all[1] == low_first(n)[1]);
    assert(all[2] == low_first(n)[2]);
    assert(all[3] == low_first(n)[3]);
    assert(n / 65536 == (n / 256) / 256);
    assert(n / 16777216 == (n / 65536) / 256);
}

/// The entry of a frame finds the bytes of that frame among the payloads.
pub proof fn law_entries_find_their_frames(
    frames: Seq<Frame>,
    payloads: Seq<Vec<u8>>,
    entry: ThumbnailEnvelopeEntry,
    index: int,
)
    requires
        0 <= index < frames.len(),
        payloads.len() == frames.len(),
        forall|i: int| 0 <= i < frames.len() ==> (#[trigger] payloads[i])@ == frames[i].data@,
        is_entry_of(entry, frames, index),
    ensures
        entry.offset + entry.length <= payload(payloads).len(),
        payload(payloads).subrange(entry.offset as int, entry.offset + entry.length)
            == frames[index].data@,
    decreases frames.len(),
{
    lemma_frames_size(frames, payloads, frames.len() as int);
    lemma_frame_place(frames, payloads, index, frames.len() as int);
    assert(payloads.take(frames.len() as int) =~= payloads);
}

proof fn lemma_frames_size(frames: Seq<Frame>, payloads: Seq<Vec<u8>>, n: int)
    requires
        0 <= n <= frames.len(),
        payloads.len() == frames.len(),
        forall|i: int| 0 <= i < frames.len() ==> (#[trigger] payloads[i])@ == frames[i].data@,
    ensures
        payload(payloads.take(n)).len() == frames_size(frames, n),
    decreases n,
{
    if n > 0 {
        lemma_frames_size(frames, payloads, n - 1);
        assert(payloads.take(n).drop_last() =~= payloads.take(n - 1));
        assert(payloads.take(n).last() == payloads[n - 1]);
    }
}

proof fn lemma_frame_place(frames: Seq<Frame>, payloads: Seq<Vec<u8>>, index: int, n: int)
    requires
        0 <= index < n <= frames.len(),
        payloads.len() == frames.len(),
        forall|i: int| 0 <= i < frames.len() ==> (#[trigger] payloads[i])@ == frames[i].data@,
    ensures
        frames_size(frames, index) + frames[index].data@.len() <= payload(payloads.take(n)).len(),
        payload(payloads.take(n)).subrange(
            frames_size(frames, index),
            frames_size(frames, index) + frames[index].data@.len(),
        ) == frames[index].data@,
    decreases n,
{
    lemma_frames_size(frames, payloads, n - 1);
    lemma_frames_size(frames, payloads, index);
    let before = payload(payloads.take(n - 1));
    let all = payload(payloads.take(n));
    assert(payloads.take(n).drop_last() =~= payloads.take(n - 1));
    assert(all == before + payloads[n - 1]@);
    let from = frames_size(frames, index);
    let to = from + frames[index].data@.len();
    if index < n - 1 {
        lemma_frame_place(frames, payloads, index, n - 1);
        assert(all.subrange(from, to) =~= before.subrange(from, to));
    } else {
        assert(all.subrange(from, to) =~= frames[index].data@);
    }
}

} // verus!
