//! Metadata from ID3v2 tags.
//!
//! Frames with text: TIT2 (title), TPE1 (artist), TALB (album), TYER and TDRC
//! (year), TRCK (track number), TCON (genre), TCOM (composer) and COMM
//! (comment).

use vstd::prelude::*;
use crate::boxes::{same_type, tail};
use crate::bytes;
use crate::bytes::{copy_range, read_u32_be};
use crate::errors;
use crate::errors::MediaParserError;
use crate::format::texts;
use crate::format::texts::{
    decode_latin1, decode_utf16_be, decode_utf16_with_bom, decode_utf8, trim_null_and_whitespace,
};
use crate::metadata;
use crate::metadata::Meta;
use crate::tags::Tag;
use crate::text;
use crate::text::{joined, same_text, to_ascii_lowercase, utf8_lossy};
use crate::types::{CoverArt, CoverView, PixelFormat};

verus! {

/// The size of the header of a tag.
pub const ID3_HEADER_SIZE: usize = 10;

/// The size of the header of a frame.
pub const ID3_FRAME_HEADER_SIZE: usize = 10;

/// The largest tag that is read.
pub const MAX_ID3_TAG_BYTES: usize = 67108864;

// --------------------
// Numbers and flags
// --------------------

/// A number of four bytes with seven bits each.
pub open spec fn syncsafe(data: Seq<u8>, at: int) -> u32 {
    ((data[at] % 128) * 0x20_0000 + (data[at + 1] % 128) * 0x4000 + (data[at + 2] % 128) * 0x80 + (
    data[at + 3] % 128)) as u32
}

/// Reads a number of four bytes with seven bits each. The high bits are ignored.
pub fn decode_syncsafe(bytes: [u8; 4]) -> (r: u32)
    ensures
        r == syncsafe(bytes@, 0),
{
    (bytes[0] % 128) as u32 * 0x20_0000 + (bytes[1] % 128) as u32 * 0x4000 + (bytes[2] % 128) as u32
        * 0x80 + (bytes[3] % 128) as u32
}

/// Whether flags have a bit, given by its value.
pub open spec fn has_bit(flags: u8, bit: u8) -> bool {
    flags as int / bit as int % 2 == 1
}

fn bit_set(flags: u8, bit: u8) -> (r: bool)
    requires
        bit > 0,
    ensures
        r == has_bit(flags, bit),
{
    flags / bit % 2 == 1
}

// --------------------
// Unsynchronisation
// --------------------

/// Bytes without the zero bytes that were put behind bytes of ones.
pub open spec fn synchronized(data: Seq<u8>) -> Seq<u8>
    decreases data.len(),
{
    if data.len() == 0 {
        Seq::empty()
    } else if data[0] == 0xff && data.len() > 1 && data[1] == 0 {
        seq![data[0]] + synchronized(data.skip(2))
    } else {
        seq![data[0]] + synchronized(data.skip(1))
    }
}

/// Bytes with a zero byte put behind each byte of ones.
pub open spec fn unsynchronized(data: Seq<u8>) -> Seq<u8>
    decreases data.len(),
{
    if data.len() == 0 {
        Seq::empty()
    } else if data[0] == 0xff {
        seq![0xffu8, 0u8] + unsynchronized(data.skip(1))
    } else {
        seq![data[0]] + unsynchronized(data.skip(1))
    }
}

/// Zero bytes put behind bytes of ones are taken out again.
pub proof fn law_synchronized_undoes_unsynchronized(data: Seq<u8>)
    ensures
        synchronized(unsynchronized(data)) == data,
    decreases data.len(),
{
    if data.len() == 0 {
        assert(synchronized(unsynchronized(data)) =~= data);
    } else {
        let rest = unsynchronized(data.skip(1));
        let all = unsynchronized(data);
        law_synchronized_undoes_unsynchronized(data.skip(1));
        if data[0] == 0xff {
            assert(all.skip(2) =~= rest);
        } else {
            assert(all.skip(1) =~= rest);
        }
        assert(seq![data[0]] + data.skip(1) =~= data);
    }
}

/// Takes out the zero bytes that were put behind bytes of ones.
pub fn deunsynchronize(data: &[u8]) -> (r: Result<Vec<u8>, MediaParserError>)
    ensures
        r matches Ok(decoded) && decoded@ == synchronized(data@),
{
    let mut decoded: Vec<u8> = Vec::new();
    let mut offset: usize = 0;
    assert(data@.skip(0) =~= data@);
    while offset < data.len()
        invariant
            offset <= data@.len(),
            decoded@ + synchronized(data@.skip(offset as int)) == synchronized(data@),
        decreases data@.len() - offset,
    {
        let ghost before = decoded@;
        let ghost rest = data@.skip(offset as int);
        let byte: u8 = data[offset];
        decoded.push(byte);
        offset = offset + 1;
        let inserted: bool = byte == 0xff && offset < data.len() && data[offset] == 0;
        if inserted {
            offset = offset + 1;
        }
        proof {
            let left = data@.skip(offset as int);
            if inserted {
                assert(rest.skip(2) =~= left);
            } else {
                assert(rest.skip(1) =~= left);
            }
            assert(before + (seq![byte] + synchronized(left)) =~= decoded@ + synchronized(left));
        }
    }
    assert(data@.skip(offset as int) =~= Seq::<u8>::empty());
    assert(decoded@ =~= synchronized(data@));
    Ok(decoded)
}

// --------------------
// Header
// --------------------

/// The header of a tag.
#[derive(Debug, Clone, Copy, PartialEq, Eq)]
pub struct Id3Header {
    pub version: (u8, u8),
    pub flags: u8,
    pub tag_size: u32,
}

/// The header of a tag that data starts with.
pub open spec fn header_of(data: Seq<u8>) -> Option<Id3Header> {
    if data.len() < 10 || data[0] != 0x49 || data[1] != 0x44 || data[2] != 0x33 {
        None
    } else {
        Some(
            Id3Header {
                version: (data[3], data[4]),
                flags: data[5],
                tag_size: syncsafe(data, 6),
            },
        )
    }
}

/// Reads the header of a tag, where data starts with one.
pub fn parse_id3_header(data: &[u8]) -> (r: Option<Id3Header>)
    ensures
        r == header_of(data@),
{
    if data.len() < 10 || data[0] != 0x49 || data[1] != 0x44 || data[2] != 0x33 {
        return None;
    }
    Some(
        Id3Header {
            version: (data[3], data[4]),
            flags: data[5],
            tag_size: decode_syncsafe([data[6], data[7], data[8], data[9]]),
        },
    )
}

/// Where a tag ends.
pub fn id3_end(header: &Id3Header) -> (r: u64)
    ensures
        r == 10 + header.tag_size,
{
    10 + header.tag_size as u64
}

/// Where a tag ends that may be absent.
pub fn id3_end_or_start(header: &Option<Id3Header>) -> (r: u64)
    ensures
        r == (match header {
            Some(h) => 10 + h.tag_size,
            None => 0,
        }),
{
    match header {
        Some(h) => id3_end(h),
        None => 0,
    }
}

/// How many bytes of frames to read behind a header. Tags before version 3
/// have frames of another layout and are skipped; too large a tag is refused.
pub fn frame_bytes_to_read(header: &Id3Header) -> (r: Result<Option<usize>, MediaParserError>)
    ensures
        if header.version.0 < 3 {
            r == Ok::<Option<usize>, MediaParserError>(None)
        } else if header.tag_size > MAX_ID3_TAG_BYTES {
            r matches Err(e) && e@ == errors::ErrorView::InvalidFormat(
                "ID3 tag exceeds 67108864 bytes"@,
            )
        } else {
            r == Ok::<Option<usize>, MediaParserError>(Some(header.tag_size as usize))
        },
{
    if header.version.0 < 3 {
        return Ok(None);
    }
    if header.tag_size as usize > MAX_ID3_TAG_BYTES {
        return Err(MediaParserError::invalid("ID3 tag exceeds 67108864 bytes"));
    }
    Ok(Some(header.tag_size as usize))
}

// --------------------
// Frames
// --------------------

/// A frame of a tag.
#[derive(Debug, Clone, PartialEq, Eq)]
pub struct Id3Frame {
    pub id: [u8; 4],
    pub data: Vec<u8>,
}

/// What a frame of a tag is.
pub struct FrameView {
    pub id: Seq<u8>,
    pub data: Seq<u8>,
}

impl View for Id3Frame {
    type V = FrameView;

    open spec fn view(&self) -> FrameView {
        FrameView { id: self.id@, data: self.data@ }
    }
}

/// What a list of frames is.
pub open spec fn frames_view(frames: Seq<Id3Frame>) -> Seq<FrameView> {
    Seq::new(frames.len(), |i: int| frames[i]@)
}

/// An unusable tag, with the reason.
pub open spec fn invalid<T>(reason: Seq<char>) -> Result<T, errors::ErrorView> {
    Err(errors::ErrorView::InvalidFormat(reason))
}

/// Where the frames of a tag start: behind the extended header, where the
/// flags tell of one. Its size counts itself from version 4 on only.
pub open spec fn frames_start(data: Seq<u8>, header: Id3Header) -> Result<int, errors::ErrorView> {
    if !has_bit(header.flags, 0x40) {
        Ok(0)
    } else if data.len() < 4 {
        invalid("truncated ID3 extended header"@)
    } else {
        let size = if header.version.0 >= 4 {
            syncsafe(data, 0) as int
        } else {
            bytes::be32(data, 0) + 4
        };
        if size > usize::MAX {
            invalid("ID3 extended header is too large"@)
        } else if size < 4 || size > data.len() {
            invalid("invalid ID3 extended header size"@)
        } else {
            Ok(size)
        }
    }
}

/// The error of a frame that is compressed or encrypted.
pub open spec fn packed_frame(id: Seq<u8>) -> errors::ErrorView {
    errors::ErrorView::InvalidFormat(
        "compressed or encrypted ID3 frame "@ + text::lossy_utf8(id) + " is unsupported"@,
    )
}

/// A frame without its grouping identity.
pub open spec fn ungrouped(data: Seq<u8>) -> Result<Seq<u8>, errors::ErrorView> {
    if data.len() == 0 {
        invalid("truncated ID3 grouping identity"@)
    } else {
        Ok(data.skip(1))
    }
}

/// A frame without its data length indicator, where the flags tell of one.
pub open spec fn unmeasured(data: Seq<u8>, flags: u8) -> Result<Seq<u8>, errors::ErrorView> {
    if !has_bit(flags, 0x01) {
        Ok(data)
    } else if data.len() < 4 {
        invalid("truncated ID3 data length indicator"@)
    } else {
        Ok(data.skip(4))
    }
}

/// The content of a frame of version 4: synchronized, without its grouping
/// identity and its data length indicator.
pub open spec fn content_v4(id: Seq<u8>, raw: Seq<u8>, flags: u8, unsync: bool) -> Result<
    Seq<u8>,
    errors::ErrorView,
> {
    if has_bit(flags, 0x08) || has_bit(flags, 0x04) {
        Err(packed_frame(id))
    } else {
        let plain = if unsync || has_bit(flags, 0x02) {
            synchronized(raw)
        } else {
            raw
        };
        if has_bit(flags, 0x40) {
            match ungrouped(plain) {
                Ok(rest) => unmeasured(rest, flags),
                Err(e) => Err(e),
            }
        } else {
            unmeasured(plain, flags)
        }
    }
}

/// The content of a frame of version 3: without its grouping identity.
pub open spec fn content_v3(id: Seq<u8>, raw: Seq<u8>, flags: u8) -> Result<
    Seq<u8>,
    errors::ErrorView,
> {
    if has_bit(flags, 0x80) || has_bit(flags, 0x40) {
        Err(packed_frame(id))
    } else if has_bit(flags, 0x20) {
        ungrouped(raw)
    } else {
        Ok(raw)
    }
}

/// The declared size of the frame at an offset.
pub open spec fn frame_size(data: Seq<u8>, version: u8, offset: int) -> int {
    if version >= 4 {
        syncsafe(data, offset + 4) as int
    } else {
        bytes::be32(data, offset + 4) as int
    }
}

/// Whether the frames end at an offset: there is no room for a header, the
/// padding starts, or the frame is empty or overruns the tag.
pub open spec fn frames_end(data: Seq<u8>, version: u8, offset: int) -> bool {
    offset + 10 > data.len() || data.subrange(offset, offset + 4) == seq![0u8, 0, 0, 0] || (offset
        + 10 + frame_size(data, version, offset) <= usize::MAX && (frame_size(data, version, offset)
        == 0 || offset + 10 + frame_size(data, version, offset) > data.len()))
}

/// The content of the frame at an offset.
pub open spec fn frame_content(data: Seq<u8>, version: u8, unsync: bool, offset: int) -> Result<
    Seq<u8>,
    errors::ErrorView,
> {
    let end = offset + 10 + frame_size(data, version, offset);
    let id = data.subrange(offset, offset + 4);
    let raw = data.subrange(offset + 10, end);
    if end > usize::MAX {
        invalid("ID3 frame size overflow"@)
    } else if version >= 4 {
        content_v4(id, raw, data[offset + 9], unsync)
    } else {
        content_v3(id, raw, data[offset + 9])
    }
}

/// The frames from an offset on, up to where they end. One bad frame voids
/// them all; one that overruns the tag only ends the walk.
pub open spec fn frames_from(data: Seq<u8>, version: u8, unsync: bool, offset: int) -> Result<
    Seq<FrameView>,
    errors::ErrorView,
>
    decreases data.len() - offset,
{
    if offset < 0 || frames_end(data, version, offset) {
        Ok(Seq::empty())
    } else {
        match frame_content(data, version, unsync, offset) {
            Err(e) => Err(e),
            Ok(content) => {
                let next = offset + 10 + frame_size(data, version, offset);
                match frames_from(data, version, unsync, next) {
                    Ok(rest) => Ok(
                        seq![
                            FrameView { id: data.subrange(offset, offset + 4), data: content },
                        ] + rest,
                    ),
                    Err(e) => Err(e),
                }
            },
        }
    }
}

/// The frames of a tag.
pub open spec fn id3_frames(data: Seq<u8>, header: Id3Header, unsync: bool) -> Result<
    Seq<FrameView>,
    errors::ErrorView,
> {
    match frames_start(data, header) {
        Ok(start) => frames_from(data, header.version.0, unsync, start),
        Err(e) => Err(e),
    }
}

/// Where the frames of a tag start, see `frames_start`.
fn read_frames_start(data: &[u8], header: &Id3Header) -> (r: Result<usize, MediaParserError>)
    ensures
        match r {
            Ok(start) => frames_start(data@, *header) == Ok::<int, errors::ErrorView>(start as int)
                && start <= data@.len(),
            Err(e) => frames_start(data@, *header) == Err::<int, errors::ErrorView>(e@),
        },
{
    if !bit_set(header.flags, 0x40) {
        return Ok(0);
    }
    if data.len() < 4 {
        return Err(MediaParserError::invalid("truncated ID3 extended header"));
    }
    let head: [u8; 4] = [data[0], data[1], data[2], data[3]];
    let size: u64 = if header.version.0 >= 4 {
        decode_syncsafe(head) as u64
    } else {
        match read_u32_be(data, 0) {
            Some(n) => n as u64 + 4,
            None => 0,
        }
    };
    if size > usize::MAX as u64 {
        return Err(MediaParserError::invalid("ID3 extended header is too large"));
    }
    if size < 4 || size > data.len() as u64 {
        return Err(MediaParserError::invalid("invalid ID3 extended header size"));
    }
    Ok(size as usize)
}

/// What a content that may be unusable is.
pub open spec fn content_view(r: Result<Vec<u8>, MediaParserError>) -> Result<
    Seq<u8>,
    errors::ErrorView,
> {
    match r {
        Ok(data) => Ok(data@),
        Err(e) => Err(e@),
    }
}

fn packed_error(id: &[u8; 4]) -> (r: MediaParserError)
    ensures
        r@ == packed_frame(id@),
{
    let start: String = joined("compressed or encrypted ID3 frame ", utf8_lossy(id).as_str());
    MediaParserError::InvalidFormat(joined(start.as_str(), " is unsupported"))
}

fn without_group(data: Vec<u8>) -> (r: Result<Vec<u8>, MediaParserError>)
    ensures
        content_view(r) == ungrouped(data@),
{
    if data.len() == 0 {
        return Err(MediaParserError::invalid("truncated ID3 grouping identity"));
    }
    let rest: Vec<u8> = copy_range(data.as_slice(), 1, data.len());
    assert(rest@ =~= data@.skip(1));
    Ok(rest)
}

fn without_length(data: Vec<u8>, flags: u8) -> (r: Result<Vec<u8>, MediaParserError>)
    ensures
        content_view(r) == unmeasured(data@, flags),
{
    if !bit_set(flags, 0x01) {
        return Ok(data);
    }
    if data.len() < 4 {
        return Err(MediaParserError::invalid("truncated ID3 data length indicator"));
    }
    let rest: Vec<u8> = copy_range(data.as_slice(), 4, data.len());
    assert(rest@ =~= data@.skip(4));
    Ok(rest)
}

fn read_content_v4(id: &[u8; 4], raw: Vec<u8>, flags: u8, unsync: bool) -> (r: Result<
    Vec<u8>,
    MediaParserError,
>)
    ensures
        content_view(r) == content_v4(id@, raw@, flags, unsync),
{
    if bit_set(flags, 0x08) || bit_set(flags, 0x04) {
        return Err(packed_error(id));
    }
    let plain: Vec<u8> = if unsync || bit_set(flags, 0x02) {
        match deunsynchronize(raw.as_slice()) {
            Ok(decoded) => decoded,
            Err(e) => {
                return Err(e);
            },
        }
    } else {
        raw
    };
    if bit_set(flags, 0x40) {
        match without_group(plain) {
            Ok(rest) => without_length(rest, flags),
            Err(e) => Err(e),
        }
    } else {
        without_length(plain, flags)
    }
}

fn read_content_v3(id: &[u8; 4], raw: Vec<u8>, flags: u8) -> (r: Result<Vec<u8>, MediaParserError>)
    ensures
        content_view(r) == content_v3(id@, raw@, flags),
{
    if bit_set(flags, 0x80) || bit_set(flags, 0x40) {
        return Err(packed_error(id));
    }
    if bit_set(flags, 0x20) {
        without_group(raw)
    } else {
        Ok(raw)
    }
}

/// What a walk over frames gives.
pub open spec fn walk_view(r: Result<Vec<Id3Frame>, MediaParserError>) -> Result<
    Seq<FrameView>,
    errors::ErrorView,
> {
    match r {
        Ok(frames) => Ok(frames_view(frames@)),
        Err(e) => Err(e@),
    }
}

/// Frames found followed by the rest of a walk.
spec fn followed(found: Seq<FrameView>, rest: Result<Seq<FrameView>, errors::ErrorView>) -> Result<
    Seq<FrameView>,
    errors::ErrorView,
> {
    match rest {
        Ok(list) => Ok(found + list),
        Err(e) => Err(e),
    }
}

/// Reads the frames of a tag.
#[verifier::rlimit(60)]
#[verifier::spinoff_prover]
pub fn parse_id3_frames(
    tag_data: &[u8],
    header: &Id3Header,
    tag_unsynchronized: bool,
) -> (r: Result<Vec<Id3Frame>, MediaParserError>)
    ensures
        walk_view(r) == id3_frames(tag_data@, *header, tag_unsynchronized),
{
    let mut offset: usize = match read_frames_start(tag_data, header) {
        Ok(start) => start,
        Err(e) => {
            return Err(e);
        },
    };
    let version: u8 = header.version.0;
    let len: usize = tag_data.len();
    let mut frames: Vec<Id3Frame> = Vec::new();
    let ghost all = id3_frames(tag_data@, *header, tag_unsynchronized);
    proof {
        assert(frames_view(frames@) =~= Seq::empty());
        let rest = frames_from(tag_data@, version, tag_unsynchronized, offset as int);
        assert(followed(frames_view(frames@), rest) == rest) by {
            if let Ok(list) = rest {
                assert(Seq::<FrameView>::empty() + list =~= list);
            }
        }
    }
    while len - offset >= 10
        invariant
            offset <= len,
            len == tag_data@.len(),
            version == header.version.0,
            all == id3_frames(tag_data@, *header, tag_unsynchronized),
            all == followed(
                frames_view(frames@),
                frames_from(tag_data@, version, tag_unsynchronized, offset as int),
            ),
        decreases len - offset,
    {
        let ghost data = tag_data@;
        let ghost at = offset as int;
        let ghost before = frames_view(frames@);
        let id: [u8; 4] = [
            tag_data[offset],
            tag_data[offset + 1],
            tag_data[offset + 2],
            tag_data[offset + 3],
        ];
        proof {
            assert(id@ =~= data.subrange(at, at + 4));
            assert(before + Seq::<FrameView>::empty() =~= before);
        }
        if id[0] == 0 && id[1] == 0 && id[2] == 0 && id[3] == 0 {
            assert(data.subrange(at, at + 4) =~= seq![0u8, 0, 0, 0]);
            return Ok(frames);
        }
        assert(data.subrange(at, at + 4) != seq![0u8, 0, 0, 0]) by {
            if data.subrange(at, at + 4) == seq![0u8, 0, 0, 0] {
                assert(id@[0] == 0 && id@[1] == 0 && id@[2] == 0 && id@[3] == 0);
            }
        }
        let size: u32 = if version >= 4 {
            decode_syncsafe(
                [
                    tag_data[offset + 4],
                    tag_data[offset + 5],
                    tag_data[offset + 6],
                    tag_data[offset + 7],
                ],
            )
        } else {
            match read_u32_be(tag_data, offset + 4) {
                Some(n) => n,
                None => 0,
            }
        };
        assert(size == frame_size(data, version, at));
        let frame_end: usize = match (offset + 10).checked_add(size as usize) {
            Some(end) => end,
            None => {
                return Err(MediaParserError::invalid("ID3 frame size overflow"));
            },
        };
        if size == 0 || frame_end > len {
            return Ok(frames);
        }
        let flags: u8 = tag_data[offset + 9];
        let raw: Vec<u8> = copy_range(tag_data, offset + 10, frame_end);
        let content: Result<Vec<u8>, MediaParserError> = if version >= 4 {
            read_content_v4(&id, raw, flags, tag_unsynchronized)
        } else {
            read_content_v3(&id, raw, flags)
        };
        match content {
            Ok(data_bytes) => {
                let frame: Id3Frame = Id3Frame { id, data: data_bytes };
                let ghost found = frame@;
                frames.push(frame);
                offset = frame_end;
                proof {
                    assert(frames_view(frames@) =~= before.push(found));
                    let rest = frames_from(data, version, tag_unsynchronized, offset as int);
                    if let Ok(list) = rest {
                        assert(before + (seq![found] + list) =~= before.push(found) + list);
                    }
                }
            },
            Err(e) => {
                return Err(e);
            },
        }
    }
    assert(frames_view(frames@) + Seq::<FrameView>::empty() =~= frames_view(frames@));
    Ok(frames)
}

/// The frames of a tag with a header, from the bytes behind it. Before version
/// 4 the whole tag is unsynchronized at once.
pub open spec fn tag_frames(header: Id3Header, data: Seq<u8>) -> Result<
    Seq<FrameView>,
    errors::ErrorView,
> {
    let unsync = has_bit(header.flags, 0x80);
    if header.version.0 < 3 {
        Ok(Seq::empty())
    } else if unsync && header.version.0 < 4 {
        id3_frames(synchronized(data), header, unsync)
    } else {
        id3_frames(data, header, unsync)
    }
}

/// Reads the frames of a tag from the bytes behind its header.
pub fn frames_of_tag(header: &Id3Header, data: &[u8]) -> (r: Result<
    Vec<Id3Frame>,
    MediaParserError,
>)
    ensures
        walk_view(r) == tag_frames(*header, data@),
{
    if header.version.0 < 3 {
        let none: Vec<Id3Frame> = Vec::new();
        assert(frames_view(none@) =~= Seq::empty());
        return Ok(none);
    }
    let unsync: bool = bit_set(header.flags, 0x80);
    if unsync && header.version.0 < 4 {
        match deunsynchronize(data) {
            Ok(decoded) => parse_id3_frames(decoded.as_slice(), header, unsync),
            Err(e) => Err(e),
        }
    } else {
        parse_id3_frames(data, header, unsync)
    }
}

// --------------------
// Texts
// --------------------

/// The text of bytes in one of the four encodings of a tag.
pub open spec fn encoded_text(encoding: u8, data: Seq<u8>) -> Option<Seq<char>> {
    let decoded = if encoding == 0 {
        Some(texts::latin1(data))
    } else if encoding == 1 {
        metadata::marked_utf16(data)
    } else if encoding == 2 {
        texts::utf16_be_text(data)
    } else if encoding == 3 {
        texts::utf8_text(data)
    } else {
        None
    };
    match decoded {
        Some(s) => texts::tidy(s),
        None => None,
    }
}

fn decode_encoded(encoding: u8, data: &[u8]) -> (r: Option<String>)
    ensures
        text::text_view(r) == encoded_text(encoding, data@),
{
    let decoded: Option<String> = if encoding == 0 {
        Some(decode_latin1(data))
    } else if encoding == 1 {
        decode_utf16_with_bom(data)
    } else if encoding == 2 {
        decode_utf16_be(data)
    } else if encoding == 3 {
        decode_utf8(data)
    } else {
        None
    };
    match decoded {
        Some(s) => trim_null_and_whitespace(s.as_str()),
        None => None,
    }
}

/// The text of a text frame: behind the byte that tells its encoding.
pub open spec fn frame_text(data: Seq<u8>) -> Option<Seq<char>> {
    if data.len() == 0 {
        None
    } else {
        encoded_text(data[0], data.skip(1))
    }
}

/// Decodes a text frame.
pub fn decode_id3_text(data: &[u8]) -> (r: Option<String>)
    ensures
        text::text_view(r) == frame_text(data@),
{
    if data.len() == 0 {
        return None;
    }
    decode_encoded(data[0], tail(data, 1))
}

/// Whether a text in an encoding ends at a place: with a zero byte, or in the
/// two-byte encodings with two.
pub open spec fn ends_at(data: Seq<u8>, encoding: u8, at: int) -> bool {
    if encoding == 1 || encoding == 2 {
        at + 2 <= data.len() && data[at] == 0 && data[at + 1] == 0
    } else {
        at < data.len() && data[at] == 0
    }
}

/// What a character of an encoding takes at least.
pub open spec fn unit_len(encoding: u8) -> int {
    if encoding == 1 || encoding == 2 {
        2
    } else {
        1
    }
}

/// Where a text in an encoding that starts at `at` is over, its end mark
/// counted in.
pub open spec fn behind_text(data: Seq<u8>, encoding: u8, at: int) -> Option<int>
    decreases data.len() - at,
{
    if at < 0 || at + unit_len(encoding) > data.len() {
        None
    } else if ends_at(data, encoding, at) {
        Some(at + unit_len(encoding))
    } else {
        behind_text(data, encoding, at + unit_len(encoding))
    }
}

/// Where a text in an encoding is over, see `behind_text`.
pub fn find_encoded_terminator(data: &[u8], start: usize, encoding: u8) -> (r: Option<usize>)
    ensures
        match r {
            Some(end) => behind_text(data@, encoding, start as int) == Some(end as int) && start
                < end <= data@.len(),
            None => behind_text(data@, encoding, start as int) is None,
        },
{
    let step: usize = if encoding == 1 || encoding == 2 {
        2
    } else {
        1
    };
    let len: usize = data.len();
    let mut at: usize = start;
    while at <= len && len - at >= step
        invariant
            start <= at,
            len == data@.len(),
            step == unit_len(encoding),
            at <= len || at == start,
            behind_text(data@, encoding, start as int) == behind_text(data@, encoding, at as int),
        decreases len - at,
    {
        let ended: bool = data[at] == 0 && (step == 1 || data[at + 1] == 0);
        if ended {
            return Some(at + step);
        }
        at = at + step;
    }
    None
}

/// The text of a comment frame: behind the encoding, the language and the
/// description. Without an end of the description, or with nothing behind it,
/// all of it counts.
pub open spec fn comment_text(data: Seq<u8>) -> Option<Seq<char>> {
    if data.len() < 5 {
        None
    } else {
        let comment = data.skip(4);
        match behind_text(comment, data[0], 0) {
            Some(at) => if at < comment.len() {
                encoded_text(data[0], comment.skip(at))
            } else {
                encoded_text(data[0], comment)
            },
            None => encoded_text(data[0], comment),
        }
    }
}

/// Decodes a comment frame.
pub fn decode_comment_frame(data: &[u8]) -> (r: Option<String>)
    ensures
        text::text_view(r) == comment_text(data@),
{
    if data.len() < 5 {
        return None;
    }
    let comment: &[u8] = tail(data, 4);
    match find_encoded_terminator(comment, 0, data[0]) {
        Some(at) => {
            if at < comment.len() {
                return decode_encoded(data[0], tail(comment, at));
            }
        },
        None => {},
    }
    decode_encoded(data[0], comment)
}

// --------------------
// Values
// --------------------

/// The name of a frame, by its identifier.
pub open spec fn name_of(id: Seq<u8>) -> Seq<char> {
    if id == seq![0x54u8, 0x49, 0x54, 0x32] {
        "Title"@
    } else if id == seq![0x54u8, 0x50, 0x45, 0x31] {
        "Artist"@
    } else if id == seq![0x54u8, 0x41, 0x4c, 0x42] {
        "Album"@
    } else if id == seq![0x54u8, 0x59, 0x45, 0x52] || id == seq![0x54u8, 0x44, 0x52, 0x43] {
        "Year"@
    } else if id == seq![0x54u8, 0x52, 0x43, 0x4b] {
        "Track number"@
    } else if id == seq![0x54u8, 0x43, 0x4f, 0x4e] {
        "Genre"@
    } else if id == Tag::Comm.code() {
        "Comment"@
    } else if id == seq![0x54u8, 0x43, 0x4f, 0x4d] {
        "Composer"@
    } else {
        "Unknown"@
    }
}

/// The name of a frame.
pub fn frame_name(id: [u8; 4]) -> (r: &'static str)
    ensures
        r@ == name_of(id@),
{
    let title: [u8; 4] = [0x54, 0x49, 0x54, 0x32];
    let artist: [u8; 4] = [0x54, 0x50, 0x45, 0x31];
    let album: [u8; 4] = [0x54, 0x41, 0x4c, 0x42];
    let year: [u8; 4] = [0x54, 0x59, 0x45, 0x52];
    let date: [u8; 4] = [0x54, 0x44, 0x52, 0x43];
    let track: [u8; 4] = [0x54, 0x52, 0x43, 0x4b];
    let genre: [u8; 4] = [0x54, 0x43, 0x4f, 0x4e];
    let composer: [u8; 4] = [0x54, 0x43, 0x4f, 0x4d];
    proof {
        assert(title@ =~= seq![0x54u8, 0x49, 0x54, 0x32]);
        assert(artist@ =~= seq![0x54u8, 0x50, 0x45, 0x31]);
        assert(album@ =~= seq![0x54u8, 0x41, 0x4c, 0x42]);
        assert(year@ =~= seq![0x54u8, 0x59, 0x45, 0x52]);
        assert(date@ =~= seq![0x54u8, 0x44, 0x52, 0x43]);
        assert(track@ =~= seq![0x54u8, 0x52, 0x43, 0x4b]);
        assert(genre@ =~= seq![0x54u8, 0x43, 0x4f, 0x4e]);
        assert(composer@ =~= seq![0x54u8, 0x43, 0x4f, 0x4d]);
    }
    if same_type(&id, &title) {
        "Title"
    } else if same_type(&id, &artist) {
        "Artist"
    } else if same_type(&id, &album) {
        "Album"
    } else if same_type(&id, &year) || same_type(&id, &date) {
        "Year"
    } else if same_type(&id, &track) {
        "Track number"
    } else if same_type(&id, &genre) {
        "Genre"
    } else if same_type(&id, &Tag::Comm.bytes()) {
        "Comment"
    } else if same_type(&id, &composer) {
        "Composer"
    } else {
        "Unknown"
    }
}

/// The value of a frame: the text of a frame whose identifier starts with T,
/// or of a comment.
pub open spec fn value_of(frame: FrameView) -> Option<metadata::MetaView> {
    let value = if frame.id == Tag::Comm.code() {
        comment_text(frame.data)
    } else if frame.id[0] == 0x54 {
        frame_text(frame.data)
    } else {
        None
    };
    match value {
        Some(s) => Some(
            metadata::MetaView {
                key: text::lossy_utf8(frame.id),
                name: name_of(frame.id),
                value: s,
            },
        ),
        None => None,
    }
}

/// The values of the first `n` frames.
pub open spec fn values_of(frames: Seq<FrameView>, n: int) -> Seq<metadata::MetaView>
    decreases n,
{
    if n <= 0 {
        Seq::empty()
    } else {
        match value_of(frames[n - 1]) {
            Some(v) => values_of(frames, n - 1).push(v),
            None => values_of(frames, n - 1),
        }
    }
}

/// What a list of values is.
pub open spec fn metas_view(list: Seq<Meta>) -> Seq<metadata::MetaView> {
    Seq::new(list.len(), |i: int| list[i]@)
}

/// The values of frames.
pub fn frames_to_meta(frames: &[Id3Frame]) -> (r: Vec<Meta>)
    ensures
        metas_view(r@) == values_of(frames_view(frames@), frames@.len() as int),
{
    let mut out: Vec<Meta> = Vec::new();
    let ghost all = frames_view(frames@);
    assert(metas_view(out@) =~= Seq::empty());
    let mut i: usize = 0;
    while i < frames.len()
        invariant
            i <= frames@.len(),
            all == frames_view(frames@),
            metas_view(out@) == values_of(all, i as int),
        decreases frames@.len() - i,
    {
        let ghost before = metas_view(out@);
        let frame: &Id3Frame = &frames[i];
        assert(frame@ == all[i as int]);
        let value: Option<String> = if same_type(&frame.id, &Tag::Comm.bytes()) {
            decode_comment_frame(frame.data.as_slice())
        } else if frame.id[0] == 0x54 {
            decode_id3_text(frame.data.as_slice())
        } else {
            None
        };
        if let Some(value) = value {
            let meta: Meta = Meta {
                key: utf8_lossy(&frame.id),
                name: frame_name(frame.id).to_owned(),
                value,
            };
            let ghost added = meta@;
            out.push(meta);
            assert(metas_view(out@) =~= before.push(added));
        }
        i = i + 1;
    }
    out
}

// --------------------
// Cover art
// --------------------

/// The format of an image by how it starts.
pub open spec fn detected(image: Seq<u8>) -> Option<PixelFormat> {
    if image.len() >= 3 && image.subrange(0, 3) == seq![0xffu8, 0xd8, 0xff] {
        Some(PixelFormat::Jpeg)
    } else if image.len() >= 8 && image.subrange(0, 8) == seq![
        0x89u8,
        0x50,
        0x4e,
        0x47,
        0x0d,
        0x0a,
        0x1a,
        0x0a,
    ] {
        Some(PixelFormat::Png)
    } else {
        None
    }
}

/// Tells the format of an image by how it starts.
pub fn detect_image_format(image: &[u8]) -> (r: Option<PixelFormat>)
    ensures
        r == detected(image@),
{
    if image.len() >= 3 && image[0] == 0xff && image[1] == 0xd8 && image[2] == 0xff {
        assert(image@.subrange(0, 3) =~= seq![0xffu8, 0xd8, 0xff]);
        return Some(PixelFormat::Jpeg);
    }
    if image.len() >= 3 {
        assert(image@.subrange(0, 3) != seq![0xffu8, 0xd8, 0xff]) by {
            let s = image@.subrange(0, 3);
            assert(s[0] == image@[0] && s[1] == image@[1] && s[2] == image@[2]);
        }
    }
    if image.len() >= 8 && image[0] == 0x89 && image[1] == 0x50 && image[2] == 0x4e && image[3]
        == 0x47 && image[4] == 0x0d && image[5] == 0x0a && image[6] == 0x1a && image[7] == 0x0a {
        assert(image@.subrange(0, 8) =~= seq![0x89u8, 0x50, 0x4e, 0x47, 0x0d, 0x0a, 0x1a, 0x0a]);
        return Some(PixelFormat::Png);
    }
    if image.len() >= 8 {
        assert(image@.subrange(0, 8) != seq![0x89u8, 0x50, 0x4e, 0x47, 0x0d, 0x0a, 0x1a, 0x0a]) by {
            let s = image@.subrange(0, 8);
            assert(s[0] == image@[0] && s[1] == image@[1] && s[2] == image@[2] && s[3] == image@[3]
                && s[4] == image@[4] && s[5] == image@[5] && s[6] == image@[6] && s[7]
                == image@[7]);
        }
    }
    None
}

/// The format of a cover: by its media type where that is known, else by how
/// it starts.
pub open spec fn format_of_cover(mime: Seq<char>, image: Seq<u8>) -> Option<PixelFormat> {
    let lower = text::ascii_lowercase(mime);
    if lower == "image/jpeg"@ || lower == "image/jpg"@ {
        Some(PixelFormat::Jpeg)
    } else if lower == "image/png"@ {
        Some(PixelFormat::Png)
    } else {
        detected(image)
    }
}

/// Tells the format of a cover.
pub fn cover_format(mime: &str, image: &[u8]) -> (r: Option<PixelFormat>)
    ensures
        r == format_of_cover(mime@, image@),
{
    let lower: String = to_ascii_lowercase(mime);
    if same_text(lower.as_str(), "image/jpeg") || same_text(lower.as_str(), "image/jpg") {
        Some(PixelFormat::Jpeg)
    } else if same_text(lower.as_str(), "image/png") {
        Some(PixelFormat::Png)
    } else {
        detect_image_format(image)
    }
}

/// The picture type and the cover of a picture frame: an encoding, a media
/// type up to a zero byte, the type, a description in the encoding, and the
/// image, which may not be empty.
pub open spec fn picture_of(data: Seq<u8>) -> Option<(u8, CoverView)> {
    if data.len() == 0 {
        None
    } else {
        match behind_text(data, 0, 1) {
            Some(typed) => {
                let mime = data.subrange(1, typed - 1);
                if !vstd::utf8::valid_utf8(mime) || typed >= data.len() {
                    None
                } else {
                    match behind_text(data, data[0], typed + 1) {
                        Some(at) => {
                            let image = data.skip(at);
                            match format_of_cover(vstd::utf8::decode_utf8(mime), image) {
                                Some(format) => if image.len() == 0 {
                                    None
                                } else {
                                    Some(
                                        (
                                            data[typed],
                                            CoverView {
                                                mime_type: format.media_type()->0,
                                                format,
                                                data: image,
                                            },
                                        ),
                                    )
                                },
                                None => None,
                            }
                        },
                        None => None,
                    }
                }
            },
            None => None,
        }
    }
}

/// What a picture that may be absent is.
pub open spec fn picture_view(r: Option<(u8, CoverArt)>) -> Option<(u8, CoverView)> {
    match r {
        Some((kind, cover)) => Some((kind, cover@)),
        None => None,
    }
}

/// Decodes a picture frame.
pub fn decode_apic_frame(data: &[u8]) -> (r: Option<(u8, CoverArt)>)
    ensures
        picture_view(r) == picture_of(data@),
{
    if data.len() == 0 {
        return None;
    }
    let typed: usize = match find_encoded_terminator(data, 1, 0) {
        Some(at) => at,
        None => {
            return None;
        },
    };
    let mime: String = match decode_utf8(&data[1..typed - 1]) {
        Some(s) => s,
        None => {
            return None;
        },
    };
    if typed >= data.len() {
        return None;
    }
    let at: usize = match find_encoded_terminator(data, typed + 1, data[0]) {
        Some(at) => at,
        None => {
            return None;
        },
    };
    let image: &[u8] = tail(data, at);
    if image.len() == 0 {
        return None;
    }
    let format: PixelFormat = match cover_format(mime.as_str(), image) {
        Some(format) => format,
        None => {
            return None;
        },
    };
    let mime_type: &'static str = match format.mime_type() {
        Some(s) => s,
        None => {
            return None;
        },
    };
    let image_data: Vec<u8> = copy_range(image, 0, image.len());
    assert(image_data@ =~= image@);
    Some((data[typed], CoverArt { mime_type: mime_type.to_owned(), format, data: image_data }))
}

/// The first picture among frames from `k` on whose type passes: any type, or
/// the front cover alone.
pub open spec fn first_picture(frames: Seq<FrameView>, front: bool, k: int) -> Option<CoverView>
    decreases frames.len() - k,
{
    if k < 0 || k >= frames.len() {
        None
    } else {
        match picture_of(frames[k].data) {
            Some((kind, cover)) => if frames[k].id == Tag::Apic.code() && (!front || kind == 3) {
                Some(cover)
            } else {
                first_picture(frames, front, k + 1)
            },
            None => first_picture(frames, front, k + 1),
        }
    }
}

/// The cover of a tag: its first front cover, else its first picture.
pub open spec fn cover_of(frames: Seq<FrameView>) -> Option<CoverView> {
    match first_picture(frames, true, 0) {
        Some(cover) => Some(cover),
        None => first_picture(frames, false, 0),
    }
}

/// What a cover that may be absent is.
pub open spec fn cover_view(r: Option<CoverArt>) -> Option<CoverView> {
    match r {
        Some(cover) => Some(cover@),
        None => None,
    }
}

/// Picks the cover of a tag.
pub fn pick_cover(frames: &[Id3Frame]) -> (r: Option<CoverArt>)
    ensures
        cover_view(r) == cover_of(frames_view(frames@)),
{
    let ghost all = frames_view(frames@);
    let mut fallback: Option<CoverArt> = None;
    let mut i: usize = 0;
    while i < frames.len()
        invariant
            i <= frames@.len(),
            all == frames_view(frames@),
            first_picture(all, true, 0) == first_picture(all, true, i as int),
            first_picture(all, false, 0) == (match fallback {
                Some(cover) => Some(cover@),
                None => first_picture(all, false, i as int),
            }),
        decreases frames@.len() - i,
    {
        let frame: &Id3Frame = &frames[i];
        assert(frame@ == all[i as int]);
        if same_type(&frame.id, &Tag::Apic.bytes()) {
            if let Some((kind, cover)) = decode_apic_frame(frame.data.as_slice()) {
                if kind == 3 {
                    return Some(cover);
                }
                if fallback.is_none() {
                    fallback = Some(cover);
                }
            }
        }
        i = i + 1;
    }
    fallback
}

} // verus!
