//! What the readers make of written tags.

use vstd::prelude::*;
use super::metadata;
use super::metadata::{FrameView, Id3Header};
use crate::bytes;
use crate::errors;
use crate::format::texts;
use crate::tags::Tag;
use crate::text;
use crate::text::Endian;
use crate::types::{CoverView, PixelFormat};

verus! {

// --------------------
// Written tags
// --------------------

/// A number below 2^28 in four bytes with seven bits each, the highest first.
pub open spec fn seven_bits(n: int) -> Seq<u8> {
    seq![
        (n / 0x20_0000 % 0x80) as u8,
        (n / 0x4000 % 0x80) as u8,
        (n / 0x80 % 0x80) as u8,
        (n % 0x80) as u8,
    ]
}

/// A frame to be written: its identifier and content, the byte of its status
/// flags, and what goes with the content by its format flags.
pub struct WrittenFrame {
    pub id: Seq<u8>,
    pub content: Seq<u8>,
    pub status: u8,
    /// The group that the frame belongs to.
    pub group: Option<u8>,
    /// Four bytes that tell the length of the content. From version 4 on.
    pub measure: Option<Seq<u8>>,
    /// Whether zero bytes are put behind bytes of ones in this frame. From
    /// version 4 on.
    pub padded: bool,
}

/// A tag to be written.
pub struct WrittenTag {
    pub version: u8,
    pub revision: u8,
    /// Whether zero bytes are put behind bytes of ones in the whole tag.
    pub padded: bool,
    /// What the extended header holds behind its size.
    pub extended: Option<Seq<u8>>,
    pub frames: Seq<WrittenFrame>,
    /// The number of zero bytes behind the frames.
    pub filling: nat,
}

/// What stands in front of the content of a frame: its group, then its length.
pub open spec fn written_prefix(f: WrittenFrame) -> Seq<u8> {
    (match f.group {
        Some(g) => seq![g],
        None => Seq::empty(),
    }) + match f.measure {
        Some(m) => m,
        None => Seq::empty(),
    }
}

/// The body of a frame.
pub open spec fn written_body(version: u8, padded: bool, f: WrittenFrame) -> Seq<u8> {
    let plain = written_prefix(f) + f.content;
    if version == 4 && (padded || f.padded) {
        metadata::unsynchronized(plain)
    } else {
        plain
    }
}

/// The format flags of a frame.
pub open spec fn written_flags(version: u8, f: WrittenFrame) -> u8 {
    if version == 4 {
        ((if f.group is Some {
            0x40int
        } else {
            0
        }) + (if f.padded {
            0x02int
        } else {
            0
        }) + (if f.measure is Some {
            0x01int
        } else {
            0
        })) as u8
    } else if f.group is Some {
        0x20
    } else {
        0
    }
}

/// The bytes of a frame: its identifier, the size of its body in seven bits a
/// byte from version 4 on and in eight before, its flags and its body.
pub open spec fn written_frame(version: u8, padded: bool, f: WrittenFrame) -> Seq<u8> {
    let body = written_body(version, padded, f);
    f.id + (if version == 4 {
        seven_bits(body.len() as int)
    } else {
        bytes::be32_bytes(body.len() as u32)
    }) + seq![f.status, written_flags(version, f)] + body
}

/// The bytes of frames, one after the other.
pub open spec fn written_frames(version: u8, padded: bool, frames: Seq<WrittenFrame>) -> Seq<u8>
    decreases frames.len(),
{
    if frames.len() == 0 {
        Seq::empty()
    } else {
        written_frame(version, padded, frames[0]) + written_frames(version, padded, frames.skip(1))
    }
}

/// The bytes of an extended header. Its size counts itself from version 4 on
/// only.
pub open spec fn written_extension(version: u8, extended: Option<Seq<u8>>) -> Seq<u8> {
    match extended {
        Some(e) => (if version == 4 {
            seven_bits(4int + e.len())
        } else {
            bytes::be32_bytes(e.len() as u32)
        }) + e,
        None => Seq::empty(),
    }
}

/// The bytes of a tag behind its header. Before version 4 the zero bytes behind
/// bytes of ones are put into the whole of it.
pub open spec fn written_tag(t: WrittenTag) -> Seq<u8> {
    let plain = written_extension(t.version, t.extended) + written_frames(
        t.version,
        t.padded,
        t.frames,
    ) + Seq::new(t.filling, |i: int| 0u8);
    if t.version == 3 && t.padded {
        metadata::unsynchronized(plain)
    } else {
        plain
    }
}

/// The flags of a written header.
pub open spec fn header_flags(padded: bool, extended: bool) -> u8 {
    ((if padded {
        0x80int
    } else {
        0
    }) + (if extended {
        0x40int
    } else {
        0
    })) as u8
}

/// The header of a tag: a mark, the version, the flags, and the size of what is
/// behind it.
pub open spec fn written_header(t: WrittenTag) -> Seq<u8> {
    seq![
        0x49u8,
        0x44,
        0x33,
        t.version,
        t.revision,
        header_flags(t.padded, t.extended is Some),
    ] + seven_bits(written_tag(t).len() as int)
}

/// Whether a frame can be written in a version.
pub open spec fn can_write_frame(version: u8, padded: bool, f: WrittenFrame) -> bool {
    let size = written_body(version, padded, f).len();
    &&& f.id.len() == 4
    &&& f.id != seq![0u8, 0, 0, 0]
    &&& f.measure matches Some(m) ==> m.len() == 4
    &&& version == 3 ==> f.measure is None && !f.padded && 0 < size <= u32::MAX
    &&& version == 4 ==> 0 < size < 0x1000_0000
}

/// Whether a tag can be written: it is of version 3 or 4, its frames can be
/// written, and its sizes fit.
pub open spec fn can_write_tag(t: WrittenTag) -> bool {
    &&& t.version == 3 || t.version == 4
    &&& forall|i: int|
        0 <= i < t.frames.len() ==> can_write_frame(
            t.version,
            t.padded,
            #[trigger] t.frames[i],
        )
    &&& t.extended matches Some(e) ==> e.len() + 4 < 0x1000_0000
    &&& written_tag(t).len() < 0x1000_0000
}

/// What a reader is to make of written frames.
pub open spec fn contents(frames: Seq<WrittenFrame>) -> Seq<FrameView> {
    Seq::new(frames.len(), |i: int| FrameView { id: frames[i].id, data: frames[i].content })
}

proof fn lemma_seven_bits(data: Seq<u8>, at: int, n: int)
    requires
        0 <= n < 0x1000_0000,
        0 <= at,
        at + 4 <= data.len(),
        data.subrange(at, at + 4) == seven_bits(n),
    ensures
        metadata::syncsafe(data, at) == n,
{
    let s = data.subrange(at, at + 4);
    assert(s[0] == data[at] && s[1] == data[at + 1] && s[2] == data[at + 2] && s[3] == data[at + 3]);
    assert(n / 0x20_0000 < 0x80);
    assert(n == n / 0x20_0000 * 0x20_0000 + n / 0x4000 % 0x80 * 0x4000 + n / 0x80 % 0x80 * 0x80 + n
        % 0x80);
}

/// Taking out zero bytes does not make data longer.
proof fn lemma_padded_is_longer(data: Seq<u8>)
    ensures
        metadata::unsynchronized(data).len() >= data.len(),
    decreases data.len(),
{
    if data.len() > 0 {
        lemma_padded_is_longer(data.skip(1));
    }
}

/// The content of a written frame is taken out of its body.
proof fn lemma_content(version: u8, padded: bool, f: WrittenFrame)
    requires
        version == 3 || version == 4,
        can_write_frame(version, padded, f),
    ensures
        version == 4 ==> metadata::content_v4(
            f.id,
            written_body(version, padded, f),
            written_flags(version, f),
            padded,
        ) == Ok::<Seq<u8>, errors::ErrorView>(f.content),
        version == 3 ==> metadata::content_v3(
            f.id,
            written_body(version, padded, f),
            written_flags(version, f),
        ) == Ok::<Seq<u8>, errors::ErrorView>(f.content),
{
    let plain = written_prefix(f) + f.content;
    metadata::law_synchronized_undoes_unsynchronized(plain);
    let rest = if f.group is Some {
        plain.skip(1)
    } else {
        plain
    };
    if f.group is Some {
        assert(rest =~= (match f.measure {
            Some(m) => m,
            None => Seq::empty(),
        }) + f.content);
    } else {
        assert(rest =~= (match f.measure {
            Some(m) => m,
            None => Seq::empty(),
        }) + f.content);
    }
    if f.measure is Some {
        assert(rest.skip(4) =~= f.content);
    } else {
        assert(rest =~= f.content);
    }
}

/// The frame written at an offset is read there.
proof fn lemma_frame_at(
    data: Seq<u8>,
    version: u8,
    padded: bool,
    f: WrittenFrame,
    at: int,
)
    requires
        version == 3 || version == 4,
        can_write_frame(version, padded, f),
        0 <= at,
        at + written_frame(version, padded, f).len() <= data.len() <= usize::MAX,
        data.subrange(at, at + written_frame(version, padded, f).len()) == written_frame(
            version,
            padded,
            f,
        ),
    ensures
        !metadata::frames_end(data, version, at),
        data.subrange(at, at + 4) == f.id,
        metadata::frame_size(data, version, at) == written_body(version, padded, f).len(),
        written_frame(version, padded, f).len() == 10 + written_body(version, padded, f).len(),
        metadata::frame_content(data, version, padded, at) == Ok::<Seq<u8>, errors::ErrorView>(
            f.content,
        ),
{
    let body = written_body(version, padded, f);
    let all = written_frame(version, padded, f);
    let n = all.len() as int;
    let s = data.subrange(at, at + n);
    let size = if version == 4 {
        seven_bits(body.len() as int)
    } else {
        bytes::be32_bytes(body.len() as u32)
    };
    assert(n == 10 + body.len());
    assert(data.subrange(at, at + 4) =~= all.subrange(0, 4)) by {
        assert forall|i: int| 0 <= i < 4 implies data[at + i] == #[trigger] all[i] by {
            assert(s[i] == data[at + i]);
        }
    }
    assert(all.subrange(0, 4) =~= f.id);
    assert(data.subrange(at + 4, at + 8) =~= size) by {
        assert forall|i: int| 0 <= i < 4 implies data[at + 4 + i] == #[trigger] size[i] by {
            assert(s[4 + i] == data[at + 4 + i]);
            assert(all[4 + i] == size[i]);
        }
    }
    assert(data.subrange(at + 10, at + n) =~= body) by {
        assert forall|i: int| 0 <= i < body.len() implies data[at + 10 + i] == #[trigger] body[i] by {
            assert(s[10 + i] == data[at + 10 + i]);
            assert(all[10 + i] == body[i]);
        }
    }
    assert(data[at + 9] == written_flags(version, f)) by {
        assert(s[9] == data[at + 9]);
        assert(all[9] == written_flags(version, f));
    }
    if version == 4 {
        lemma_seven_bits(data, at + 4, body.len() as int);
    } else {
        bytes::lemma_be32_roundtrip(data, at + 4, body.len() as u32);
    }
    lemma_content(version, padded, f);
}

/// Frames written from an offset on are read from there.
#[verifier::spinoff_prover]
#[verifier::rlimit(60)]
proof fn lemma_frames_from(
    data: Seq<u8>,
    version: u8,
    padded: bool,
    frames: Seq<WrittenFrame>,
    filling: nat,
    at: int,
)
    requires
        version == 3 || version == 4,
        forall|i: int|
            0 <= i < frames.len() ==> can_write_frame(version, padded, #[trigger] frames[i]),
        0 <= at <= data.len() <= usize::MAX,
        data.skip(at) == written_frames(version, padded, frames) + Seq::new(filling, |i: int| 0u8),
    ensures
        metadata::frames_from(data, version, padded, at) == Ok::<Seq<FrameView>, errors::ErrorView>(
            contents(frames),
        ),
    decreases frames.len(),
{
    let zeros = Seq::new(filling, |i: int| 0u8);
    let left = data.skip(at);
    if frames.len() == 0 {
        assert(left =~= zeros);
        if at + 10 <= data.len() {
            assert(data.subrange(at, at + 4) =~= left.subrange(0, 4));
            assert(left.subrange(0, 4) =~= seq![0u8, 0, 0, 0]);
        }
        assert(contents(frames) =~= Seq::empty());
    } else {
        let f = frames[0];
        let rest = frames.skip(1);
        let first = written_frame(version, padded, f);
        let behind = written_frames(version, padded, rest);
        let n = first.len() as int;
        assert(left =~= first + (behind + zeros));
        assert(data.subrange(at, at + n) =~= first) by {
            assert forall|i: int| 0 <= i < n implies data[at + i] == #[trigger] first[i] by {
                assert(left[i] == data[at + i]);
            }
        }
        lemma_frame_at(data, version, padded, f, at);
        assert(data.skip(at + n) =~= behind + zeros) by {
            assert forall|i: int| 0 <= i < data.len() - at - n implies data[at + n + i] == #[trigger] (
            behind + zeros)[i] by {
                assert(left[n + i] == data[at + n + i]);
            }
        }
        assert forall|i: int| 0 <= i < rest.len() implies can_write_frame(
            version,
            padded,
            #[trigger] rest[i],
        ) by {
            assert(rest[i] == frames[i + 1]);
        }
        lemma_frames_from(data, version, padded, rest, filling, at + n);
        assert(seq![FrameView { id: f.id, data: f.content }] + contents(rest) =~= contents(frames));
    }
}

proof fn lemma_header(t: WrittenTag, rest: Seq<u8>)
    requires
        written_tag(t).len() < 0x1000_0000,
    ensures
        metadata::header_of(written_header(t) + rest) == Some(
            Id3Header {
                version: (t.version, t.revision),
                flags: header_flags(t.padded, t.extended is Some),
                tag_size: written_tag(t).len() as u32,
            },
        ),
{
    let size = written_tag(t).len() as int;
    let data = written_header(t) + rest;
    assert(data.subrange(6, 10) =~= seven_bits(size));
    lemma_seven_bits(data, 6, size);
}

#[verifier::spinoff_prover]
#[verifier::rlimit(40)]
proof fn lemma_start(version: u8, padded: bool, extended: Option<Seq<u8>>, rest: Seq<u8>, h: Id3Header)
    requires
        version == 3 || version == 4,
        extended matches Some(e) ==> e.len() + 4 < 0x1000_0000,
        (written_extension(version, extended) + rest).len() < 0x1000_0000,
        h.version.0 == version,
        h.flags == header_flags(padded, extended is Some),
    ensures
        metadata::frames_start(written_extension(version, extended) + rest, h) == Ok::<
            int,
            errors::ErrorView,
        >(written_extension(version, extended).len() as int),
{
    let plain = written_extension(version, extended) + rest;
    if let Some(e) = extended {
        if version == 4 {
            assert(plain.subrange(0, 4) =~= seven_bits(4int + e.len()));
            lemma_seven_bits(plain, 0, 4int + e.len());
        } else {
            assert(plain.subrange(0, 4) =~= bytes::be32_bytes(e.len() as u32));
            bytes::lemma_be32_roundtrip(plain, 0, e.len() as u32);
        }
    }
}

#[verifier::spinoff_prover]
#[verifier::rlimit(40)]
proof fn lemma_tag_frames(t: WrittenTag, h: Id3Header)
    requires
        can_write_tag(t),
        h.version.0 == t.version,
        h.flags == header_flags(t.padded, t.extended is Some),
    ensures
        metadata::tag_frames(h, written_tag(t)) == Ok::<Seq<FrameView>, errors::ErrorView>(
            contents(t.frames),
        ),
{
    let zeros = Seq::new(t.filling, |i: int| 0u8);
    let ext = written_extension(t.version, t.extended);
    let frames = written_frames(t.version, t.padded, t.frames);
    let plain = ext + frames + zeros;
    metadata::law_synchronized_undoes_unsynchronized(plain);
    lemma_padded_is_longer(plain);
    assert(plain =~= ext + (frames + zeros));
    lemma_start(t.version, t.padded, t.extended, frames + zeros, h);
    assert(plain.skip(ext.len() as int) =~= frames + zeros);
    lemma_frames_from(plain, t.version, t.padded, t.frames, t.filling, ext.len() as int);
    assert(metadata::has_bit(h.flags, 0x80) == t.padded);
}

/// A written tag is read back: its header tells the version and how far the tag
/// reaches, and what is behind the header holds exactly the frames that were
/// written, each with its content. In version 4 the sizes of frames have seven
/// bits a byte, in version 3 eight.
#[verifier::spinoff_prover]
#[verifier::rlimit(40)]
pub proof fn law_written_tag_is_read(t: WrittenTag, rest: Seq<u8>)
    requires
        can_write_tag(t),
    ensures
        metadata::header_of(written_header(t) + rest) matches Some(h) && h.version == (
            t.version,
            t.revision,
        ) && h.tag_size == written_tag(t).len() && metadata::tag_frames(h, written_tag(t)) == Ok::<
            Seq<FrameView>,
            errors::ErrorView,
        >(contents(t.frames)),
{
    lemma_header(t, rest);
    lemma_tag_frames(t, metadata::header_of(written_header(t) + rest)->Some_0);
}

// --------------------
// Texts
// --------------------

/// A text in one of the four encodings of a tag. UTF-16 of unknown order has a
/// mark in front.
pub open spec fn written_text(encoding: u8, order: Endian, s: Seq<char>) -> Seq<u8> {
    if encoding == 0 {
        texts::latin1_bytes(s)
    } else if encoding == 1 {
        (if order == Endian::Big {
            seq![0xfeu8, 0xff]
        } else {
            seq![0xffu8, 0xfe]
        }) + texts::unit_bytes(texts::utf16_of(s), order)
    } else if encoding == 2 {
        texts::unit_bytes(texts::utf16_of(s), Endian::Big)
    } else {
        vstd::utf8::encode_utf8(s)
    }
}

/// Whether an encoding has all the characters of a text.
pub open spec fn can_encode(encoding: u8, s: Seq<char>) -> bool {
    encoding <= 3 && (encoding == 0 ==> forall|i: int|
        0 <= i < s.len() ==> (#[trigger] s[i]) as u32 <= 0xff)
}

proof fn lemma_encoded(encoding: u8, order: Endian, s: Seq<char>, n: nat)
    requires
        texts::is_tidy(s),
        can_encode(encoding, s),
    ensures
        metadata::encoded_text(encoding, written_text(encoding, order, s + texts::nulls(n)))
            == Some(s),
{
    let t = s + texts::nulls(n);
    if encoding == 0 {
        assert forall|i: int| 0 <= i < t.len() implies (#[trigger] t[i]) as u32 <= 0xff by {
            if i < s.len() {
                assert(t[i] == s[i]);
            }
        }
        texts::law_latin1_reads_back(t);
    } else if encoding == 1 {
        texts::law_marked_utf16_reads_back(t, order);
    } else if encoding == 2 {
        texts::law_utf16_reads_back(t, Endian::Big);
    } else {
        texts::law_utf8_reads_back(t);
    }
    let none = Seq::<char>::empty();
    texts::law_padding_is_left_out(0, none, s, none, n);
    assert(texts::nulls(0) + (none + s + none) + texts::nulls(n) =~= t);
}

/// The text of a text frame is read back in each of the four encodings, without
/// the nulls at its end.
pub proof fn law_text_frame_reads_back(encoding: u8, order: Endian, s: Seq<char>, n: nat)
    requires
        texts::is_tidy(s),
        can_encode(encoding, s),
    ensures
        metadata::frame_text(seq![encoding] + written_text(encoding, order, s + texts::nulls(n)))
            == Some(s),
{
    let data = written_text(encoding, order, s + texts::nulls(n));
    assert((seq![encoding] + data).skip(1) =~= data);
    lemma_encoded(encoding, order, s, n);
}

/// The bytes of a character in an encoding: two in the encodings of UTF-16.
pub open spec fn written_unit(encoding: u8) -> int {
    if encoding == 1 || encoding == 2 {
        2
    } else {
        1
    }
}

/// The end of a text inside a frame: zeros, as many as a character has bytes.
pub open spec fn end_mark(encoding: u8) -> Seq<u8> {
    if encoding == 1 || encoding == 2 {
        seq![0u8, 0]
    } else {
        seq![0u8]
    }
}

/// Whether bytes hold whole characters of an encoding, none of them zero.
pub open spec fn holds_no_end(encoding: u8, d: Seq<u8>) -> bool {
    if encoding == 1 || encoding == 2 {
        d.len() % 2 == 0 && forall|k: int|
            0 <= k && 2 * k + 1 < d.len() ==> !(d[2 * k] == 0 && #[trigger] d[2 * k + 1] == 0)
    } else {
        forall|k: int| 0 <= k < d.len() ==> #[trigger] d[k] != 0
    }
}

/// A text is over behind its end mark.
proof fn lemma_behind_text(encoding: u8, data: Seq<u8>, at: int, d: Seq<u8>, k: int)
    requires
        holds_no_end(encoding, d),
        0 <= at,
        at + d.len() + written_unit(encoding) <= data.len(),
        data.subrange(at, at + d.len()) == d,
        data.subrange(at + d.len(), at + d.len() + written_unit(encoding)) == end_mark(encoding),
        0 <= k <= d.len(),
        k % written_unit(encoding) == 0,
    ensures
        metadata::behind_text(data, encoding, at + k) == Some(
            at + d.len() + written_unit(encoding),
        ),
    decreases d.len() - k,
{
    let unit = written_unit(encoding);
    let mark = data.subrange(at + d.len(), at + d.len() + unit);
    if k == d.len() {
        assert(mark[0] == data[at + k] && mark[0] == 0);
        if unit == 2 {
            assert(mark[1] == data[at + k + 1] && mark[1] == 0);
        }
    } else {
        let part = data.subrange(at, at + d.len());
        assert(part[k] == data[at + k]);
        if unit == 2 {
            let j = k / 2;
            assert(k == 2 * j);
            assert(k + 1 < d.len());
            assert(part[k + 1] == data[at + k + 1]);
            assert(!(d[2 * j] == 0 && d[2 * j + 1] == 0));
            assert((k + 2) % 2 == 0);
        } else {
            assert(d[k] != 0);
        }
        lemma_behind_text(encoding, data, at, d, k + unit);
    }
}

/// The text of a comment is read back, whatever its language and its
/// description are.
pub proof fn law_comment_reads_back(
    encoding: u8,
    order: Endian,
    language: Seq<u8>,
    description: Seq<u8>,
    s: Seq<char>,
    n: nat,
)
    requires
        language.len() == 3,
        holds_no_end(encoding, description),
        texts::is_tidy(s),
        can_encode(encoding, s),
    ensures
        metadata::comment_text(
            seq![encoding] + language + description + end_mark(encoding) + written_text(
                encoding,
                order,
                s + texts::nulls(n),
            ),
        ) == Some(s),
{
    let words = written_text(encoding, order, s + texts::nulls(n));
    let data = seq![encoding] + language + description + end_mark(encoding) + words;
    let comment = description + end_mark(encoding) + words;
    lemma_encoded(encoding, order, s, n);
    lemma_text_has_bytes(encoding, order, s + texts::nulls(n));
    assert(data.skip(4) =~= comment);
    assert(comment.subrange(0, description.len() as int) =~= description);
    assert(comment.subrange(
        description.len() as int,
        description.len() + written_unit(encoding),
    ) =~= end_mark(encoding));
    lemma_behind_text(encoding, comment, 0, description, 0);
    assert(comment.skip(description.len() + written_unit(encoding)) =~= words);
}

proof fn lemma_text_has_bytes(encoding: u8, order: Endian, s: Seq<char>)
    requires
        s.len() > 0,
        encoding <= 3,
    ensures
        written_text(encoding, order, s).len() > 0,
{
    if encoding == 3 {
        vstd::utf8::encode_utf8_decode_utf8(s);
    } else if encoding > 0 {
        assert(units_of_first(s).len() > 0);
        assert(texts::utf16_of(s).len() > 0);
    }
}

spec fn units_of_first(s: Seq<char>) -> Seq<u16> {
    texts::units_of_char(s[0])
}

// --------------------
// Values
// --------------------

/// A text frame that was written has its text as its value, under its identifier.
pub proof fn law_text_frame_has_a_value(
    id: Seq<u8>,
    encoding: u8,
    order: Endian,
    s: Seq<char>,
    n: nat,
)
    requires
        id.len() == 4,
        id[0] == 0x54,
        texts::is_tidy(s),
        can_encode(encoding, s),
    ensures
        metadata::value_of(
            FrameView {
                id,
                data: seq![encoding] + written_text(encoding, order, s + texts::nulls(n)),
            },
        ) matches Some(v) && v.value == s && v.key == text::lossy_utf8(id),
{
    law_text_frame_reads_back(encoding, order, s, n);
    assert(Tag::Comm.code()[0] == 0x43);
}

/// A comment that was written has its text as its value.
pub proof fn law_comment_has_a_value(
    encoding: u8,
    order: Endian,
    language: Seq<u8>,
    description: Seq<u8>,
    s: Seq<char>,
    n: nat,
)
    requires
        language.len() == 3,
        holds_no_end(encoding, description),
        texts::is_tidy(s),
        can_encode(encoding, s),
    ensures
        metadata::value_of(
            FrameView {
                id: seq![0x43u8, 0x4f, 0x4d, 0x4d],
                data: seq![encoding] + language + description + end_mark(encoding) + written_text(
                    encoding,
                    order,
                    s + texts::nulls(n),
                ),
            },
        ) matches Some(v) && v.value == s && v.name == "Comment"@,
{
    law_comment_reads_back(encoding, order, language, description, s, n);
}

/// The values of frames are those of the first ones followed by those of the
/// others; a frame alone has its value, or none.
pub proof fn law_values_are_listed_in_order(a: Seq<FrameView>, b: Seq<FrameView>, f: FrameView)
    ensures
        metadata::values_of(a + b, (a + b).len() as int) == metadata::values_of(a, a.len() as int)
            + metadata::values_of(b, b.len() as int),
        metadata::values_of(seq![f], 1) == (match metadata::value_of(f) {
            Some(v) => seq![v],
            None => Seq::empty(),
        }),
{
    lemma_values_append(a, b, b.len() as int);
    reveal_with_fuel(metadata::values_of, 2);
    assert(metadata::values_of(seq![f], 0) =~= Seq::empty());
    if let Some(v) = metadata::value_of(f) {
        assert(metadata::values_of(seq![f], 1) =~= seq![v]);
    }
}

proof fn lemma_values_append(a: Seq<FrameView>, b: Seq<FrameView>, n: int)
    requires
        0 <= n <= b.len(),
    ensures
        metadata::values_of(a + b, a.len() + n) == metadata::values_of(a, a.len() as int)
            + metadata::values_of(b, n),
    decreases n,
{
    if n == 0 {
        lemma_values_prefix(a, b, a.len() as int);
        assert(metadata::values_of(b, 0) =~= Seq::empty());
        assert(metadata::values_of(a, a.len() as int) + metadata::values_of(b, 0)
            =~= metadata::values_of(a, a.len() as int));
    } else {
        lemma_values_append(a, b, n - 1);
        assert((a + b)[a.len() + n - 1] == b[n - 1]);
        assert(metadata::values_of(a + b, a.len() + n) =~= metadata::values_of(a, a.len() as int)
            + metadata::values_of(b, n));
    }
}

proof fn lemma_values_prefix(a: Seq<FrameView>, b: Seq<FrameView>, n: int)
    requires
        0 <= n <= a.len(),
    ensures
        metadata::values_of(a + b, n) == metadata::values_of(a, n),
    decreases n,
{
    if n > 0 {
        lemma_values_prefix(a, b, n - 1);
        assert((a + b)[n - 1] == a[n - 1]);
    }
}

// --------------------
// Cover art
// --------------------

/// The bytes of a picture frame: an encoding, a media type and its end, the type
/// of the picture, a description and its end, and the image.
pub open spec fn written_picture(
    encoding: u8,
    mime: Seq<u8>,
    kind: u8,
    description: Seq<u8>,
    image: Seq<u8>,
) -> Seq<u8> {
    seq![encoding] + mime + seq![0u8] + seq![kind] + description + end_mark(encoding) + image
}

/// Whether a media type names JPEG images.
pub open spec fn names_jpeg(mime: Seq<u8>) -> bool {
    let lower = text::ascii_lowercase(vstd::utf8::decode_utf8(mime));
    lower == "image/jpeg"@ || lower == "image/jpg"@
}

/// Whether a media type names PNG images.
pub open spec fn names_png(mime: Seq<u8>) -> bool {
    text::ascii_lowercase(vstd::utf8::decode_utf8(mime)) == "image/png"@
}

/// Whether an image starts as JPEG images do.
pub open spec fn starts_as_jpeg(image: Seq<u8>) -> bool {
    image.len() >= 3 && image[0] == 0xff && image[1] == 0xd8 && image[2] == 0xff
}

/// Whether an image starts as PNG images do.
pub open spec fn starts_as_png(image: Seq<u8>) -> bool {
    image.len() >= 8 && image.take(8) == seq![0x89u8, 0x50, 0x4e, 0x47, 0x0d, 0x0a, 0x1a, 0x0a]
}

/// A written picture is read back with its type and its image, as what its media
/// type names, or else as what its first bytes tell; others are no covers.
#[verifier::spinoff_prover]
#[verifier::rlimit(40)]
pub proof fn law_picture_reads_back(
    encoding: u8,
    mime: Seq<u8>,
    kind: u8,
    description: Seq<u8>,
    image: Seq<u8>,
)
    requires
        vstd::utf8::valid_utf8(mime),
        forall|k: int| 0 <= k < mime.len() ==> #[trigger] mime[k] != 0,
        holds_no_end(encoding, description),
        image.len() > 0,
    ensures
        ({
            let found = metadata::picture_of(
                written_picture(encoding, mime, kind, description, image),
            );
            let jpeg = names_jpeg(mime) || (!names_png(mime) && starts_as_jpeg(image));
            let png = names_png(mime) || (!names_jpeg(mime) && starts_as_png(image));
            &&& jpeg ==> found == Some(
                (
                    kind,
                    CoverView {
                        mime_type: "image/jpeg"@,
                        format: PixelFormat::Jpeg,
                        data: image,
                    },
                ),
            )
            &&& png && !jpeg ==> found == Some(
                (
                    kind,
                    CoverView { mime_type: "image/png"@, format: PixelFormat::Png, data: image },
                ),
            )
            &&& !jpeg && !png ==> found is None
        }),
{
    let data = written_picture(encoding, mime, kind, description, image);
    let typed = 2int + mime.len();
    let at = typed + 1 + description.len() + written_unit(encoding);
    assert(data.subrange(1, 1int + mime.len()) =~= mime);
    assert(data.subrange(1int + mime.len(), 2int + mime.len()) =~= seq![0u8]);
    lemma_behind_text(0, data, 1, mime, 0);
    assert(metadata::behind_text(data, 0, 1) == Some(typed));
    assert(data.subrange(1, typed - 1) =~= mime);
    assert(data[typed] == kind);
    assert(data.subrange(typed + 1, typed + 1 + description.len()) =~= description);
    assert(data.subrange(typed + 1 + description.len(), at) =~= end_mark(encoding));
    lemma_behind_text(encoding, data, typed + 1, description, 0);
    assert(data.skip(at) =~= image);
    if image.len() >= 3 {
        assert(image.subrange(0, 3).len() == 3);
        assert(image.subrange(0, 3)[0] == image[0] && image.subrange(0, 3)[1] == image[1]
            && image.subrange(0, 3)[2] == image[2]);
        if starts_as_jpeg(image) {
            assert(image.subrange(0, 3) =~= seq![0xffu8, 0xd8, 0xff]);
        }
    }
    if image.len() >= 8 {
        assert(image.subrange(0, 8) =~= image.take(8));
    }
    if names_png(mime) && names_jpeg(mime) {
        reveal_strlit("image/jpeg");
        reveal_strlit("image/jpg");
        reveal_strlit("image/png");
        assert("image/png"@[6] == 'p');
        assert("image/jpeg"@[6] == 'j');
        assert("image/jpg"@[6] == 'j');
    }
    if starts_as_jpeg(image) && starts_as_png(image) {
        assert(image.take(8)[0] == image[0]);
    }
}

/// Whether a frame holds a picture.
pub open spec fn is_picture(f: FrameView) -> bool {
    f.id == seq![0x41u8, 0x50, 0x49, 0x43] && metadata::picture_of(f.data) is Some
}

/// Whether a frame holds a picture of the front cover.
pub open spec fn is_front_cover(f: FrameView) -> bool {
    is_picture(f) && (metadata::picture_of(f.data)->0).0 == 3
}

/// The cover of a tag is its first front cover, if it has one, and else its
/// first picture.
pub proof fn law_front_cover_is_picked(frames: Seq<FrameView>, k: int)
    requires
        0 <= k < frames.len(),
    ensures
        is_front_cover(frames[k]) && (forall|j: int|
            0 <= j < k ==> !is_front_cover(#[trigger] frames[j])) ==> metadata::cover_of(frames)
            == Some((metadata::picture_of(frames[k].data)->0).1),
        is_picture(frames[k]) && (forall|j: int|
            0 <= j < k ==> !is_picture(#[trigger] frames[j])) && (forall|j: int|
            0 <= j < frames.len() ==> !is_front_cover(#[trigger] frames[j])) ==> metadata::cover_of(
            frames,
        ) == Some((metadata::picture_of(frames[k].data)->0).1),
        (forall|j: int| 0 <= j < frames.len() ==> !is_picture(#[trigger] frames[j]))
            ==> metadata::cover_of(frames) is None,
{
    if is_front_cover(frames[k]) && (forall|j: int|
        0 <= j < k ==> !is_front_cover(#[trigger] frames[j])) {
        lemma_first_picture(frames, true, 0, k);
    }
    if forall|j: int| 0 <= j < frames.len() ==> !is_front_cover(#[trigger] frames[j]) {
        lemma_first_picture(frames, true, 0, frames.len() as int);
    }
    if is_picture(frames[k]) && (forall|j: int| 0 <= j < k ==> !is_picture(#[trigger] frames[j])) {
        lemma_first_picture(frames, false, 0, k);
    }
    if forall|j: int| 0 <= j < frames.len() ==> !is_picture(#[trigger] frames[j]) {
        lemma_first_picture(frames, false, 0, frames.len() as int);
        lemma_first_picture(frames, true, 0, frames.len() as int);
    }
}

proof fn lemma_first_picture(frames: Seq<FrameView>, front: bool, a: int, k: int)
    requires
        0 <= a <= k <= frames.len(),
        forall|j: int|
            a <= j < k ==> !(if front {
                is_front_cover(#[trigger] frames[j])
            } else {
                is_picture(frames[j])
            }),
        k < frames.len() ==> if front {
            is_front_cover(frames[k])
        } else {
            is_picture(frames[k])
        },
    ensures
        metadata::first_picture(frames, front, a) == (if k < frames.len() {
            Some((metadata::picture_of(frames[k].data)->0).1)
        } else {
            None
        }),
    decreases k - a,
{
    assert(Tag::Apic.code() =~= seq![0x41u8, 0x50, 0x49, 0x43]);
    if a < k {
        let f = frames[a];
        lemma_first_picture(frames, front, a + 1, k);
    }
}

} // verus!
