//! What the readers make of written boxes, cues and tracks.

use vstd::prelude::*;
use super::atoms::media;
use super::atoms::read;
use super::subtitles;
use super::tracks;
use crate::boxes;
use crate::bytes;
use crate::format::texts;
use crate::helpers::entries;
use crate::helpers::Mp4Box;
use crate::mp4_writer::laws;
use crate::tags::Tag;
use crate::text;
use crate::text::{Endian, Trim};

verus! {

// --------------------
// Boxes
// --------------------

/// The type of a box, by its four letters.
pub open spec fn four(a: char, b: char, c: char, d: char) -> Seq<u8> {
    seq![a as u8, b as u8, c as u8, d as u8]
}

/// Whether the box at a place of a list is the first of its type there, and
/// what it holds.
pub open spec fn is_first(
    list: Seq<(Seq<u8>, Seq<u8>)>,
    k: int,
    name: Seq<u8>,
    payload: Seq<u8>,
) -> bool {
    &&& 0 <= k < list.len()
    &&& list[k] == (name, payload)
    &&& forall|j: int| 0 <= j < k ==> (#[trigger] list[j]).0 != name
}

/// Whether the first box of a type holds a payload.
pub open spec fn first_holds(
    list: Seq<(Seq<u8>, Seq<u8>)>,
    name: Seq<u8>,
    payload: Seq<u8>,
) -> bool {
    exists|k: int| #[trigger] is_first(list, k, name, payload)
}

/// Whether no box of a list has a type.
pub open spec fn has_no(list: Seq<(Seq<u8>, Seq<u8>)>, name: Seq<u8>) -> bool {
    forall|j: int| 0 <= j < list.len() ==> (#[trigger] list[j]).0 != name
}

/// Boxes laid out one after the other are walked in that order.
pub proof fn law_laid_out_boxes_are_walked(list: Seq<(Seq<u8>, Seq<u8>)>)
    requires
        laws::fits_headers(list),
    ensures
        read::boxes_in(laws::laid_out(list)) == list,
    decreases list.len(),
{
    if list.len() > 0 {
        let rest = list.skip(1);
        assert forall|i: int| 0 <= i < rest.len() implies (#[trigger] rest[i]).0.len() == 4
            && rest[i].1.len() + 8 <= u32::MAX by {
            assert(rest[i] == list[i + 1]);
        }
        law_laid_out_boxes_are_walked(rest);
        read::law_written_box_is_read(list[0].0, list[0].1, laws::laid_out(rest));
        assert(seq![list[0]] + rest =~= list);
    }
}

proof fn lemma_first_of(
    list: Seq<(Seq<u8>, Seq<u8>)>,
    k: int,
    name: Seq<u8>,
    payload: Seq<u8>,
)
    requires
        is_first(list, k, name, payload),
    ensures
        entries::first_of(list, name) == Some(payload),
    decreases list.len(),
{
    if k > 0 {
        let rest = list.skip(1);
        assert(list[0].0 != name);
        assert(rest[k - 1] == list[k]);
        assert forall|j: int| 0 <= j < k - 1 implies (#[trigger] rest[j]).0 != name by {
            assert(rest[j] == list[j + 1]);
        }
        lemma_first_of(rest, k - 1, name, payload);
    }
}

proof fn lemma_none_of(list: Seq<(Seq<u8>, Seq<u8>)>, name: Seq<u8>)
    requires
        has_no(list, name),
    ensures
        entries::first_of(list, name) is None,
    decreases list.len(),
{
    if list.len() > 0 {
        let rest = list.skip(1);
        assert forall|j: int| 0 <= j < rest.len() implies (#[trigger] rest[j]).0 != name by {
            assert(rest[j] == list[j + 1]);
        }
        lemma_none_of(rest, name);
    }
}

/// The first box of a type is found among boxes laid out one after the other,
/// by its place alone; where there is none, none is found.
pub proof fn law_first_box_is_found(
    list: Seq<(Seq<u8>, Seq<u8>)>,
    name: Seq<u8>,
    payload: Seq<u8>,
)
    requires
        laws::fits_headers(list),
    ensures
        first_holds(list, name, payload) ==> read::child(laws::laid_out(list), name) == Some(
            payload,
        ) && boxes::find_box(laws::laid_out(list), name) == Some(payload),
        has_no(list, name) ==> read::child(laws::laid_out(list), name) is None && boxes::find_box(
            laws::laid_out(list),
            name,
        ) is None,
{
    law_laid_out_boxes_are_walked(list);
    laws::law_laid_out_boxes_are_found(list, name);
    if first_holds(list, name, payload) {
        let k = choose|k: int| #[trigger] is_first(list, k, name, payload);
        lemma_first_of(list, k, name, payload);
    }
    if has_no(list, name) {
        lemma_none_of(list, name);
    }
}

/// A box with a 64-bit size is read back.
pub proof fn law_large_box_is_read(name: Seq<u8>, payload: Seq<u8>, rest: Seq<u8>)
    requires
        name.len() == 4,
        payload.len() + 16 <= u64::MAX,
    ensures
        read::boxes_in(
            bytes::be32_bytes(1) + name + bytes::be64_bytes((payload.len() + 16) as u64) + payload
                + rest,
        ) == seq![(name, payload)] + read::boxes_in(rest),
{
    let size = (payload.len() + 16) as u64;
    let high = (size / 0x1_0000_0000) as u32;
    let low = (size % 0x1_0000_0000) as u32;
    let data = bytes::be32_bytes(1) + name + bytes::be64_bytes(size) + payload + rest;
    assert(data.subrange(0, 4) =~= bytes::be32_bytes(1));
    bytes::lemma_be32_roundtrip(data, 0, 1);
    assert(data.subrange(8, 12) =~= bytes::be32_bytes(high));
    bytes::lemma_be32_roundtrip(data, 8, high);
    assert(data.subrange(12, 16) =~= bytes::be32_bytes(low));
    bytes::lemma_be32_roundtrip(data, 12, low);
    assert(data.subrange(4, 8) =~= name);
    assert(data.subrange(16, size as int) =~= payload);
    assert(data.skip(size as int) =~= rest);
}

// --------------------
// Cues
// --------------------

/// Whether a text can stand in a cue as it is: nothing of it is padding, and no
/// byte order mark stands at an end.
pub open spec fn is_cue_text(s: Seq<char>) -> bool {
    texts::is_tidy(s) && s[0] != '\u{feff}' && s.last() != '\u{feff}'
}

proof fn lemma_unmarked(s: Seq<char>)
    ensures
        !subtitles::is_marked(vstd::utf8::encode_utf8(s)),
{
    let data = vstd::utf8::encode_utf8(s);
    vstd::utf8::encode_utf8_valid_utf8(s);
    assert(vstd::utf8::valid_utf8(data));
}

proof fn lemma_only_ends(s: Seq<char>)
    requires
        is_cue_text(s),
    ensures
        texts::tidy(text::trimmed(s, Trim::Only('\u{feff}'))) == Some(s),
{
    let none = Seq::<char>::empty();
    texts::law_trimming_keeps_the_middle(none, s, none, Trim::Only('\u{feff}'));
    assert(none + s + none =~= s);
    texts::lemma_tidy_stays(s);
}

/// A plain sample gives its text back from UTF-8, and from UTF-16 with a byte
/// order mark.
pub proof fn law_plain_sample_reads_back(s: Seq<char>, order: Endian)
    requires
        is_cue_text(s),
    ensures
        subtitles::plain_text(vstd::utf8::encode_utf8(s)) == Some(s),
        subtitles::plain_text(
            (if order == Endian::Big {
                seq![0xfeu8, 0xff]
            } else {
                seq![0xffu8, 0xfe]
            }) + texts::unit_bytes(texts::utf16_of(s), order),
        ) == Some(s),
{
    lemma_unmarked(s);
    texts::law_utf8_reads_back(s);
    texts::law_marked_utf16_reads_back(s, order);
    lemma_only_ends(s);
}

/// A `tx3g` sample gives its text back, whatever stands behind it.
pub proof fn law_tx3g_sample_reads_back(s: Seq<char>, behind: Seq<u8>)
    requires
        is_cue_text(s),
        vstd::utf8::encode_utf8(s).len() <= u16::MAX,
    ensures
        subtitles::subtitle_text(
            "tx3g"@,
            bytes::be16_bytes(vstd::utf8::encode_utf8(s).len() as u16) + vstd::utf8::encode_utf8(s)
                + behind,
        ) == Some(s),
{
    let data = vstd::utf8::encode_utf8(s);
    let n = data.len() as u16;
    let sample = bytes::be16_bytes(n) + data + behind;
    assert(sample.subrange(0, 2) =~= bytes::be16_bytes(n));
    bytes::lemma_be16_roundtrip(sample, 0, n);
    assert(sample.subrange(2, 2 + n) =~= data);
    law_plain_sample_reads_back(s, Endian::Big);
}

/// A box of a `wvtt` sample.
pub enum CueBox {
    /// A cue, with the boxes in it.
    Cue(Seq<(Seq<u8>, Seq<u8>)>),
    /// Another box.
    Other(Seq<u8>, Seq<u8>),
}

/// A box of a `wvtt` sample, by its type and its payload.
pub open spec fn cue_box(b: CueBox) -> (Seq<u8>, Seq<u8>) {
    match b {
        CueBox::Cue(inner) => (four('v', 't', 't', 'c'), laws::laid_out(inner)),
        CueBox::Other(name, payload) => (name, payload),
    }
}

/// The boxes of a `wvtt` sample.
pub open spec fn cue_boxes(sample: Seq<CueBox>) -> Seq<(Seq<u8>, Seq<u8>)> {
    Seq::new(sample.len(), |i: int| cue_box(sample[i]))
}

/// Whether the boxes of a `wvtt` sample can be written.
pub open spec fn can_write_cues(sample: Seq<CueBox>) -> bool {
    &&& laws::fits_headers(cue_boxes(sample))
    &&& forall|i: int|
        0 <= i < sample.len() ==> match #[trigger] sample[i] {
            CueBox::Cue(inner) => laws::fits_headers(inner),
            CueBox::Other(name, payload) => true,
        }
}

/// Whether a box of a `wvtt` sample tells no text: a cue without a `payl`, or a
/// box that is neither a cue nor a `payl`.
pub open spec fn tells_nothing(b: CueBox) -> bool {
    match b {
        CueBox::Cue(inner) => has_no(inner, four('p', 'a', 'y', 'l')),
        CueBox::Other(name, payload) => name != four('p', 'a', 'y', 'l') && name != four(
            'v',
            't',
            't',
            'c',
        ),
    }
}

/// Whether a box of a `wvtt` sample tells a text: a cue by the first `payl` in
/// it, whatever stands before that, or a `payl` by itself.
pub open spec fn tells(b: CueBox, data: Seq<u8>) -> bool {
    match b {
        CueBox::Cue(inner) => first_holds(inner, four('p', 'a', 'y', 'l'), data),
        CueBox::Other(name, payload) => name == four('p', 'a', 'y', 'l') && payload == data,
    }
}

proof fn lemma_cue_types()
    ensures
        Tag::Payl.code() == four('p', 'a', 'y', 'l'),
        Tag::Vttc.code() == four('v', 't', 't', 'c'),
        four('p', 'a', 'y', 'l') != four('v', 't', 't', 'c'),
{
    assert(Tag::Payl.code() =~= four('p', 'a', 'y', 'l'));
    assert(Tag::Vttc.code() =~= four('v', 't', 't', 'c'));
    assert(four('p', 'a', 'y', 'l')[0] != four('v', 't', 't', 'c')[0]);
}

#[verifier::spinoff_prover]
#[verifier::rlimit(40)]
proof fn lemma_cue_payload(sample: Seq<CueBox>, k: int, data: Seq<u8>)
    requires
        can_write_cues(sample),
        0 <= k < sample.len(),
        tells(sample[k], data),
        forall|j: int| 0 <= j < k ==> tells_nothing(#[trigger] sample[j]),
    ensures
        subtitles::cue_payload(cue_boxes(sample)) == Some(data),
    decreases sample.len(),
{
    lemma_cue_types();
    let list = cue_boxes(sample);
    let first = sample[0];
    assert(list[0] == cue_box(first));
    if let CueBox::Cue(inner) = first {
        law_first_box_is_found(inner, four('p', 'a', 'y', 'l'), data);
    }
    if k > 0 {
        let rest = sample.skip(1);
        assert(tells_nothing(sample[0]));
        assert(rest[k - 1] == sample[k]);
        assert forall|j: int| 0 <= j < k - 1 implies tells_nothing(#[trigger] rest[j]) by {
            assert(rest[j] == sample[j + 1]);
        }
        assert(cue_boxes(rest) =~= list.skip(1));
        assert forall|i: int| 0 <= i < cue_boxes(rest).len() implies (#[trigger] cue_boxes(
            rest,
        )[i]).0.len() == 4 && cue_boxes(rest)[i].1.len() + 8 <= u32::MAX by {
            assert(cue_boxes(rest)[i] == list[i + 1]);
        }
        assert forall|i: int| 0 <= i < rest.len() implies match #[trigger] rest[i] {
            CueBox::Cue(inner) => laws::fits_headers(inner),
            CueBox::Other(name, payload) => true,
        } by {
            assert(rest[i] == sample[i + 1]);
        }
        lemma_cue_payload(rest, k - 1, data);
    }
}

/// A `wvtt` sample gives the text of the first box that tells one: that of the
/// `payl` in a cue, with other boxes before it in the cue or none, or that of a
/// `payl` by itself. Boxes before it that tell no text are passed over.
pub proof fn law_wvtt_sample_reads_back(sample: Seq<CueBox>, k: int, s: Seq<char>)
    requires
        is_cue_text(s),
        can_write_cues(sample),
        0 <= k < sample.len(),
        tells(sample[k], vstd::utf8::encode_utf8(s)),
        forall|j: int| 0 <= j < k ==> tells_nothing(#[trigger] sample[j]),
    ensures
        subtitles::subtitle_text("wvtt"@, laws::laid_out(cue_boxes(sample))) == Some(s),
{
    law_laid_out_boxes_are_walked(cue_boxes(sample));
    lemma_cue_payload(sample, k, vstd::utf8::encode_utf8(s));
    law_plain_sample_reads_back(s, Endian::Big);
    reveal_strlit("tx3g");
    reveal_strlit("wvtt");
    assert("tx3g"@[0] != "wvtt"@[0]);
}

/// A cue of one `payl` box gives the text of that box.
pub proof fn law_written_cue_reads_back(s: Seq<char>)
    requires
        is_cue_text(s),
        vstd::utf8::encode_utf8(s).len() + 16 <= u32::MAX,
    ensures
        subtitles::subtitle_text(
            "wvtt"@,
            boxes::box_bytes(
                four('v', 't', 't', 'c'),
                boxes::box_bytes(four('p', 'a', 'y', 'l'), vstd::utf8::encode_utf8(s)),
            ),
        ) == Some(s),
{
    let data = vstd::utf8::encode_utf8(s);
    let inner = seq![(four('p', 'a', 'y', 'l'), data)];
    let sample = seq![CueBox::Cue(inner)];
    reveal_with_fuel(laws::laid_out, 2);
    assert(inner.skip(1) =~= Seq::empty());
    assert(laws::laid_out(inner) =~= boxes::box_bytes(four('p', 'a', 'y', 'l'), data));
    assert(is_first(inner, 0, four('p', 'a', 'y', 'l'), data));
    let list = cue_boxes(sample);
    assert(list[0] == cue_box(sample[0]));
    assert(list.skip(1) =~= Seq::empty());
    assert(laws::laid_out(list) =~= boxes::box_bytes(
        four('v', 't', 't', 'c'),
        laws::laid_out(inner),
    ));
    law_wvtt_sample_reads_back(sample, 0, s);
}

// --------------------
// Headers
// --------------------

/// A time of a header: 32 bits in version 0, 64 bits in version 1.
pub open spec fn time_field(version: u8, v: u64) -> Seq<u8> {
    if version == 0 {
        bytes::be32_bytes(v as u32)
    } else {
        bytes::be64_bytes(v)
    }
}

/// A track header to be written. The sizes are 16.16 fixed-point numbers.
pub struct TrackHead {
    pub version: u8,
    pub flags: Seq<u8>,
    /// When the track was made and changed.
    pub times: Seq<u8>,
    pub id: u32,
    pub gap: Seq<u8>,
    pub duration: u64,
    /// What stands between the duration and the sizes.
    pub middle: Seq<u8>,
    pub width: u32,
    pub height: u32,
}

/// Whether a track header can be written.
pub open spec fn can_write_head(h: TrackHead) -> bool {
    &&& h.version <= 1
    &&& h.flags.len() == 3
    &&& h.times.len() == 8 + 8 * h.version
    &&& h.gap.len() == 4
    &&& h.middle.len() == 52
    &&& h.version == 0 ==> h.duration <= u32::MAX
}

/// A written track header.
pub open spec fn written_head(h: TrackHead) -> Seq<u8> {
    seq![h.version] + h.flags + h.times + bytes::be32_bytes(h.id) + h.gap + time_field(
        h.version,
        h.duration,
    ) + h.middle + bytes::be32_bytes(h.width) + bytes::be32_bytes(h.height)
}

/// A media header to be written.
pub struct MediaHead {
    pub version: u8,
    pub flags: Seq<u8>,
    /// When the media was made and changed.
    pub times: Seq<u8>,
    pub timescale: u32,
    pub duration: u64,
    /// Three lower case letters.
    pub language: Seq<u8>,
    pub behind: Seq<u8>,
}

/// Whether a media header can be written.
pub open spec fn can_write_media(m: MediaHead) -> bool {
    &&& m.version <= 1
    &&& m.flags.len() == 3
    &&& m.times.len() == 8 + 8 * m.version
    &&& m.version == 0 ==> m.duration <= u32::MAX
    &&& m.language.len() == 3
    &&& forall|i: int| 0 <= i < 3 ==> 0x61 <= #[trigger] m.language[i] <= 0x7a
}

/// The packed form of a language: five bits for each letter.
pub open spec fn packed_language(l: Seq<u8>) -> u16 {
    ((l[0] - 0x60) * 0x400 + (l[1] - 0x60) * 0x20 + (l[2] - 0x60)) as u16
}

/// A written media header.
pub open spec fn written_media(m: MediaHead) -> Seq<u8> {
    seq![m.version] + m.flags + m.times + bytes::be32_bytes(m.timescale) + time_field(
        m.version,
        m.duration,
    ) + bytes::be16_bytes(packed_language(m.language)) + m.behind
}

/// The language that a reader tells of a written header: none where the letters
/// say that it is undetermined.
pub open spec fn told_language(l: Seq<u8>) -> Option<Seq<u8>> {
    if l == seq!['u' as u8, 'n' as u8, 'd' as u8] {
        None
    } else {
        Some(l)
    }
}

proof fn lemma_be64(s: Seq<u8>, at: int, v: u64)
    requires
        0 <= at,
        at + 8 <= s.len(),
        s.subrange(at, at + 8) == bytes::be64_bytes(v),
    ensures
        bytes::be64(s, at) == v,
{
    let high = (v / 0x1_0000_0000) as u32;
    let low = (v % 0x1_0000_0000) as u32;
    let part = s.subrange(at, at + 8);
    assert(s.subrange(at, at + 4) =~= part.subrange(0, 4));
    assert(part.subrange(0, 4) =~= bytes::be32_bytes(high));
    assert(s.subrange(at + 4, at + 4 + 4) =~= part.subrange(4, 8));
    assert(part.subrange(4, 8) =~= bytes::be32_bytes(low));
    bytes::lemma_be32_roundtrip(s, at, high);
    bytes::lemma_be32_roundtrip(s, at + 4, low);
}

pub(crate) proof fn lemma_time(s: Seq<u8>, at: int, version: u8, v: u64)
    requires
        0 <= at,
        version <= 1,
        version == 0 ==> v <= u32::MAX,
        at + 4 + 4 * version <= s.len(),
        s.subrange(at, at + 4 + 4 * version) == time_field(version, v),
    ensures
        version == 0 ==> bytes::be32(s, at) == v,
        version == 1 ==> bytes::be64(s, at) == v,
{
    if version == 0 {
        bytes::lemma_be32_roundtrip(s, at, v as u32);
    } else {
        lemma_be64(s, at, v);
    }
}

/// A track header is read back in both versions.
#[verifier::spinoff_prover]
#[verifier::rlimit(40)]
pub proof fn law_track_head_reads_back(h: TrackHead)
    requires
        can_write_head(h),
    ensures
        tracks::tkhd_info(written_head(h)) == Ok::<tracks::TkhdInfo, crate::errors::ErrorView>(
            (tracks::TkhdInfo {
                id: h.id,
                duration: h.duration,
                width: h.width / 0x1_0000,
                height: h.height / 0x1_0000,
            }),
        ),
        media::track_header(written_head(h)) == Some(
            (media::TrackHeader {
                id: h.id,
                track_enabled: h.flags[2] % 2 == 1,
                duration: h.duration,
                width: h.width / 0x1_0000,
                height: h.height / 0x1_0000,
            }),
        ),
{
    let s = written_head(h);
    let at = 12 + 8 * h.version;
    let sizes = at + 64 + 4 * h.version;
    assert(s.len() == sizes + 8);
    assert(s.subrange(at, at + 4) =~= bytes::be32_bytes(h.id));
    bytes::lemma_be32_roundtrip(s, at, h.id);
    assert(s.subrange(at + 8, at + 8 + 4 + 4 * h.version) =~= time_field(h.version, h.duration));
    lemma_time(s, at + 8, h.version, h.duration);
    assert(s.subrange(sizes, sizes + 4) =~= bytes::be32_bytes(h.width));
    bytes::lemma_be32_roundtrip(s, sizes, h.width);
    assert(s.subrange(sizes + 4, sizes + 4 + 4) =~= bytes::be32_bytes(h.height));
    bytes::lemma_be32_roundtrip(s, sizes + 4, h.height);
    assert(s[3] == h.flags[2]);
}

proof fn lemma_language(l: Seq<u8>)
    requires
        l.len() == 3,
        forall|i: int| 0 <= i < 3 ==> 0x61 <= #[trigger] l[i] <= 0x7a,
    ensures
        media::language_of(packed_language(l)) == told_language(l),
{
    let a = l[0] as int;
    let b = l[1] as int;
    let c = l[2] as int;
    let code = packed_language(l);
    assert(code == (a - 0x60) * 0x400 + (b - 0x60) * 0x20 + (c - 0x60));
    assert(code / 1024 == a - 0x60);
    assert(code / 32 == (a - 0x60) * 0x20 + (b - 0x60));
    assert(media::code_letters(code) =~= l);
    assert(seq!['u' as u8, 'n' as u8, 'd' as u8] =~= seq![0x75u8, 0x6e, 0x64]);
}

/// A media header is read back in both versions: its timescale, its duration
/// and its language.
#[verifier::spinoff_prover]
#[verifier::rlimit(40)]
pub proof fn law_media_head_reads_back(m: MediaHead)
    requires
        can_write_media(m),
    ensures
        tracks::mdhd_info(written_media(m)) == Ok::<
            media::MediaHeaderView,
            crate::errors::ErrorView,
        >(
            (media::MediaHeaderView {
                timescale: m.timescale,
                duration: m.duration,
                language: told_language(m.language),
            }),
        ),
        media::media_header(written_media(m)) == Some(
            (media::MediaHeaderView {
                timescale: m.timescale,
                duration: m.duration,
                language: told_language(m.language),
            }),
        ),
{
    let s = written_media(m);
    let at = 12 + 8 * m.version;
    let tail = at + 8 + 4 * m.version;
    assert(s.subrange(at, at + 4) =~= bytes::be32_bytes(m.timescale));
    bytes::lemma_be32_roundtrip(s, at, m.timescale);
    assert(s.subrange(at + 4, at + 4 + 4 + 4 * m.version) =~= time_field(m.version, m.duration));
    lemma_time(s, at + 4, m.version, m.duration);
    assert(s.subrange(tail, tail + 2) =~= bytes::be16_bytes(packed_language(m.language)));
    bytes::lemma_be16_roundtrip(s, tail, packed_language(m.language));
    lemma_language(m.language);
}

// --------------------
// Tracks
// --------------------

/// A track to be written: its headers, its handler and the boxes at each level.
pub struct WrittenTrack {
    pub head: TrackHead,
    pub media: MediaHead,
    /// What stands before the type of the handler.
    pub before_handler: Seq<u8>,
    pub handler: Seq<u8>,
    pub behind_handler: Seq<u8>,
    pub trak: Seq<(Seq<u8>, Seq<u8>)>,
    pub mdia: Seq<(Seq<u8>, Seq<u8>)>,
    pub minf: Seq<(Seq<u8>, Seq<u8>)>,
    pub stbl: Seq<(Seq<u8>, Seq<u8>)>,
}

/// Whether the boxes of a track hold its parts, in any order and among any
/// others.
pub open spec fn holds_track(t: WrittenTrack) -> bool {
    &&& can_write_head(t.head)
    &&& can_write_media(t.media)
    &&& t.before_handler.len() == 8
    &&& t.handler.len() == 4
    &&& laws::fits_headers(t.trak)
    &&& laws::fits_headers(t.mdia)
    &&& laws::fits_headers(t.minf)
    &&& laws::fits_headers(t.stbl)
    &&& first_holds(t.trak, four('t', 'k', 'h', 'd'), written_head(t.head))
    &&& first_holds(t.trak, four('m', 'd', 'i', 'a'), laws::laid_out(t.mdia))
    &&& first_holds(t.mdia, four('m', 'd', 'h', 'd'), written_media(t.media))
    &&& first_holds(
        t.mdia,
        four('h', 'd', 'l', 'r'),
        t.before_handler + t.handler + t.behind_handler,
    )
    &&& first_holds(t.mdia, four('m', 'i', 'n', 'f'), laws::laid_out(t.minf))
    &&& first_holds(t.minf, four('s', 't', 'b', 'l'), laws::laid_out(t.stbl))
}

/// What every listed track tells.
pub open spec fn base_in(t: tracks::TrackView) -> tracks::BaseView {
    match t {
        tracks::TrackView::Video { base, .. } => base,
        tracks::TrackView::Audio { base, .. } => base,
        tracks::TrackView::Subtitle { base } => base,
        tracks::TrackView::Unknown { base } => base,
    }
}

pub(crate) proof fn lemma_track_types()
    ensures
        Mp4Box::Trak.fourcc() == four('t', 'r', 'a', 'k'),
        Mp4Box::Tkhd.fourcc() == four('t', 'k', 'h', 'd'),
        Mp4Box::Mdia.fourcc() == four('m', 'd', 'i', 'a'),
        Mp4Box::Mdhd.fourcc() == four('m', 'd', 'h', 'd'),
        Mp4Box::Hdlr.fourcc() == four('h', 'd', 'l', 'r'),
        Mp4Box::Minf.fourcc() == four('m', 'i', 'n', 'f'),
        Mp4Box::Stbl.fourcc() == four('s', 't', 'b', 'l'),
{
    assert(Mp4Box::Trak.fourcc() =~= four('t', 'r', 'a', 'k'));
    assert(Mp4Box::Tkhd.fourcc() =~= four('t', 'k', 'h', 'd'));
    assert(Mp4Box::Mdia.fourcc() =~= four('m', 'd', 'i', 'a'));
    assert(Mp4Box::Mdhd.fourcc() =~= four('m', 'd', 'h', 'd'));
    assert(Mp4Box::Hdlr.fourcc() =~= four('h', 'd', 'l', 'r'));
    assert(Mp4Box::Minf.fourcc() =~= four('m', 'i', 'n', 'f'));
    assert(Mp4Box::Stbl.fourcc() =~= four('s', 't', 'b', 'l'));
}

pub(crate) proof fn lemma_sample_types()
    ensures
        Mp4Box::Stsd.fourcc() == four('s', 't', 's', 'd'),
        Mp4Box::Stts.fourcc() == four('s', 't', 't', 's'),
        Mp4Box::Stsz.fourcc() == four('s', 't', 's', 'z'),
        Mp4Box::Stsc.fourcc() == four('s', 't', 's', 'c'),
        Mp4Box::Stco.fourcc() == four('s', 't', 'c', 'o'),
        Mp4Box::Co64.fourcc() == four('c', 'o', '6', '4'),
        Mp4Box::Stss.fourcc() == four('s', 't', 's', 's'),
        Mp4Box::Ctts.fourcc() == four('c', 't', 't', 's'),
{
    assert(Mp4Box::Stsd.fourcc() =~= four('s', 't', 's', 'd'));
    assert(Mp4Box::Stts.fourcc() =~= four('s', 't', 't', 's'));
    assert(Mp4Box::Stsz.fourcc() =~= four('s', 't', 's', 'z'));
    assert(Mp4Box::Stsc.fourcc() =~= four('s', 't', 's', 'c'));
    assert(Mp4Box::Stco.fourcc() =~= four('s', 't', 'c', 'o'));
    assert(Mp4Box::Co64.fourcc() =~= four('c', 'o', '6', '4'));
    assert(Mp4Box::Stss.fourcc() =~= four('s', 't', 's', 's'));
    assert(Mp4Box::Ctts.fourcc() =~= four('c', 't', 't', 's'));
}

/// The parts of a track are found, each at its level.
pub(crate) proof fn lemma_track_parts(t: WrittenTrack)
    requires
        holds_track(t),
    ensures
        ({
            let trak = laws::laid_out(t.trak);
            let mdia = laws::laid_out(t.mdia);
            let minf = laws::laid_out(t.minf);
            let hdlr = t.before_handler + t.handler + t.behind_handler;
            &&& read::child(trak, Mp4Box::Tkhd.fourcc()) == Some(written_head(t.head))
            &&& read::child(trak, Mp4Box::Mdia.fourcc()) == Some(mdia)
            &&& read::child(mdia, Mp4Box::Mdhd.fourcc()) == Some(written_media(t.media))
            &&& read::child(mdia, Mp4Box::Hdlr.fourcc()) == Some(hdlr)
            &&& read::child(mdia, Mp4Box::Minf.fourcc()) == Some(minf)
            &&& read::child(minf, Mp4Box::Stbl.fourcc()) == Some(laws::laid_out(t.stbl))
            &&& media::handler_type(hdlr) == Some(t.handler)
        }),
{
    let hdlr = t.before_handler + t.handler + t.behind_handler;
    lemma_track_types();
    law_first_box_is_found(t.trak, four('t', 'k', 'h', 'd'), written_head(t.head));
    law_first_box_is_found(t.trak, four('m', 'd', 'i', 'a'), laws::laid_out(t.mdia));
    law_first_box_is_found(t.mdia, four('m', 'd', 'h', 'd'), written_media(t.media));
    law_first_box_is_found(t.mdia, four('h', 'd', 'l', 'r'), hdlr);
    law_first_box_is_found(t.mdia, four('m', 'i', 'n', 'f'), laws::laid_out(t.minf));
    law_first_box_is_found(t.minf, four('s', 't', 'b', 'l'), laws::laid_out(t.stbl));
    assert(hdlr.subrange(8, 12) =~= t.handler);
}

pub(crate) proof fn lemma_handlers()
    ensures
        Tag::Vide.code() == four('v', 'i', 'd', 'e'),
        Tag::Soun.code() == four('s', 'o', 'u', 'n'),
        Tag::Sbtl.code() == four('s', 'b', 't', 'l'),
        Tag::Subt.code() == four('s', 'u', 'b', 't'),
        Tag::Text.code() == four('t', 'e', 'x', 't'),
        Tag::Clcp.code() == four('c', 'l', 'c', 'p'),
        four('v', 'i', 'd', 'e') != four('s', 'o', 'u', 'n'),
        four('v', 'i', 'd', 'e') != four('s', 'b', 't', 'l'),
        four('v', 'i', 'd', 'e') != four('s', 'u', 'b', 't'),
        four('v', 'i', 'd', 'e') != four('t', 'e', 'x', 't'),
        four('v', 'i', 'd', 'e') != four('c', 'l', 'c', 'p'),
        four('s', 'o', 'u', 'n') != four('s', 'b', 't', 'l'),
        four('s', 'o', 'u', 'n') != four('s', 'u', 'b', 't'),
        four('s', 'o', 'u', 'n') != four('t', 'e', 'x', 't'),
        four('s', 'o', 'u', 'n') != four('c', 'l', 'c', 'p'),
{
    assert(Tag::Vide.code() =~= four('v', 'i', 'd', 'e'));
    assert(Tag::Soun.code() =~= four('s', 'o', 'u', 'n'));
    assert(Tag::Sbtl.code() =~= four('s', 'b', 't', 'l'));
    assert(Tag::Subt.code() =~= four('s', 'u', 'b', 't'));
    assert(Tag::Text.code() =~= four('t', 'e', 'x', 't'));
    assert(Tag::Clcp.code() =~= four('c', 'l', 'c', 'p'));
    assert(four('v', 'i', 'd', 'e')[1] == 0x69);
    assert(four('s', 'o', 'u', 'n')[1] == 0x6f);
    assert(four('s', 'b', 't', 'l')[1] == 0x62);
    assert(four('s', 'u', 'b', 't')[1] == 0x75);
    assert(four('t', 'e', 'x', 't')[1] == 0x65);
    assert(four('c', 'l', 'c', 'p')[1] == 0x6c);
}

/// What a listed track tells of the headers and the handler that it has.
#[verifier::spinoff_prover]
#[verifier::rlimit(40)]
pub(crate) proof fn lemma_track_from(header: tracks::TkhdInfo, mdhd: media::MediaHeaderView, mdia: Seq<u8>)
    ensures
        ({
            let found = tracks::track_from(header, mdhd, mdia);
            let handler = tracks::handler_or_blank(mdia);
            &&& base_in(found).id == header.id
            &&& base_in(found).timescale == mdhd.timescale
            &&& base_in(found).duration == mdhd.duration
            &&& base_in(found).language == (match mdhd.language {
                Some(code) => Some(text::lossy_utf8(code)),
                None => None,
            })
            &&& base_in(found).properties.len() >= 2
            &&& base_in(found).properties[0] == ("handler_type"@, text::lossy_utf8(handler))
            &&& base_in(found).properties[1] == (
                "tkhd_duration"@,
                text::decimal(header.duration as nat),
            )
            &&& found is Video <==> handler == four('v', 'i', 'd', 'e')
            &&& found is Audio <==> handler == four('s', 'o', 'u', 'n')
            &&& found is Subtitle <==> handler == four('s', 'b', 't', 'l') || handler == four(
                's',
                'u',
                'b',
                't',
            ) || handler == four('t', 'e', 'x', 't') || handler == four('c', 'l', 'c', 'p')
        }),
{
    lemma_handlers();
}

/// A written track is listed: by the number of its track header, by the
/// timescale, the duration and the language of its media header, whatever
/// duration its track header tells, and by the kind of its handler.
#[verifier::spinoff_prover]
#[verifier::rlimit(40)]
pub proof fn law_written_track_is_listed(t: WrittenTrack)
    requires
        holds_track(t),
    ensures
        tracks::track_of(laws::laid_out(t.trak)) matches Ok(found) && {
            &&& base_in(found).id == t.head.id
            &&& base_in(found).timescale == t.media.timescale
            &&& base_in(found).duration == t.media.duration
            &&& base_in(found).language == (if t.media.language == seq![
                'u' as u8,
                'n' as u8,
                'd' as u8,
            ] {
                None
            } else {
                Some(text::lossy_utf8(t.media.language))
            })
            &&& found is Video <==> t.handler == four('v', 'i', 'd', 'e')
            &&& found is Audio <==> t.handler == four('s', 'o', 'u', 'n')
            &&& found is Subtitle <==> t.handler == four('s', 'b', 't', 'l') || t.handler == four(
                's',
                'u',
                'b',
                't',
            ) || t.handler == four('t', 'e', 'x', 't') || t.handler == four('c', 'l', 'c', 'p')
            &&& base_in(found).properties.len() >= 2
            &&& base_in(found).properties[0] == ("handler_type"@, text::lossy_utf8(t.handler))
            &&& base_in(found).properties[1] == (
                "tkhd_duration"@,
                text::decimal(t.head.duration as nat),
            )
        },
{
    lemma_track_parts(t);
    law_track_head_reads_back(t.head);
    law_media_head_reads_back(t.media);
    let header = tracks::TkhdInfo {
        id: t.head.id,
        duration: t.head.duration,
        width: t.head.width / 0x1_0000,
        height: t.head.height / 0x1_0000,
    };
    let mdhd = media::MediaHeaderView {
        timescale: t.media.timescale,
        duration: t.media.duration,
        language: told_language(t.media.language),
    };
    let mdia = laws::laid_out(t.mdia);
    assert(tracks::track_of(laws::laid_out(t.trak)) == Ok::<
        tracks::TrackView,
        crate::errors::ErrorView,
    >(tracks::track_from(header, mdhd, mdia)));
    assert(tracks::handler_or_blank(mdia) == t.handler);
    lemma_track_from(header, mdhd, mdia);
}

/// A written sample description box: how many entries there are, the first one
/// and what stands behind it.
pub open spec fn written_stsd(
    start: Seq<u8>,
    count: u32,
    codec: Seq<u8>,
    entry: Seq<u8>,
    behind: Seq<u8>,
) -> Seq<u8> {
    start + bytes::be32_bytes(count) + boxes::box_bytes(codec, entry) + behind
}

pub(crate) proof fn lemma_stsd(
    stbl: Seq<(Seq<u8>, Seq<u8>)>,
    start: Seq<u8>,
    count: u32,
    codec: Seq<u8>,
    entry: Seq<u8>,
    behind: Seq<u8>,
)
    requires
        laws::fits_headers(stbl),
        start.len() == 4,
        codec.len() == 4,
        entry.len() + 8 <= u32::MAX,
        first_holds(
            stbl,
            four('s', 't', 's', 'd'),
            written_stsd(start, count, codec, entry, behind),
        ),
    ensures
        tracks::stsd_of(Some(laws::laid_out(stbl))) matches Some(s) && s.codec == text::lossy_utf8(
            codec,
        ) && s.entry_count == count && s.width == tracks::widened(tracks::half_at(entry, 24))
            && s.height == tracks::widened(tracks::half_at(entry, 26)) && s.channels
            == tracks::half_at(entry, 16) && s.sample_rate == tracks::rate_at(entry, 24),
{
    let stsd = written_stsd(start, count, codec, entry, behind);
    lemma_sample_types();
    law_first_box_is_found(stbl, four('s', 't', 's', 'd'), stsd);
    assert(stsd.subrange(4, 8) =~= bytes::be32_bytes(count));
    bytes::lemma_be32_roundtrip(stsd, 4, count);
    assert(stsd.skip(8) =~= boxes::box_bytes(codec, entry) + behind);
    read::law_written_box_is_read(codec, entry, behind);
}

/// A listed track has the type of its first sample entry as its codec. A video
/// track has the size that the entry tells; an audio track its channels and its
/// sample rate.
#[verifier::spinoff_prover]
#[verifier::rlimit(40)]
pub proof fn law_sample_entry_is_told(
    t: WrittenTrack,
    start: Seq<u8>,
    count: u32,
    codec: Seq<u8>,
    entry: Seq<u8>,
    behind: Seq<u8>,
    wide: u16,
    high: u16,
    channels: u16,
    rate: u32,
)
    requires
        holds_track(t),
        start.len() == 4,
        codec.len() == 4,
        entry.len() + 8 <= u32::MAX,
        first_holds(
            t.stbl,
            four('s', 't', 's', 'd'),
            written_stsd(start, count, codec, entry, behind),
        ),
    ensures
        tracks::track_of(laws::laid_out(t.trak)) matches Ok(found) && {
            &&& base_in(found).codec == text::lossy_utf8(codec)
            &&& found matches tracks::TrackView::Video { width, height, .. } ==> entry.len() >= 28
                && entry.subrange(24, 26) == bytes::be16_bytes(wide) && entry.subrange(26, 28)
                == bytes::be16_bytes(high) ==> width == wide && height == high
            &&& found matches tracks::TrackView::Audio { channels: c, sample_rate, .. }
                ==> entry.len() >= 28 && entry.subrange(16, 18) == bytes::be16_bytes(channels)
                && entry.subrange(24, 28) == bytes::be32_bytes(rate) ==> c == channels
                && sample_rate == rate / 0x1_0000
        },
{
    lemma_track_parts(t);
    law_track_head_reads_back(t.head);
    law_media_head_reads_back(t.media);
    lemma_stsd(t.stbl, start, count, codec, entry, behind);
    if entry.len() >= 28 {
        if entry.subrange(24, 26) == bytes::be16_bytes(wide) && entry.subrange(26, 28)
            == bytes::be16_bytes(high) {
            bytes::lemma_be16_roundtrip(entry, 24, wide);
            bytes::lemma_be16_roundtrip(entry, 26, high);
        }
        if entry.subrange(16, 18) == bytes::be16_bytes(channels) && entry.subrange(24, 28)
            == bytes::be32_bytes(rate) {
            bytes::lemma_be16_roundtrip(entry, 16, channels);
            bytes::lemma_be32_roundtrip(entry, 24, rate);
        }
    }
}

/// A track without a sample description has no known codec; a video track then
/// has the size that its header tells.
#[verifier::spinoff_prover]
#[verifier::rlimit(40)]
pub proof fn law_undescribed_track_is_listed(t: WrittenTrack)
    requires
        holds_track(t),
        has_no(t.stbl, four('s', 't', 's', 'd')),
    ensures
        tracks::track_of(laws::laid_out(t.trak)) matches Ok(found) && {
            &&& base_in(found).codec == "unknown"@
            &&& found matches tracks::TrackView::Video { width, height, .. } ==> width
                == t.head.width / 0x1_0000 && height == t.head.height / 0x1_0000
            &&& found matches tracks::TrackView::Audio { channels, sample_rate, .. } ==> channels
                == 0 && sample_rate == 0
        },
{
    lemma_track_parts(t);
    law_track_head_reads_back(t.head);
    law_media_head_reads_back(t.media);
    lemma_sample_types();
    law_first_box_is_found(t.stbl, four('s', 't', 's', 'd'), Seq::empty());
}

/// The `trak` boxes among the first ones of a list.
pub open spec fn traks_before(list: Seq<(Seq<u8>, Seq<u8>)>, n: int) -> int
    decreases n,
{
    if n <= 0 {
        0
    } else {
        traks_before(list, n - 1) + (if list[n - 1].0 == four('t', 'r', 'a', 'k') {
            1int
        } else {
            0
        })
    }
}

/// The tracks of a movie are listed in the order of their `trak` boxes, one for
/// each, and other boxes are passed over.
pub proof fn law_tracks_are_listed_in_order(list: Seq<(Seq<u8>, Seq<u8>)>, n: int, k: int)
    requires
        0 <= k < n <= list.len(),
        tracks::tracks_of(list, n) is Ok,
    ensures
        tracks::tracks_of(list, n)->Ok_0.len() == traks_before(list, n),
        list[k].0 == four('t', 'r', 'a', 'k') ==> 0 <= traks_before(list, k) < traks_before(list, n)
            && tracks::track_of(list[k].1) == Ok::<tracks::TrackView, crate::errors::ErrorView>(
            tracks::tracks_of(list, n)->Ok_0[traks_before(list, k)],
        ),
    decreases n,
{
    lemma_track_types();
    lemma_traks_count(list, n - 1);
    if k < n - 1 {
        law_tracks_are_listed_in_order(list, n - 1, k);
    }
}

proof fn lemma_traks_count(list: Seq<(Seq<u8>, Seq<u8>)>, n: int)
    requires
        0 <= n <= list.len(),
        tracks::tracks_of(list, n) is Ok,
    ensures
        tracks::tracks_of(list, n)->Ok_0.len() == traks_before(list, n),
        traks_before(list, n) >= 0,
    decreases n,
{
    lemma_track_types();
    if n > 0 {
        lemma_traks_count(list, n - 1);
    }
}

/// A movie whose tracks can all be listed is listed.
pub proof fn law_listable_tracks_are_listed(list: Seq<(Seq<u8>, Seq<u8>)>, n: int)
    requires
        0 <= n <= list.len(),
        forall|k: int|
            0 <= k < n && (#[trigger] list[k]).0 == four('t', 'r', 'a', 'k') ==> tracks::track_of(
                list[k].1,
            ) is Ok,
    ensures
        tracks::tracks_of(list, n) is Ok,
    decreases n,
{
    lemma_track_types();
    if n > 0 {
        law_listable_tracks_are_listed(list, n - 1);
        assert(list[n - 1].0 == four('t', 'r', 'a', 'k') ==> tracks::track_of(list[n - 1].1) is Ok);
    }
}

} // verus!
