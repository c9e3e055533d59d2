//! Writing MP4 segments: `ftyp`, `moov` and `mdat` headers for one video
//! track, or for a video and an audio track.

use vstd::prelude::*;
use crate::boxes;
use crate::boxes::{low32, make_box};
use crate::bytes;
use crate::bytes::{push_bytes, push_u16_be, push_u32_be, push_u64_be};
use crate::helpers::Mp4Box;
use crate::tags::Tag;

pub mod clips;
pub mod laws;
pub mod listed;
pub mod movie;
pub mod segment;

pub use self::movie::{
    build_moov_av, build_moov_av_with_offsets, build_moov_video, compute_offsets, AudioMoovParams,
    VideoMoovParams,
};
pub use self::segment::{
    build_segment_headers, coalesce_sample_reads, CoalescedRange, SampleRef, SegmentHeaders,
};

verus! {

// --------------------
// Words
// --------------------

/// The big-endian encoding of 32-bit words one after the other.
pub open spec fn words(ws: Seq<u32>) -> Seq<u8>
    decreases ws.len(),
{
    if ws.len() == 0 {
        Seq::empty()
    } else {
        words(ws.drop_last()) + bytes::be32_bytes(ws.last())
    }
}

/// Bytes that are all zero.
pub open spec fn zeros(n: nat) -> Seq<u8> {
    Seq::new(n, |i: int| 0u8)
}

/// Encoded words are four bytes each and read back one by one.
pub proof fn lemma_words(ws: Seq<u32>)
    ensures
        words(ws).len() == 4 * ws.len(),
        forall|i: int|
            0 <= i < ws.len() ==> bytes::be32(words(ws), 4 * i) == #[trigger] ws[i],
    decreases ws.len(),
{
    if ws.len() > 0 {
        let init = ws.drop_last();
        lemma_words(init);
        let n = init.len() as int;
        let all = words(ws);
        assert(all.subrange(4 * n, 4 * n + 4) =~= bytes::be32_bytes(ws.last()));
        bytes::lemma_be32_roundtrip(all, 4 * n, ws.last());
        assert forall|i: int| 0 <= i < ws.len() implies bytes::be32(all, 4 * i)
            == #[trigger] ws[i] by {
            if i < n {
                assert(init[i] == ws[i]);
                assert(bytes::be32(words(init), 4 * i) == bytes::be32(all, 4 * i));
            }
        }
    }
}

/// Appends words.
fn push_words(out: &mut Vec<u8>, ws: &[u32])
    ensures
        final(out)@ == old(out)@ + words(ws@),
{
    let mut i: usize = 0;
    assert(out@ =~= old(out)@ + words(ws@.take(0)));
    while i < ws.len()
        invariant
            i <= ws@.len(),
            out@ == old(out)@ + words(ws@.take(i as int)),
        decreases ws@.len() - i,
    {
        push_u32_be(out, ws[i]);
        assert(ws@.take(i + 1).drop_last() =~= ws@.take(i as int));
        i = i + 1;
        assert(out@ =~= old(out)@ + words(ws@.take(i as int)));
    }
    assert(ws@.take(i as int) =~= ws@);
}

/// Appends zero bytes.
fn push_zeros(out: &mut Vec<u8>, n: usize)
    ensures
        final(out)@ == old(out)@ + zeros(n as nat),
{
    let mut i: usize = 0;
    assert(out@ =~= old(out)@ + zeros(0));
    while i < n
        invariant
            i <= n,
            out@ == old(out)@ + zeros(i as nat),
        decreases n - i,
    {
        out.push(0);
        i = i + 1;
        assert(out@ =~= old(out)@ + zeros(i as nat));
    }
}

/// A box over words.
fn words_box(fourcc: &[u8; 4], ws: &[u32]) -> (r: Vec<u8>)
    ensures
        r@ == boxes::box_bytes(fourcc@, words(ws@)),
{
    let mut p: Vec<u8> = Vec::new();
    push_words(&mut p, ws);
    assert(p@ =~= words(ws@));
    make_box(fourcc, p.as_slice())
}

/// Writes nested boxes into a single buffer.
pub struct HierBoxWriter {
    buf: Vec<u8>,
}

impl View for HierBoxWriter {
    type V = Seq<u8>;

    closed spec fn view(&self) -> Seq<u8> {
        self.buf@
    }
}

impl HierBoxWriter {
    /// An empty writer.
    pub fn new() -> (r: Self)
        ensures
            r@ == Seq::<u8>::empty(),
    {
        HierBoxWriter { buf: Vec::new() }
    }

    /// Appends bytes.
    pub fn bytes(&mut self, b: &[u8])
        ensures
            final(self)@ == old(self)@ + b@,
    {
        push_bytes(&mut self.buf, b);
    }

    /// Starts a box: writes a placeholder size and the type, and returns the start offset.
    pub fn start_box(&mut self, fourcc: &[u8; 4]) -> (start: usize)
        ensures
            start == old(self)@.len(),
            final(self)@ == old(self)@ + zeros(4) + fourcc@,
    {
        let start: usize = self.buf.len();
        push_zeros(&mut self.buf, 4);
        let t: &[u8] = fourcc;
        push_bytes(&mut self.buf, t);
        start
    }

    /// Finalizes a box started at `start`, patching its size.
    pub fn end_box(&mut self, start: usize)
        requires
            start + 8 <= old(self)@.len(),
        ensures
            final(self)@ == old(self)@.take(start as int) + bytes::be32_bytes(
                boxes::wrap32((old(self)@.len() - start) as nat),
            ) + old(self)@.skip(start + 4),
    {
        let size: u32 = low32(self.buf.len() - start);
        self.buf.set(start, (size / 0x100_0000) as u8);
        self.buf.set(start + 1, (size / 0x1_0000 % 0x100) as u8);
        self.buf.set(start + 2, (size / 0x100 % 0x100) as u8);
        self.buf.set(start + 3, (size % 0x100) as u8);
        assert(self@ =~= old(self)@.take(start as int) + bytes::be32_bytes(size)
            + old(self)@.skip(start + 4));
    }

    /// The bytes written.
    pub fn into_vec(self) -> (r: Vec<u8>)
        ensures
            r@ == self@,
    {
        self.buf
    }
}

/// A box that is started, filled and ended holds what was written in between.
pub proof fn law_nested_box(before: Seq<u8>, fourcc: Seq<u8>, payload: Seq<u8>)
    requires
        fourcc.len() == 4,
    ensures
        ({
            let open = before + zeros(4) + fourcc + payload;
            open.take(before.len() as int) + bytes::be32_bytes(
                boxes::wrap32((open.len() - before.len()) as nat),
            ) + open.skip(before.len() as int + 4)
        }) == before + boxes::box_bytes(fourcc, payload),
{
    let open = before + zeros(4) + fourcc + payload;
    assert(open.take(before.len() as int) + bytes::be32_bytes(
        boxes::wrap32((open.len() - before.len()) as nat),
    ) + open.skip(before.len() as int + 4) =~= before + boxes::box_bytes(fourcc, payload));
}

// --------------------
// Boxes
// --------------------

/// The `ftyp` of a segment: brand `isom`, minor version 0x200, and the compatible brands.
pub open spec fn ftyp_bytes() -> Seq<u8> {
    boxes::box_bytes(
        Tag::Ftyp.code(),
        Tag::Isom.code() + bytes::be32_bytes(0x200) + Tag::Isom.code() + Tag::Iso2.code()
            + Tag::Mp41.code() + Tag::Mp42.code() + Tag::Avc1.code(),
    )
}

/// The length of the `ftyp` of a segment.
pub proof fn lemma_ftyp_len()
    ensures
        ftyp_bytes().len() == 36,
{
}

/// Builds the `ftyp` box of a segment.
pub fn build_ftyp_isom() -> (r: Vec<u8>)
    ensures
        r@ == ftyp_bytes(),
        r@.len() == 36,
{
    let mut p: Vec<u8> = Vec::new();
    push_bytes(&mut p, &Tag::Isom.bytes());
    push_u32_be(&mut p, 0x200);
    push_bytes(&mut p, &Tag::Isom.bytes());
    push_bytes(&mut p, &Tag::Iso2.bytes());
    push_bytes(&mut p, &Tag::Mp41.bytes());
    push_bytes(&mut p, &Tag::Mp42.bytes());
    push_bytes(&mut p, &Tag::Avc1.bytes());
    let ghost want = Tag::Isom.code() + bytes::be32_bytes(0x200) + Tag::Isom.code()
        + Tag::Iso2.code() + Tag::Mp41.code() + Tag::Mp42.code() + Tag::Avc1.code();
    assert(p@ =~= want);
    make_box(&Tag::Ftyp.bytes(), p.as_slice())
}

/// The letter at place `i` of a language code, that of `und` where there is none.
pub open spec fn language_letter(lang: Seq<u8>, i: int) -> int {
    if i < lang.len() && 0x61 <= lang[i] <= 0x7a {
        lang[i] as int
    } else if i == 0 {
        0x75
    } else if i == 1 {
        0x6e
    } else {
        0x64
    }
}

/// The first three letters of a language code packed in five bits each.
pub open spec fn language_bits(lang: Seq<u8>) -> u16 {
    ((language_letter(lang, 0) - 0x60) * 1024 + (language_letter(lang, 1) - 0x60) * 32 + (
    language_letter(lang, 2) - 0x60)) as u16
}

fn letter_at(lang: &[u8], i: usize, default: u8) -> (r: u16)
    requires
        i < 3,
        default == (if i == 0 {
            0x75u8
        } else if i == 1 {
            0x6e
        } else {
            0x64
        }),
    ensures
        r == language_letter(lang@, i as int) - 0x60,
        r <= 26,
{
    if i < lang.len() && 0x61 <= lang[i] && lang[i] <= 0x7a {
        (lang[i] - 0x60) as u16
    } else {
        (default - 0x60) as u16
    }
}

/// Packs a language code for an `mdhd`.
pub fn language_to_mdhd_bits(lang: &str) -> (r: u16)
    ensures
        r == language_bits(vstd::utf8::encode_utf8(lang@)),
{
    let b: &[u8] = lang.as_bytes();
    letter_at(b, 0, 0x75) * 1024 + letter_at(b, 1, 0x6e) * 32 + letter_at(b, 2, 0x64)
}

/// The words of a unity transformation matrix.
pub open spec fn unity_matrix() -> Seq<u32> {
    seq![0x1_0000, 0, 0, 0, 0x1_0000, 0, 0, 0, 0x4000_0000]
}

/// The words of an `mvhd`. The next track ID is never zero.
pub open spec fn mvhd_words(timescale: u32, duration: u64, next_track_id: u32) -> Seq<u32> {
    seq![0, 0, 0, timescale, boxes::wrap32(duration as nat), 0x1_0000, 0, 0, 0] + unity_matrix()
        + seq![0, 0, 0, 0, 0, 0, if next_track_id == 0 { 1 } else { next_track_id }]
}

fn low32_of(v: u64) -> (r: u32)
    ensures
        r == boxes::wrap32(v as nat),
{
    (v % 0x1_0000_0000) as u32
}

fn build_mvhd(timescale: u32, duration: u64, next_track_id: u32) -> (r: Vec<u8>)
    ensures
        r@ == boxes::box_bytes(
            Mp4Box::Mvhd.fourcc(),
            words(mvhd_words(timescale, duration, next_track_id)),
        ),
{
    let d: u32 = low32_of(duration);
    let next: u32 = if next_track_id == 0 {
        1
    } else {
        next_track_id
    };
    let ws: [u32; 25] = [
        0,
        0,
        0,
        timescale,
        d,
        0x1_0000,
        0,
        0,
        0,
        0x1_0000,
        0,
        0,
        0,
        0x1_0000,
        0,
        0,
        0,
        0x4000_0000,
        0,
        0,
        0,
        0,
        0,
        0,
        next,
    ];
    assert(ws@ =~= mvhd_words(timescale, duration, next_track_id));
    words_box(&Mp4Box::Mvhd.bytes(), &ws)
}

/// The words of a `tkhd`: enabled, in movie and in preview. `volume` is 8.8
/// fixed point; width and height are stored in 16.16 fixed point.
pub open spec fn tkhd_words(
    track_id: u32,
    duration: u64,
    volume: u16,
    width: u16,
    height: u16,
) -> Seq<u32> {
    seq![
        7,
        0,
        0,
        track_id,
        0,
        boxes::wrap32(duration as nat),
        0,
        0,
        0,
        (volume * 0x1_0000) as u32,
    ] + unity_matrix() + seq![(width * 0x1_0000) as u32, (height * 0x1_0000) as u32]
}

fn build_tkhd(track_id: u32, duration: u64, volume: u16, width: u16, height: u16) -> (r: Vec<u8>)
    ensures
        r@ == boxes::box_bytes(
            Mp4Box::Tkhd.fourcc(),
            words(tkhd_words(track_id, duration, volume, width, height)),
        ),
{
    let ws: [u32; 21] = [
        7,
        0,
        0,
        track_id,
        0,
        low32_of(duration),
        0,
        0,
        0,
        (volume as u32) * 0x1_0000,
        0x1_0000,
        0,
        0,
        0,
        0x1_0000,
        0,
        0,
        0,
        0x4000_0000,
        (width as u32) * 0x1_0000,
        (height as u32) * 0x1_0000,
    ];
    assert(ws@ =~= tkhd_words(track_id, duration, volume, width, height));
    words_box(&Mp4Box::Tkhd.bytes(), &ws)
}

/// The payload of an `mdhd`.
pub open spec fn mdhd_payload(timescale: u32, duration: u64, lang: Seq<char>) -> Seq<u8> {
    words(seq![0, 0, 0, timescale, boxes::wrap32(duration as nat)]) + bytes::be16_bytes(
        language_bits(vstd::utf8::encode_utf8(lang)),
    ) + bytes::be16_bytes(0)
}

fn build_mdhd(timescale: u32, duration: u64, lang: &str) -> (r: Vec<u8>)
    ensures
        r@ == boxes::box_bytes(Mp4Box::Mdhd.fourcc(), mdhd_payload(timescale, duration, lang@)),
{
    let ws: [u32; 5] = [0, 0, 0, timescale, low32_of(duration)];
    assert(ws@ =~= seq![0, 0, 0, timescale, boxes::wrap32(duration as nat)]);
    let mut p: Vec<u8> = Vec::new();
    push_words(&mut p, &ws);
    assert(p@ =~= words(ws@));
    push_u16_be(&mut p, language_to_mdhd_bits(lang));
    push_u16_be(&mut p, 0);
    make_box(&Mp4Box::Mdhd.bytes(), p.as_slice())
}

/// The zero-terminated handler name of a video track.
pub open spec fn video_handler_name() -> Seq<u8> {
    seq![
        0x56,
        0x69,
        0x64,
        0x65,
        0x6f,
        0x48,
        0x61,
        0x6e,
        0x64,
        0x6c,
        0x65,
        0x72,
        0x00,
    ]
}

/// The zero-terminated handler name of an audio track.
pub open spec fn sound_handler_name() -> Seq<u8> {
    seq![
        0x53,
        0x6f,
        0x75,
        0x6e,
        0x64,
        0x48,
        0x61,
        0x6e,
        0x64,
        0x6c,
        0x65,
        0x72,
        0x00,
    ]
}

/// The payload of an `hdlr`.
pub open spec fn hdlr_payload(handler: Tag, name: Seq<u8>) -> Seq<u8> {
    words(seq![0, 0]) + handler.code() + words(seq![0, 0, 0]) + name
}

fn build_hdlr(handler: Tag, name: &[u8]) -> (r: Vec<u8>)
    ensures
        r@ == boxes::box_bytes(Mp4Box::Hdlr.fourcc(), hdlr_payload(handler, name@)),
{
    let head: [u32; 2] = [0, 0];
    let reserved: [u32; 3] = [0, 0, 0];
    assert(head@ =~= seq![0, 0]);
    assert(reserved@ =~= seq![0, 0, 0]);
    let mut p: Vec<u8> = Vec::new();
    push_words(&mut p, &head);
    assert(p@ =~= words(head@));
    push_bytes(&mut p, &handler.bytes());
    push_words(&mut p, &reserved);
    push_bytes(&mut p, name);
    make_box(&Mp4Box::Hdlr.bytes(), p.as_slice())
}

fn build_hdlr_vide() -> (r: Vec<u8>)
    ensures
        r@ == boxes::box_bytes(
            Mp4Box::Hdlr.fourcc(),
            hdlr_payload(Tag::Vide, video_handler_name()),
        ),
{
    let name: [u8; 13] = [
        0x56,
        0x69,
        0x64,
        0x65,
        0x6f,
        0x48,
        0x61,
        0x6e,
        0x64,
        0x6c,
        0x65,
        0x72,
        0x00,
    ];
    assert(name@ =~= video_handler_name());
    build_hdlr(Tag::Vide, &name)
}

fn build_hdlr_soun() -> (r: Vec<u8>)
    ensures
        r@ == boxes::box_bytes(
            Mp4Box::Hdlr.fourcc(),
            hdlr_payload(Tag::Soun, sound_handler_name()),
        ),
{
    let name: [u8; 13] = [
        0x53,
        0x6f,
        0x75,
        0x6e,
        0x64,
        0x48,
        0x61,
        0x6e,
        0x64,
        0x6c,
        0x65,
        0x72,
        0x00,
    ];
    assert(name@ =~= sound_handler_name());
    build_hdlr(Tag::Soun, &name)
}

/// The two members of each pair in turn.
pub open spec fn flat_pairs(pairs: Seq<(u32, u32)>) -> Seq<u32> {
    Seq::new(
        2 * pairs.len(),
        |k: int|
            if k % 2 == 0 {
                pairs[k / 2].0
            } else {
                pairs[k / 2].1
            },
    )
}

/// The words of an `stts`.
pub open spec fn stts_words(pairs: Seq<(u32, u32)>) -> Seq<u32> {
    seq![0, boxes::wrap32(pairs.len())] + flat_pairs(pairs)
}

fn build_stts(pairs: &[(u32, u32)]) -> (r: Vec<u8>)
    ensures
        r@ == boxes::box_bytes(Mp4Box::Stts.fourcc(), words(stts_words(pairs@))),
{
    let mut ws: Vec<u32> = Vec::new();
    ws.push(0);
    ws.push(low32(pairs.len()));
    let mut i: usize = 0;
    while i < pairs.len()
        invariant
            i <= pairs@.len(),
            ws@ == stts_words(pairs@).take(2 + 2 * i),
        decreases pairs@.len() - i,
    {
        ws.push(pairs[i].0);
        ws.push(pairs[i].1);
        i = i + 1;
        assert(ws@ =~= stts_words(pairs@).take(2 + 2 * i));
    }
    assert(ws@ =~= stts_words(pairs@));
    words_box(&Mp4Box::Stts.bytes(), ws.as_slice())
}

/// The words of an `stsz` with one size per sample.
pub open spec fn stsz_words(sizes: Seq<u32>) -> Seq<u32> {
    seq![0, 0, boxes::wrap32(sizes.len())] + sizes
}

fn build_stsz(sizes: &[u32]) -> (r: Vec<u8>)
    ensures
        r@ == boxes::box_bytes(Mp4Box::Stsz.fourcc(), words(stsz_words(sizes@))),
{
    let mut ws: Vec<u32> = Vec::new();
    ws.push(0);
    ws.push(0);
    ws.push(low32(sizes.len()));
    ws.extend_from_slice(sizes);
    assert(ws@ =~= stsz_words(sizes@));
    words_box(&Mp4Box::Stsz.bytes(), ws.as_slice())
}

/// The words of an `stsc` with one sample per chunk.
pub open spec fn stsc_words() -> Seq<u32> {
    seq![0, 1, 1, 1, 1]
}

fn build_stsc_one_sample_per_chunk() -> (r: Vec<u8>)
    ensures
        r@ == boxes::box_bytes(Mp4Box::Stsc.fourcc(), words(stsc_words())),
{
    let ws: [u32; 5] = [0, 1, 1, 1, 1];
    assert(ws@ =~= stsc_words());
    words_box(&Mp4Box::Stsc.bytes(), &ws)
}

/// Whether every offset fits 32 bits.
pub open spec fn fits32(offsets: Seq<u64>) -> bool {
    forall|i: int| 0 <= i < offsets.len() ==> #[trigger] offsets[i] <= u32::MAX
}

/// The words of an `stco`.
pub open spec fn stco_words(offsets: Seq<u64>) -> Seq<u32> {
    seq![0, boxes::wrap32(offsets.len())] + Seq::new(offsets.len(), |i: int| offsets[i] as u32)
}

/// The words of a `co64`: each offset as its high and its low half.
pub open spec fn co64_words(offsets: Seq<u64>) -> Seq<u32> {
    seq![0, boxes::wrap32(offsets.len())] + Seq::new(
        2 * offsets.len(),
        |k: int|
            if k % 2 == 0 {
                (offsets[k / 2] / 0x1_0000_0000) as u32
            } else {
                (offsets[k / 2] % 0x1_0000_0000) as u32
            },
    )
}

/// The chunk offset box: `stco` where every offset fits 32 bits, `co64` otherwise.
pub open spec fn offsets_box(offsets: Seq<u64>) -> Seq<u8> {
    if fits32(offsets) {
        boxes::box_bytes(Mp4Box::Stco.fourcc(), words(stco_words(offsets)))
    } else {
        boxes::box_bytes(Mp4Box::Co64.fourcc(), words(co64_words(offsets)))
    }
}

fn build_chunk_offsets_box(offsets: &[u64]) -> (r: Vec<u8>)
    ensures
        r@ == offsets_box(offsets@),
{
    let mut narrow: bool = true;
    let mut i: usize = 0;
    while i < offsets.len()
        invariant
            i <= offsets@.len(),
            narrow == (forall|j: int| 0 <= j < i ==> #[trigger] offsets@[j] <= u32::MAX),
        decreases offsets@.len() - i,
    {
        if offsets[i] > u32::MAX as u64 {
            narrow = false;
        }
        i = i + 1;
    }
    let mut ws: Vec<u32> = Vec::new();
    ws.push(0);
    ws.push(low32(offsets.len()));
    i = 0;
    if narrow {
        while i < offsets.len()
            invariant
                i <= offsets@.len(),
                fits32(offsets@),
                ws@ == stco_words(offsets@).take(2 + i),
            decreases offsets@.len() - i,
        {
            ws.push(offsets[i] as u32);
            i = i + 1;
            assert(ws@ =~= stco_words(offsets@).take(2 + i));
        }
        assert(ws@ =~= stco_words(offsets@));
        words_box(&Mp4Box::Stco.bytes(), ws.as_slice())
    } else {
        while i < offsets.len()
            invariant
                i <= offsets@.len(),
                ws@ == co64_words(offsets@).take(2 + 2 * i),
            decreases offsets@.len() - i,
        {
            ws.push((offsets[i] / 0x1_0000_0000) as u32);
            ws.push((offsets[i] % 0x1_0000_0000) as u32);
            i = i + 1;
            assert(ws@ =~= co64_words(offsets@).take(2 + 2 * i));
        }
        assert(ws@ =~= co64_words(offsets@));
        words_box(&Mp4Box::Co64.bytes(), ws.as_slice())
    }
}

/// The words of an `stss`.
pub open spec fn stss_words(entries: Seq<u32>) -> Seq<u32> {
    seq![0, boxes::wrap32(entries.len())] + entries
}

fn build_stss(entries_1based: &[u32]) -> (r: Vec<u8>)
    ensures
        r@ == boxes::box_bytes(Mp4Box::Stss.fourcc(), words(stss_words(entries_1based@))),
{
    let mut ws: Vec<u32> = Vec::new();
    ws.push(0);
    ws.push(low32(entries_1based.len()));
    ws.extend_from_slice(entries_1based);
    assert(ws@ =~= stss_words(entries_1based@));
    words_box(&Mp4Box::Stss.bytes(), ws.as_slice())
}

/// The fixed fields of a visual sample entry: the data reference, the size,
/// 72 dpi both ways, one frame per sample, an empty compressor name, 24 bits.
pub open spec fn visual_entry_base(width: u16, height: u16) -> Seq<u8> {
    zeros(6) + bytes::be16_bytes(1) + zeros(16) + bytes::be16_bytes(width) + bytes::be16_bytes(
        height,
    ) + words(seq![0x48_0000, 0x48_0000, 0]) + bytes::be16_bytes(1) + zeros(32)
        + bytes::be16_bytes(0x18) + bytes::be16_bytes(0xffff)
}

fn build_visual_sample_entry_base(width: u16, height: u16) -> (r: Vec<u8>)
    ensures
        r@ == visual_entry_base(width, height),
{
    let resolution: [u32; 3] = [0x48_0000, 0x48_0000, 0];
    assert(resolution@ =~= seq![0x48_0000, 0x48_0000, 0]);
    let mut p: Vec<u8> = Vec::new();
    push_zeros(&mut p, 6);
    assert(p@ =~= zeros(6));
    push_u16_be(&mut p, 1);
    push_zeros(&mut p, 16);
    push_u16_be(&mut p, width);
    push_u16_be(&mut p, height);
    push_words(&mut p, &resolution);
    push_u16_be(&mut p, 1);
    push_zeros(&mut p, 32);
    push_u16_be(&mut p, 0x18);
    push_u16_be(&mut p, 0xffff);
    p
}

/// An `avc1` sample entry.
pub open spec fn avc1_entry(width: u16, height: u16, avcc: Seq<u8>) -> Seq<u8> {
    boxes::box_bytes(
        Tag::Avc1.code(),
        visual_entry_base(width, height) + boxes::box_bytes(Tag::AvcC.code(), avcc),
    )
}

fn build_avc1_sample_entry(width: u16, height: u16, avcc_payload: &[u8]) -> (r: Vec<u8>)
    ensures
        r@ == avc1_entry(width, height, avcc_payload@),
{
    let mut p: Vec<u8> = build_visual_sample_entry_base(width, height);
    let avcc: Vec<u8> = make_box(&Tag::AvcC.bytes(), avcc_payload);
    push_bytes(&mut p, avcc.as_slice());
    make_box(&Tag::Avc1.bytes(), p.as_slice())
}

/// An `stsd` with one entry.
pub open spec fn stsd_box(entry: Seq<u8>) -> Seq<u8> {
    boxes::box_bytes(Mp4Box::Stsd.fourcc(), words(seq![0, 1]) + entry)
}

fn build_stsd(entry: &[u8]) -> (r: Vec<u8>)
    ensures
        r@ == stsd_box(entry@),
{
    let head: [u32; 2] = [0, 1];
    assert(head@ =~= seq![0, 1]);
    let mut p: Vec<u8> = Vec::new();
    push_words(&mut p, &head);
    assert(p@ =~= words(head@));
    push_bytes(&mut p, entry);
    make_box(&Mp4Box::Stsd.bytes(), p.as_slice())
}

fn build_stsd_avc1(width: u16, height: u16, avcc_payload: &[u8]) -> (r: Vec<u8>)
    ensures
        r@ == stsd_box(avc1_entry(width, height, avcc_payload@)),
{
    let entry: Vec<u8> = build_avc1_sample_entry(width, height, avcc_payload);
    build_stsd(entry.as_slice())
}

/// The fixed fields of an audio sample entry: the data reference, the channel
/// count, 16 bits per sample, and the low 16 bits of the sample rate in 16.16
/// fixed point.
pub open spec fn audio_entry_base(channels: u16, sample_rate: u32) -> Seq<u8> {
    zeros(6) + bytes::be16_bytes(1) + zeros(8) + bytes::be16_bytes(channels) + bytes::be16_bytes(
        16,
    ) + zeros(4) + bytes::be32_bytes((sample_rate % 0x1_0000 * 0x1_0000) as u32)
}

/// An `mp4a` sample entry.
pub open spec fn mp4a_entry(channels: u16, sample_rate: u32, esds: Seq<u8>) -> Seq<u8> {
    boxes::box_bytes(
        Tag::Mp4a.code(),
        audio_entry_base(channels, sample_rate) + boxes::box_bytes(Tag::Esds.code(), esds),
    )
}

fn build_mp4a_sample_entry(channels: u16, sample_rate: u32, esds_payload: &[u8]) -> (r: Vec<u8>)
    ensures
        r@ == mp4a_entry(channels, sample_rate, esds_payload@),
{
    let mut p: Vec<u8> = Vec::new();
    push_zeros(&mut p, 6);
    assert(p@ =~= zeros(6));
    push_u16_be(&mut p, 1);
    push_zeros(&mut p, 8);
    push_u16_be(&mut p, channels);
    push_u16_be(&mut p, 16);
    push_zeros(&mut p, 4);
    push_u32_be(&mut p, sample_rate % 0x1_0000 * 0x1_0000);
    let esds: Vec<u8> = make_box(&Tag::Esds.bytes(), esds_payload);
    push_bytes(&mut p, esds.as_slice());
    make_box(&Tag::Mp4a.bytes(), p.as_slice())
}

fn build_stsd_mp4a(channels: u16, sample_rate: u32, esds_payload: &[u8]) -> (r: Vec<u8>)
    ensures
        r@ == stsd_box(mp4a_entry(channels, sample_rate, esds_payload@)),
{
    let entry: Vec<u8> = build_mp4a_sample_entry(channels, sample_rate, esds_payload);
    build_stsd(entry.as_slice())
}

/// An integer as a 32-bit two's complement word.
pub open spec fn word_of(v: i32) -> u32 {
    if v >= 0 {
        v as u32
    } else {
        (v + 0x1_0000_0000) as u32
    }
}

fn to_word(v: i32) -> (r: u32)
    ensures
        r == word_of(v),
{
    if v >= 0 {
        v as u32
    } else {
        0xffff_ffff - ((-(v + 1)) as u32)
    }
}

/// Whether a composition offset is negative somewhere.
pub open spec fn has_negative(pairs: Seq<(u32, i32)>) -> bool {
    exists|i: int| 0 <= i < pairs.len() && (#[trigger] pairs[i]).1 < 0
}

/// The words of a `ctts`: version 1 where an offset is negative, else version 0.
pub open spec fn ctts_words(pairs: Seq<(u32, i32)>) -> Seq<u32> {
    seq![
        if has_negative(pairs) {
            0x100_0000
        } else {
            0
        },
        boxes::wrap32(pairs.len()),
    ] + Seq::new(
        2 * pairs.len(),
        |k: int|
            if k % 2 == 0 {
                pairs[k / 2].0
            } else {
                word_of(pairs[k / 2].1)
            },
    )
}

fn build_ctts(pairs: &[(u32, i32)]) -> (r: Vec<u8>)
    ensures
        r@ == boxes::box_bytes(Mp4Box::Ctts.fourcc(), words(ctts_words(pairs@))),
{
    let mut negative: bool = false;
    let mut i: usize = 0;
    while i < pairs.len()
        invariant
            i <= pairs@.len(),
            negative == (exists|j: int| 0 <= j < i && (#[trigger] pairs@[j]).1 < 0),
        decreases pairs@.len() - i,
    {
        if pairs[i].1 < 0 {
            assert(pairs@[i as int].1 < 0);
            negative = true;
        }
        i = i + 1;
    }
    let version: u32 = if negative {
        0x100_0000
    } else {
        0
    };
    let mut ws: Vec<u32> = Vec::new();
    ws.push(version);
    ws.push(low32(pairs.len()));
    i = 0;
    while i < pairs.len()
        invariant
            i <= pairs@.len(),
            ws@ == ctts_words(pairs@).take(2 + 2 * i),
        decreases pairs@.len() - i,
    {
        ws.push(pairs[i].0);
        ws.push(to_word(pairs[i].1));
        i = i + 1;
        assert(ws@ =~= ctts_words(pairs@).take(2 + 2 * i));
    }
    assert(ws@ =~= ctts_words(pairs@));
    words_box(&Mp4Box::Ctts.bytes(), ws.as_slice())
}

/// A box that may be absent.
pub open spec fn optional_box(fourcc: Seq<u8>, ws: Option<Seq<u32>>) -> Seq<u8> {
    match ws {
        Some(w) => boxes::box_bytes(fourcc, words(w)),
        None => Seq::empty(),
    }
}

/// The words of the `ctts`, where there are composition offsets.
pub open spec fn ctts_part(ctts: Option<Seq<(u32, i32)>>) -> Option<Seq<u32>> {
    match ctts {
        Some(pairs) => Some(ctts_words(pairs)),
        None => None,
    }
}

/// The words of the `stss`, where there are sync samples.
pub open spec fn stss_part(sync: Option<Seq<u32>>) -> Option<Seq<u32>> {
    match sync {
        Some(entries) => if entries.len() == 0 {
            None
        } else {
            Some(stss_words(entries))
        },
        None => None,
    }
}

/// The contents of a sample table.
pub open spec fn stbl_payload(
    stsd: Seq<u8>,
    sizes: Seq<u32>,
    stts: Seq<(u32, u32)>,
    ctts: Option<Seq<(u32, i32)>>,
    sync: Option<Seq<u32>>,
    offsets: Seq<u64>,
) -> Seq<u8> {
    stsd + boxes::box_bytes(Mp4Box::Stts.fourcc(), words(stts_words(stts))) + optional_box(
        Mp4Box::Ctts.fourcc(),
        ctts_part(ctts),
    ) + boxes::box_bytes(Mp4Box::Stsz.fourcc(), words(stsz_words(sizes))) + boxes::box_bytes(
        Mp4Box::Stsc.fourcc(),
        words(stsc_words()),
    ) + offsets_box(offsets) + optional_box(Mp4Box::Stss.fourcc(), stss_part(sync))
}

/// What an optional slice holds.
pub open spec fn opt_slice<T>(s: Option<&[T]>) -> Option<Seq<T>> {
    match s {
        Some(v) => Some(v@),
        None => None,
    }
}

/// Builds a sample table around a given `stsd`.
fn build_stbl_custom(
    stsd_box: &[u8],
    sizes: &[u32],
    stts_pairs: &[(u32, u32)],
    ctts_pairs: Option<&[(u32, i32)]>,
    sync_1based: Option<&[u32]>,
    offsets: &[u64],
) -> (r: Vec<u8>)
    ensures
        r@ == boxes::box_bytes(
            Mp4Box::Stbl.fourcc(),
            stbl_payload(
                stsd_box@,
                sizes@,
                stts_pairs@,
                opt_slice(ctts_pairs),
                opt_slice(sync_1based),
                offsets@,
            ),
        ),
{
    let mut w: HierBoxWriter = HierBoxWriter::new();
    let stbl: [u8; 4] = Mp4Box::Stbl.bytes();
    let start: usize = w.start_box(&stbl);
    w.bytes(stsd_box);
    let stts: Vec<u8> = build_stts(stts_pairs);
    w.bytes(stts.as_slice());
    match ctts_pairs {
        Some(pairs) => {
            let ctts: Vec<u8> = build_ctts(pairs);
            w.bytes(ctts.as_slice());
        },
        None => {},
    }
    let stsz: Vec<u8> = build_stsz(sizes);
    w.bytes(stsz.as_slice());
    let stsc: Vec<u8> = build_stsc_one_sample_per_chunk();
    w.bytes(stsc.as_slice());
    let offs: Vec<u8> = build_chunk_offsets_box(offsets);
    w.bytes(offs.as_slice());
    match sync_1based {
        Some(entries) => if entries.len() > 0 {
            let stss: Vec<u8> = build_stss(entries);
            w.bytes(stss.as_slice());
        },
        None => {},
    }
    let ghost payload = stbl_payload(
        stsd_box@,
        sizes@,
        stts_pairs@,
        opt_slice(ctts_pairs),
        opt_slice(sync_1based),
        offsets@,
    );
    proof {
        let none = Seq::<u8>::empty();
        assert(w@ =~= none + zeros(4) + stbl@ + payload);
        law_nested_box(none, stbl@, payload);
        assert(none + boxes::box_bytes(stbl@, payload) =~= boxes::box_bytes(stbl@, payload));
    }
    w.end_box(start);
    w.into_vec()
}

/// Builds the sample table of an H.264 track.
fn build_stbl(
    sizes: &[u32],
    stts_pairs: &[(u32, u32)],
    ctts_pairs: Option<&[(u32, i32)]>,
    sync_1based: Option<&[u32]>,
    offsets: &[u64],
    width: u16,
    height: u16,
    avcc_payload: &[u8],
) -> (r: Vec<u8>)
    ensures
        r@ == boxes::box_bytes(
            Mp4Box::Stbl.fourcc(),
            stbl_payload(
                stsd_box(avc1_entry(width, height, avcc_payload@)),
                sizes@,
                stts_pairs@,
                opt_slice(ctts_pairs),
                opt_slice(sync_1based),
                offsets@,
            ),
        ),
{
    let stsd: Vec<u8> = build_stsd_avc1(width, height, avcc_payload);
    build_stbl_custom(stsd.as_slice(), sizes, stts_pairs, ctts_pairs, sync_1based, offsets)
}

/// A video media header.
pub open spec fn vmhd_box() -> Seq<u8> {
    boxes::box_bytes(Tag::Vmhd.code(), words(seq![1, 0, 0]))
}

/// A sound media header.
pub open spec fn smhd_box() -> Seq<u8> {
    boxes::box_bytes(Tag::Smhd.code(), words(seq![0, 0]))
}

/// A data reference to the file itself.
pub open spec fn dinf_box() -> Seq<u8> {
    boxes::box_bytes(
        Tag::Dinf.code(),
        boxes::box_bytes(
            Tag::Dref.code(),
            words(seq![0, 1]) + boxes::box_bytes(Tag::Url.code(), words(seq![1])),
        ),
    )
}

fn build_vmhd() -> (r: Vec<u8>)
    ensures
        r@ == vmhd_box(),
{
    let ws: [u32; 3] = [1, 0, 0];
    assert(ws@ =~= seq![1, 0, 0]);
    words_box(&Tag::Vmhd.bytes(), &ws)
}

fn build_smhd() -> (r: Vec<u8>)
    ensures
        r@ == smhd_box(),
{
    let ws: [u32; 2] = [0, 0];
    assert(ws@ =~= seq![0, 0]);
    words_box(&Tag::Smhd.bytes(), &ws)
}

fn build_dinf_dref() -> (r: Vec<u8>)
    ensures
        r@ == dinf_box(),
{
    let flags: [u32; 1] = [1];
    let head: [u32; 2] = [0, 1];
    assert(flags@ =~= seq![1]);
    assert(head@ =~= seq![0, 1]);
    let url: Vec<u8> = words_box(&Tag::Url.bytes(), &flags);
    let mut p: Vec<u8> = Vec::new();
    push_words(&mut p, &head);
    assert(p@ =~= words(head@));
    push_bytes(&mut p, url.as_slice());
    let dref: Vec<u8> = make_box(&Tag::Dref.bytes(), p.as_slice());
    make_box(&Tag::Dinf.bytes(), dref.as_slice())
}

/// The media of a track: its `mdhd`, its `hdlr` and its `minf`.
pub open spec fn mdia_payload(mdhd: Seq<u8>, hdlr: Seq<u8>, media_header: Seq<u8>, stbl: Seq<u8>) -> Seq<
    u8,
> {
    boxes::box_bytes(Mp4Box::Mdhd.fourcc(), mdhd) + boxes::box_bytes(Mp4Box::Hdlr.fourcc(), hdlr)
        + boxes::box_bytes(Mp4Box::Minf.fourcc(), media_header + dinf_box() + stbl)
}

fn build_mdia_of(mdhd: &[u8], hdlr: &[u8], media_header: &[u8], stbl: &[u8]) -> (r: Vec<u8>)
    ensures
        r@ == boxes::box_bytes(
            Mp4Box::Mdia.fourcc(),
            mdhd@ + hdlr@ + boxes::box_bytes(
                Mp4Box::Minf.fourcc(),
                media_header@ + dinf_box() + stbl@,
            ),
        ),
{
    let mut minf: Vec<u8> = Vec::new();
    push_bytes(&mut minf, media_header);
    assert(minf@ =~= media_header@);
    let dinf: Vec<u8> = build_dinf_dref();
    push_bytes(&mut minf, dinf.as_slice());
    push_bytes(&mut minf, stbl);
    let minf_box: Vec<u8> = make_box(&Mp4Box::Minf.bytes(), minf.as_slice());
    let mut content: Vec<u8> = Vec::new();
    push_bytes(&mut content, mdhd);
    assert(content@ =~= mdhd@);
    push_bytes(&mut content, hdlr);
    push_bytes(&mut content, minf_box.as_slice());
    make_box(&Mp4Box::Mdia.bytes(), content.as_slice())
}

/// Builds the `mdia` of a video track.
fn build_mdia(timescale: u32, duration: u64, lang: &str, stbl: &[u8]) -> (r: Vec<u8>)
    ensures
        r@ == boxes::box_bytes(
            Mp4Box::Mdia.fourcc(),
            mdia_payload(
                mdhd_payload(timescale, duration, lang@),
                hdlr_payload(Tag::Vide, video_handler_name()),
                vmhd_box(),
                stbl@,
            ),
        ),
{
    let mdhd: Vec<u8> = build_mdhd(timescale, duration, lang);
    let hdlr: Vec<u8> = build_hdlr_vide();
    let vmhd: Vec<u8> = build_vmhd();
    build_mdia_of(mdhd.as_slice(), hdlr.as_slice(), vmhd.as_slice(), stbl)
}

/// Builds the `mdia` of an audio track.
fn build_mdia_soun(timescale: u32, duration: u64, lang: &str, stbl: &[u8]) -> (r: Vec<u8>)
    ensures
        r@ == boxes::box_bytes(
            Mp4Box::Mdia.fourcc(),
            mdia_payload(
                mdhd_payload(timescale, duration, lang@),
                hdlr_payload(Tag::Soun, sound_handler_name()),
                smhd_box(),
                stbl@,
            ),
        ),
{
    let mdhd: Vec<u8> = build_mdhd(timescale, duration, lang);
    let hdlr: Vec<u8> = build_hdlr_soun();
    let smhd: Vec<u8> = build_smhd();
    build_mdia_of(mdhd.as_slice(), hdlr.as_slice(), smhd.as_slice(), stbl)
}

// --------------------
// Edit List (edts/elst)
// --------------------

/// One edit: its length in the movie and where it starts in the media.
#[derive(Debug, Clone, Copy)]
pub struct EditListEntry {
    pub segment_duration: u64,
    pub media_time: i64,
}

/// Whether an edit needs 64-bit fields.
pub open spec fn is_wide_edit(e: EditListEntry) -> bool {
    e.segment_duration > u32::MAX || e.media_time > i32::MAX || e.media_time < i32::MIN
}

/// Whether an edit list needs 64-bit fields.
pub open spec fn is_wide_list(entries: Seq<EditListEntry>) -> bool {
    exists|i: int| 0 <= i < entries.len() && is_wide_edit(#[trigger] entries[i])
}

/// An integer as a 64-bit two's complement number.
pub open spec fn number_of(v: i64) -> u64 {
    if v >= 0 {
        v as u64
    } else {
        (v + 0x1_0000_0000_0000_0000) as u64
    }
}

fn to_number(v: i64) -> (r: u64)
    ensures
        r == number_of(v),
{
    if v >= 0 {
        v as u64
    } else {
        0xffff_ffff_ffff_ffff - ((-(v + 1)) as u64)
    }
}

/// The bytes of one edit at rate 1.0.
pub open spec fn edit_bytes(e: EditListEntry, wide: bool) -> Seq<u8> {
    if wide {
        bytes::be64_bytes(e.segment_duration) + bytes::be64_bytes(number_of(e.media_time))
            + bytes::be32_bytes(0x1_0000)
    } else {
        bytes::be32_bytes(e.segment_duration as u32) + bytes::be32_bytes(
            word_of(e.media_time as i32),
        ) + bytes::be32_bytes(0x1_0000)
    }
}

/// The bytes of edits one after the other.
pub open spec fn edits_bytes(entries: Seq<EditListEntry>, wide: bool) -> Seq<u8>
    decreases entries.len(),
{
    if entries.len() == 0 {
        Seq::empty()
    } else {
        edits_bytes(entries.drop_last(), wide) + edit_bytes(entries.last(), wide)
    }
}

/// An `edts` with its `elst`: version 1 where an edit needs 64-bit fields.
pub open spec fn edts_box(entries: Seq<EditListEntry>) -> Seq<u8> {
    boxes::box_bytes(
        Tag::Edts.code(),
        boxes::box_bytes(
            Tag::Elst.code(),
            words(
                seq![
                    if is_wide_list(entries) {
                        0x100_0000
                    } else {
                        0
                    },
                    boxes::wrap32(entries.len()),
                ],
            ) + edits_bytes(entries, is_wide_list(entries)),
        ),
    )
}

fn build_elst(entries: &[EditListEntry]) -> (r: Vec<u8>)
    ensures
        boxes::box_bytes(Tag::Edts.code(), r@) == edts_box(entries@),
{
    let mut wide: bool = false;
    let mut i: usize = 0;
    while i < entries.len()
        invariant
            i <= entries@.len(),
            wide == (exists|j: int| 0 <= j < i && is_wide_edit(#[trigger] entries@[j])),
        decreases entries@.len() - i,
    {
        let e: EditListEntry = entries[i];
        if e.segment_duration > u32::MAX as u64 || e.media_time > i32::MAX as i64 || e.media_time
            < i32::MIN as i64 {
            assert(is_wide_edit(entries@[i as int]));
            wide = true;
        }
        i = i + 1;
    }
    assert(wide == is_wide_list(entries@));
    let version: u32 = if wide {
        0x100_0000
    } else {
        0
    };
    let head: [u32; 2] = [version, low32(entries.len())];
    let ghost head_words = seq![
        if is_wide_list(entries@) {
            0x100_0000u32
        } else {
            0
        },
        boxes::wrap32(entries@.len()),
    ];
    assert(head@ =~= head_words);
    let mut p: Vec<u8> = Vec::new();
    push_words(&mut p, &head);
    assert(p@ =~= words(head_words) + edits_bytes(entries@.take(0), wide));
    i = 0;
    while i < entries.len()
        invariant
            i <= entries@.len(),
            wide == is_wide_list(entries@),
            p@ == words(head_words) + edits_bytes(entries@.take(i as int), wide),
        decreases entries@.len() - i,
    {
        let e: EditListEntry = entries[i];
        if wide {
            push_u64_be(&mut p, e.segment_duration);
            push_u64_be(&mut p, to_number(e.media_time));
        } else {
            assert(!is_wide_edit(entries@[i as int]));
            push_u32_be(&mut p, e.segment_duration as u32);
            push_u32_be(&mut p, to_word(e.media_time as i32));
        }
        push_u32_be(&mut p, 0x1_0000);
        assert(entries@.take(i + 1).drop_last() =~= entries@.take(i as int));
        i = i + 1;
        assert(p@ =~= words(head_words) + edits_bytes(entries@.take(i as int), wide));
    }
    assert(entries@.take(i as int) =~= entries@);
    make_box(&Tag::Elst.bytes(), p.as_slice())
}

fn build_edts_with_elst(entries: &[EditListEntry]) -> (r: Vec<u8>)
    ensures
        r@ == edts_box(entries@),
{
    let elst: Vec<u8> = build_elst(entries);
    make_box(&Tag::Edts.bytes(), elst.as_slice())
}

/// The `edts` of a track, where it has edits.
pub open spec fn edts_part(edits: Option<Seq<EditListEntry>>) -> Seq<u8> {
    match edits {
        Some(entries) => edts_box(entries),
        None => Seq::empty(),
    }
}

/// A track: its `tkhd`, its edits and its media.
pub open spec fn trak_payload(
    tkhd: Seq<u32>,
    edits: Option<Seq<EditListEntry>>,
    mdia: Seq<u8>,
) -> Seq<u8> {
    boxes::box_bytes(Mp4Box::Tkhd.fourcc(), words(tkhd)) + edts_part(edits) + boxes::box_bytes(
        Mp4Box::Mdia.fourcc(),
        mdia,
    )
}

fn build_trak_of(tkhd: &[u8], mdia: &[u8], edits: Option<&[EditListEntry]>) -> (r: Vec<u8>)
    ensures
        r@ == boxes::box_bytes(
            Mp4Box::Trak.fourcc(),
            tkhd@ + edts_part(opt_slice(edits)) + mdia@,
        ),
{
    let mut content: Vec<u8> = Vec::new();
    push_bytes(&mut content, tkhd);
    match edits {
        Some(entries) => {
            let edts: Vec<u8> = build_edts_with_elst(entries);
            push_bytes(&mut content, edts.as_slice());
        },
        None => {},
    }
    push_bytes(&mut content, mdia);
    assert(content@ =~= tkhd@ + edts_part(opt_slice(edits)) + mdia@);
    make_box(&Mp4Box::Trak.bytes(), content.as_slice())
}

/// Builds the `trak` of a video track.
fn build_trak(
    track_id: u32,
    duration: u64,
    mdia: &[u8],
    width: u16,
    height: u16,
    edits: Option<&[EditListEntry]>,
) -> (r: Vec<u8>)
    ensures
        r@ == boxes::box_bytes(
            Mp4Box::Trak.fourcc(),
            boxes::box_bytes(
                Mp4Box::Tkhd.fourcc(),
                words(tkhd_words(track_id, duration, 0, width, height)),
            ) + edts_part(opt_slice(edits)) + mdia@,
        ),
{
    let tkhd: Vec<u8> = build_tkhd(track_id, duration, 0, width, height);
    build_trak_of(tkhd.as_slice(), mdia, edits)
}

/// Builds the `trak` of an audio track, at full volume.
fn build_trak_audio(
    track_id: u32,
    duration: u64,
    mdia: &[u8],
    edits: Option<&[EditListEntry]>,
) -> (r: Vec<u8>)
    ensures
        r@ == boxes::box_bytes(
            Mp4Box::Trak.fourcc(),
            boxes::box_bytes(
                Mp4Box::Tkhd.fourcc(),
                words(tkhd_words(track_id, duration, 0x100, 0, 0)),
            ) + edts_part(opt_slice(edits)) + mdia@,
        ),
{
    let tkhd: Vec<u8> = build_tkhd(track_id, duration, 0x100, 0, 0);
    build_trak_of(tkhd.as_slice(), mdia, edits)
}

} // verus!
