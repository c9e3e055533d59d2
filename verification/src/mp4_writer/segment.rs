//! Segment headers and the source reads of a segment.

use vstd::prelude::*;
use super::movie::{build_moov_video, VideoMoovParams};
use super::{build_ftyp_isom};
use crate::boxes;
use crate::bytes;
use crate::bytes::{push_bytes, push_u32_be, push_u64_be};
use crate::helpers::timing;
use crate::mp4_writer;
use crate::mp4_writer::movie;
use crate::tags::Tag;

verus! {

/// Where the payload of the `mdat` starts, behind a `moov` that was built for
/// a payload at `base`: the `ftyp`, the `moov` and the `mdat` header come first.
/// `around` is the length of the first and the last of them.
pub open spec fn base_behind(v: movie::VideoView, around: int, base: u64) -> u64 {
    timing::wrap64(around + moov_len(v, base))
}

/// The length of the `moov` of a video track.
#[verifier::opaque]
pub open spec fn moov_len(v: movie::VideoView, base: u64) -> int {
    movie::moov_video(v, base).len() as int
}

/// The length of the `moov` of a video track, see `moov_len`.
pub proof fn lemma_moov_len_is(v: movie::VideoView, base: u64)
    ensures
        moov_len(v, base) == movie::moov_video(v, base).len(),
{
    reveal(moov_len);
}

/// Where the payload of the `mdat` of a segment starts. The length of the
/// `moov` depends on the base only through the width of the chunk offsets, so
/// building twice settles it.
pub open spec fn segment_base(v: movie::VideoView, ftyp_len: int, header_len: int) -> u64 {
    base_behind(v, ftyp_len + header_len, base_behind(v, ftyp_len + header_len, 0))
}

/// The description of a track with another payload offset.
fn with_base<'a>(meta: &VideoMoovParams<'a>, base: u64) -> (r: VideoMoovParams<'a>)
    ensures
        r@ == meta@,
        r.track_timescale == meta.track_timescale,
        r.mdat_base_offset == base,
{
    VideoMoovParams {
        movie_timescale: meta.movie_timescale,
        track_timescale: meta.track_timescale,
        stts_pairs: meta.stts_pairs,
        ctts_pairs: meta.ctts_pairs,
        sample_sizes: meta.sample_sizes,
        sync_samples_1based: meta.sync_samples_1based,
        track_id: meta.track_id,
        width: meta.width,
        height: meta.height,
        language: meta.language,
        mdat_base_offset: base,
        avcc_payload: meta.avcc_payload,
        edit_list: meta.edit_list,
    }
}

fn base_after(ftyp_len: usize, moov_len: usize, header_len: usize) -> (r: u64)
    ensures
        r == timing::wrap64(ftyp_len + header_len + moov_len),
{
    let sum: u128 = ftyp_len as u128 + header_len as u128 + moov_len as u128;
    (sum % 0x1_0000_0000_0000_0000) as u64
}

/// Finalize the `moov` box with a correct payload offset, given the sizes of
/// the preceding `ftyp` box and of the `mdat` header that follows. Returns the
/// finalized `moov` bytes and that offset.
pub fn finalize_moov(meta: &VideoMoovParams, ftyp_len: usize, header_len: usize) -> (r: (
    Vec<u8>,
    u64,
))
    requires
        meta.track_timescale != 0 || meta@.movie_timescale == 0,
    ensures
        r.1 == segment_base(meta@, ftyp_len as int, header_len as int),
        r.0@ == movie::moov_video(meta@, r.1),
{
    proof {
        reveal(moov_len);
    }
    let draft: Vec<u8> = build_moov_video(&with_base(meta, 0));
    let base: u64 = base_after(ftyp_len, draft.len(), header_len);
    let moov: Vec<u8> = build_moov_video(&with_base(meta, base));
    let base2: u64 = base_after(ftyp_len, moov.len(), header_len);
    if base2 != base {
        let moov2: Vec<u8> = build_moov_video(&with_base(meta, base2));
        (moov2, base2)
    } else {
        (moov, base)
    }
}

proof fn lemma_size_sum_grows(sizes: Seq<u32>, i: int, n: int)
    requires
        0 <= i <= n,
    ensures
        timing::size_sum(sizes, 0, i) <= timing::size_sum(sizes, 0, n),
    decreases n - i,
{
    if i < n {
        lemma_size_sum_grows(sizes, i, n - 1);
    }
}

/// Offsets that fit 32 bits from a later base fit from an earlier one.
proof fn lemma_fits_from_earlier(sizes: Seq<u32>, early: u64, late: u64)
    requires
        early <= late,
        late + timing::size_sum(sizes, 0, sizes.len() as int) <= u64::MAX,
        mp4_writer::fits32(movie::sample_offsets(late, sizes)),
    ensures
        mp4_writer::fits32(movie::sample_offsets(early, sizes)),
{
    let a = movie::sample_offsets(early, sizes);
    let b = movie::sample_offsets(late, sizes);
    assert forall|i: int| 0 <= i < a.len() implies #[trigger] a[i] <= u32::MAX by {
        lemma_size_sum_grows(sizes, i, sizes.len() as int);
        assert(b[i] <= u32::MAX);
    }
}

proof fn lemma_stbl_len(
    stsd: Seq<u8>,
    sizes: Seq<u32>,
    stts: Seq<(u32, u32)>,
    ctts: Option<Seq<(u32, i32)>>,
    sync: Option<Seq<u32>>,
    a: Seq<u64>,
    b: Seq<u64>,
)
    ensures
        mp4_writer::stbl_payload(stsd, sizes, stts, ctts, sync, a).len()
            - mp4_writer::offsets_box(a).len() == mp4_writer::stbl_payload(
            stsd,
            sizes,
            stts,
            ctts,
            sync,
            b,
        ).len() - mp4_writer::offsets_box(b).len(),
        mp4_writer::stbl_payload(stsd, sizes, stts, ctts, sync, a).len()
            >= mp4_writer::offsets_box(a).len(),
{
}

proof fn lemma_mdia_len(mdhd: Seq<u8>, hdlr: Seq<u8>, media_header: Seq<u8>, a: Seq<u8>, b: Seq<u8>)
    ensures
        mp4_writer::mdia_payload(mdhd, hdlr, media_header, a).len() - a.len()
            == mp4_writer::mdia_payload(mdhd, hdlr, media_header, b).len() - b.len(),
        mp4_writer::mdia_payload(mdhd, hdlr, media_header, a).len() >= a.len(),
{
}

proof fn lemma_trak_len(
    tkhd: Seq<u32>,
    edits: Option<Seq<mp4_writer::EditListEntry>>,
    a: Seq<u8>,
    b: Seq<u8>,
)
    ensures
        mp4_writer::trak_payload(tkhd, edits, a).len() - a.len() == mp4_writer::trak_payload(
            tkhd,
            edits,
            b,
        ).len() - b.len(),
        mp4_writer::trak_payload(tkhd, edits, a).len() >= a.len(),
{
}

proof fn lemma_box_len(fourcc: Seq<u8>, payload: Seq<u8>)
    ensures
        boxes::box_bytes(fourcc, payload).len() == 4 + fourcc.len() + payload.len(),
{
}

/// The length of a `moov` depends on the payload offset only through the chunk offset box.
#[verifier::spinoff_prover]
proof fn lemma_moov_len(v: movie::VideoView, a: u64, b: u64)
    ensures
        moov_len(v, a) - mp4_writer::offsets_box(movie::sample_offsets(a, v.sizes)).len()
            == moov_len(v, b) - mp4_writer::offsets_box(movie::sample_offsets(b, v.sizes)).len(),
        moov_len(v, a) >= mp4_writer::offsets_box(movie::sample_offsets(a, v.sizes)).len(),
{
    reveal(moov_len);
    let stsd = mp4_writer::stsd_box(mp4_writer::avc1_entry(v.width, v.height, v.avcc));
    let oa = movie::sample_offsets(a, v.sizes);
    let ob = movie::sample_offsets(b, v.sizes);
    let pa = mp4_writer::stbl_payload(stsd, v.sizes, v.stts, v.ctts, v.sync, oa);
    let pb = mp4_writer::stbl_payload(stsd, v.sizes, v.stts, v.ctts, v.sync, ob);
    lemma_stbl_len(stsd, v.sizes, v.stts, v.ctts, v.sync, oa, ob);
    let stbl = crate::helpers::Mp4Box::Stbl.fourcc();
    let sa = boxes::box_bytes(stbl, pa);
    let sb = boxes::box_bytes(stbl, pb);
    lemma_box_len(stbl, pa);
    lemma_box_len(stbl, pb);
    let mdhd = mp4_writer::mdhd_payload(
        v.track_timescale,
        movie::track_duration(v.stts),
        v.language,
    );
    let hdlr = mp4_writer::hdlr_payload(Tag::Vide, mp4_writer::video_handler_name());
    let vmhd = mp4_writer::vmhd_box();
    let ma = mp4_writer::mdia_payload(mdhd, hdlr, vmhd, sa);
    let mb = mp4_writer::mdia_payload(mdhd, hdlr, vmhd, sb);
    lemma_mdia_len(mdhd, hdlr, vmhd, sa, sb);
    let tkhd = mp4_writer::tkhd_words(
        v.track_id,
        movie::video_duration(v),
        0,
        v.width,
        v.height,
    );
    let ta = mp4_writer::trak_payload(tkhd, v.edits, ma);
    let tb = mp4_writer::trak_payload(tkhd, v.edits, mb);
    lemma_trak_len(tkhd, v.edits, ma, mb);
    assert(ta == movie::video_trak(v, movie::video_duration(v), v.sync, oa));
    assert(tb == movie::video_trak(v, movie::video_duration(v), v.sync, ob));
    let trak = crate::helpers::Mp4Box::Trak.fourcc();
    let moov = crate::helpers::Mp4Box::Moov.fourcc();
    let mvhd = movie::mvhd_box(v.movie_timescale, movie::video_duration(v), v.track_id);
    lemma_box_len(trak, ta);
    lemma_box_len(trak, tb);
    lemma_box_len(moov, mvhd + boxes::box_bytes(trak, ta));
    lemma_box_len(moov, mvhd + boxes::box_bytes(trak, tb));
}

proof fn lemma_offsets_len(offsets: Seq<u64>)
    ensures
        mp4_writer::offsets_box(offsets).len() == 16 + (if mp4_writer::fits32(offsets) {
            4 * offsets.len()
        } else {
            8 * offsets.len()
        }),
{
    mp4_writer::lemma_words(mp4_writer::stco_words(offsets));
    mp4_writer::lemma_words(mp4_writer::co64_words(offsets));
}

/// Whether the chunk offsets of a track fit 32 bits.
#[verifier::opaque]
spec fn is_narrow(v: movie::VideoView, base: u64) -> bool {
    mp4_writer::fits32(movie::sample_offsets(base, v.sizes))
}

proof fn lemma_moov_width(v: movie::VideoView, a: u64, b: u64)
    ensures
        moov_len(v, b) - moov_len(v, a) == (if is_narrow(v, a) == is_narrow(v, b) {
            0int
        } else if is_narrow(v, a) {
            4 * v.sizes.len() as int
        } else {
            -4 * v.sizes.len() as int
        }),
        moov_len(v, a) >= 4 * v.sizes.len(),
{
    reveal(is_narrow);
    lemma_moov_len(v, a, b);
    lemma_offsets_len(movie::sample_offsets(a, v.sizes));
    lemma_offsets_len(movie::sample_offsets(b, v.sizes));
}

proof fn lemma_size_sum_bound(sizes: Seq<u32>, n: int)
    requires
        0 <= n <= sizes.len(),
    ensures
        0 <= timing::size_sum(sizes, 0, n) <= n * 0xffff_ffff,
    decreases n,
{
    if n > 0 {
        lemma_size_sum_bound(sizes, n - 1);
    }
}

/// A segment whose `moov` has a size of 32 bits has a payload offset that is
/// where its headers end, and sample offsets that fit 64 bits.
pub proof fn lemma_segment_base(v: movie::VideoView, ftyp_len: int, header_len: int)
    requires
        0 <= ftyp_len <= 0xffff_ffff,
        0 <= header_len <= 0xffff_ffff,
        moov_len(v, segment_base(v, ftyp_len, header_len)) <= u32::MAX,
    ensures
        ({
            let base = segment_base(v, ftyp_len, header_len);
            &&& base == ftyp_len + moov_len(v, base) + header_len
            &&& forall|i: int|
                0 <= i < v.sizes.len() ==> #[trigger] movie::sample_offsets(base, v.sizes)[i] == base
                    + timing::size_sum(v.sizes, 0, i)
        }),
{
    let base = segment_base(v, ftyp_len, header_len);
    let n = v.sizes.len() as int;
    lemma_moov_width(v, base, 0);
    lemma_size_sum_bound(v.sizes, n);
    assert(n * 0xffff_ffff <= 0x4000_0000 * 0xffff_ffff) by (nonlinear_arith)
        requires
            0 <= n <= 0x4000_0000,
    ;
    law_segment_base_is_settled(v, ftyp_len, header_len);
    assert forall|i: int| 0 <= i < v.sizes.len() implies #[trigger] movie::sample_offsets(
        base,
        v.sizes,
    )[i] == base + timing::size_sum(v.sizes, 0, i) by {
        lemma_size_sum_bound(v.sizes, i);
        lemma_size_sum_grows(v.sizes, i, n);
    }
}

/// The payload offset of a segment is where the finished `ftyp` and `moov` and
/// the `mdat` header end. (Segments whose offsets do not fit 64 bits are left out.)
pub proof fn law_segment_base_is_settled(v: movie::VideoView, ftyp_len: int, header_len: int)
    requires
        0 <= ftyp_len,
        0 <= header_len,
        ftyp_len + header_len + moov_len(v, 0) + 4 * v.sizes.len() + timing::size_sum(
            v.sizes,
            0,
            v.sizes.len() as int,
        ) <= u64::MAX,
    ensures
        ({
            let base = segment_base(v, ftyp_len, header_len);
            base == ftyp_len + moov_len(v, base) + header_len
        }),
{
    let b1 = base_behind(v, ftyp_len + header_len, 0);
    let b2 = base_behind(v, ftyp_len + header_len, b1);
    let total = timing::size_sum(v.sizes, 0, v.sizes.len() as int);
    lemma_moov_width(v, 0, b1);
    lemma_moov_width(v, b1, b2);
    if is_narrow(v, b1) {
        assert(b1 + total <= u64::MAX);
        assert(is_narrow(v, 0)) by {
            reveal(is_narrow);
            lemma_fits_from_earlier(v.sizes, 0, b1);
        }
        assert(b2 == b1);
    } else {
        assert(b1 <= b2);
        assert(b2 + total <= u64::MAX);
        assert(!is_narrow(v, b2)) by {
            reveal(is_narrow);
            if mp4_writer::fits32(movie::sample_offsets(b2, v.sizes)) {
                lemma_fits_from_earlier(v.sizes, b1, b2);
            }
        }
    }
}

/// The header of an `mdat` with `n` bytes of payload: with a 32-bit size
/// where the box fits, with a 64-bit size otherwise. The size counts the header.
pub open spec fn mdat_header(n: int) -> Seq<u8> {
    if 8 + n <= u32::MAX {
        bytes::be32_bytes((8 + n) as u32) + Tag::Mdat.code()
    } else {
        bytes::be32_bytes(1) + Tag::Mdat.code() + bytes::be64_bytes((16 + n) as u64)
    }
}

/// The size that a box header states: 32 bits, or 64 bits behind the type where
/// those hold one.
pub open spec fn stated_size(header: Seq<u8>) -> int {
    if bytes::be32(header, 0) == 1 {
        bytes::be64(header, 8) as int
    } else {
        bytes::be32(header, 0) as int
    }
}

/// An `mdat` header states its own length and that of the payload.
pub proof fn law_mdat_header_spans_the_payload(n: int)
    requires
        0 <= n <= u64::MAX - 16,
    ensures
        stated_size(mdat_header(n)) == mdat_header(n).len() + n,
{
    let header = mdat_header(n);
    if 8 + n <= u32::MAX {
        assert(header.subrange(0, 4) =~= bytes::be32_bytes((8 + n) as u32));
        bytes::lemma_be32_roundtrip(header, 0, (8 + n) as u32);
    } else {
        let size = (16 + n) as u64;
        let high = (size / 0x1_0000_0000) as u32;
        let low = (size % 0x1_0000_0000) as u32;
        assert(header.subrange(0, 4) =~= bytes::be32_bytes(1));
        assert(header.subrange(8, 12) =~= bytes::be32_bytes(high));
        assert(header.subrange(12, 16) =~= bytes::be32_bytes(low));
        bytes::lemma_be32_roundtrip(header, 0, 1);
        bytes::lemma_be32_roundtrip(header, 8, high);
        bytes::lemma_be32_roundtrip(header, 12, low);
    }
}

/// Build an `mdat` header for a given payload size (not including the header).
pub fn build_mdat_header(total_payload_size: u64) -> (r: Vec<u8>)
    requires
        total_payload_size <= u64::MAX - 16,
    ensures
        r@ == mdat_header(total_payload_size as int),
{
    let total: u64 = 8 + total_payload_size;
    let mut hdr: Vec<u8> = Vec::new();
    if total <= u32::MAX as u64 {
        push_u32_be(&mut hdr, total as u32);
        push_bytes(&mut hdr, &Tag::Mdat.bytes());
    } else {
        push_u32_be(&mut hdr, 1);
        push_bytes(&mut hdr, &Tag::Mdat.bytes());
        push_u64_be(&mut hdr, total + 8);
    }
    assert(hdr@ =~= mdat_header(total_payload_size as int));
    hdr
}

/// Precomputed segment headers for a single-track MP4 segment.
pub struct SegmentHeaders {
    pub ftyp: Vec<u8>,
    pub moov: Vec<u8>,
    pub mdat_header: Vec<u8>,
    pub mdat_base: u64,
}

/// Build `ftyp`, `moov` (final) and `mdat` header for a segment based on `meta`
/// and the total payload size (sum of sample sizes).
pub fn build_segment_headers(meta: &VideoMoovParams, total_payload_size: u64) -> (r: SegmentHeaders)
    requires
        meta.track_timescale != 0 || meta@.movie_timescale == 0,
        total_payload_size <= u64::MAX - 16,
    ensures
        r.ftyp@ == mp4_writer::ftyp_bytes(),
        r.mdat_base == segment_base(meta@, 36, mdat_header(total_payload_size as int).len() as int),
        r.moov@ == movie::moov_video(meta@, r.mdat_base),
        r.mdat_header@ == mdat_header(total_payload_size as int),
{
    let ftyp: Vec<u8> = build_ftyp_isom();
    let mdat_header: Vec<u8> = build_mdat_header(total_payload_size);
    let (moov, mdat_base): (Vec<u8>, u64) = finalize_moov(meta, ftyp.len(), mdat_header.len());
    SegmentHeaders { ftyp, moov, mdat_header, mdat_base }
}

// --------------------
// Source reads
// --------------------

/// Where a sample is read from.
#[derive(Debug, Clone, Copy)]
pub struct SampleRef {
    pub src_offset: u64,
    pub size: u32,
}

/// A range of the source that holds several samples.
#[derive(Debug, Clone, PartialEq, Eq)]
pub struct CoalescedRange {
    pub start: u64,
    pub len: usize,
    /// parts: (offset in the range, size)
    pub parts: Vec<(usize, usize)>,
}

/// What a range of the source holds.
pub struct RangeView {
    pub start: int,
    pub len: int,
    pub parts: Seq<(usize, usize)>,
}

impl View for CoalescedRange {
    type V = RangeView;

    open spec fn view(&self) -> RangeView {
        RangeView { start: self.start as int, len: self.len as int, parts: self.parts@ }
    }
}

/// The range of a single sample.
pub open spec fn single_range(s: SampleRef) -> RangeView {
    RangeView {
        start: s.src_offset as int,
        len: s.size as int,
        parts: seq![(0usize, s.size as usize)],
    }
}

/// Where a sample ends.
pub open spec fn ref_end(s: SampleRef) -> int {
    s.src_offset + s.size
}

/// Whether a sample joins the range before it: it starts inside the range or
/// at most `gap` bytes behind it, and the longer range can still be addressed.
pub open spec fn joins(g: RangeView, s: SampleRef, gap: int) -> bool {
    &&& g.start <= s.src_offset <= g.start + g.len + gap
    &&& ref_end(s) - g.start <= usize::MAX
}

/// A range grown by a sample that joins it.
pub open spec fn grown(g: RangeView, s: SampleRef) -> RangeView {
    RangeView {
        start: g.start,
        len: if ref_end(s) > g.start + g.len {
            ref_end(s) - g.start
        } else {
            g.len
        },
        parts: g.parts.push(((s.src_offset - g.start) as usize, s.size as usize)),
    }
}

/// The ranges that samples are read in: each sample joins the range of the
/// sample before it where it can, and starts a range otherwise.
pub open spec fn coalesced(samples: Seq<SampleRef>, gap: int) -> Seq<RangeView>
    decreases samples.len(),
{
    if samples.len() == 0 {
        Seq::empty()
    } else {
        let before = coalesced(samples.drop_last(), gap);
        let s = samples.last();
        if before.len() > 0 && joins(before.last(), s, gap) {
            before.drop_last().push(grown(before.last(), s))
        } else {
            before.push(single_range(s))
        }
    }
}

/// What ranges hold.
pub open spec fn ranges_view(ranges: Seq<CoalescedRange>) -> Seq<RangeView> {
    Seq::new(ranges.len(), |i: int| ranges[i]@)
}

fn range_of(s: &SampleRef) -> (r: CoalescedRange)
    ensures
        r@ == single_range(*s),
{
    let mut parts: Vec<(usize, usize)> = Vec::new();
    parts.push((0, s.size as usize));
    assert(parts@ =~= seq![(0usize, s.size as usize)]);
    CoalescedRange { start: s.src_offset, len: s.size as usize, parts }
}

/// Group contiguous or near-contiguous samples into read ranges.
/// `max_gap` controls the tolerated hole between samples included in a group.
pub fn coalesce_sample_reads(samples: &[SampleRef], max_gap: u64) -> (r: Vec<CoalescedRange>)
    requires
        forall|i: int| 0 <= i < samples@.len() ==> ref_end(#[trigger] samples@[i]) <= u64::MAX,
    ensures
        ranges_view(r@) == coalesced(samples@, max_gap as int),
{
    let mut out: Vec<CoalescedRange> = Vec::new();
    if samples.len() == 0 {
        assert(ranges_view(out@) =~= coalesced(samples@, max_gap as int));
        return out;
    }
    let mut cur: CoalescedRange = range_of(&samples[0]);
    let mut i: usize = 1;
    proof {
        assert(samples@.take(1).drop_last() =~= Seq::<SampleRef>::empty());
        assert(coalesced(Seq::<SampleRef>::empty(), max_gap as int) =~= Seq::empty());
        assert(ranges_view(out@).push(cur@) =~= coalesced(samples@.take(1), max_gap as int));
    }
    while i < samples.len()
        invariant
            1 <= i <= samples@.len(),
            forall|j: int| 0 <= j < samples@.len() ==> ref_end(#[trigger] samples@[j]) <= u64::MAX,
            cur@.start + cur@.len <= u64::MAX,
            ranges_view(out@).push(cur@) == coalesced(samples@.take(i as int), max_gap as int),
        decreases samples@.len() - i,
    {
        let s: SampleRef = samples[i];
        let ghost before = coalesced(samples@.take(i as int), max_gap as int);
        proof {
            assert(ref_end(samples@[i as int]) <= u64::MAX);
            assert(samples@.take(i + 1).drop_last() =~= samples@.take(i as int));
            assert(before.last() == cur@);
            assert(before.drop_last() =~= ranges_view(out@));
        }
        let s_end: u64 = s.src_offset + s.size as u64;
        let cur_end: u64 = cur.start + cur.len as u64;
        let near: bool = s.src_offset >= cur.start && s.src_offset <= cur_end.saturating_add(max_gap)
            && (s_end - cur.start) <= usize::MAX as u64;
        if near {
            let part: usize = (s.src_offset - cur.start) as usize;
            let ghost old_parts = cur.parts@;
            cur.parts.push((part, s.size as usize));
            if s_end > cur_end {
                cur.len = (s_end - cur.start) as usize;
            }
            assert(cur@ == grown(before.last(), s));
            assert(ranges_view(out@).push(cur@) =~= coalesced(
                samples@.take(i + 1),
                max_gap as int,
            ));
        } else {
            let next: CoalescedRange = range_of(&s);
            out.push(cur);
            cur = next;
            assert(ranges_view(out@) =~= before);
            assert(ranges_view(out@).push(cur@) =~= coalesced(
                samples@.take(i + 1),
                max_gap as int,
            ));
        }
        i = i + 1;
    }
    out.push(cur);
    proof {
        assert(samples@.take(i as int) =~= samples@);
        assert(ranges_view(out@) =~= coalesced(samples@, max_gap as int));
    }
    out
}

/// The samples that the parts of a range name.
pub open spec fn range_reads(g: RangeView) -> Seq<(int, int)> {
    Seq::new(g.parts.len(), |i: int| (g.start + g.parts[i].0, g.parts[i].1 as int))
}

/// The samples that ranges name, in order.
pub open spec fn all_reads(ranges: Seq<RangeView>) -> Seq<(int, int)>
    decreases ranges.len(),
{
    if ranges.len() == 0 {
        Seq::empty()
    } else {
        all_reads(ranges.drop_last()) + range_reads(ranges.last())
    }
}

/// The offset and the size of each sample.
pub open spec fn wanted_reads(samples: Seq<SampleRef>) -> Seq<(int, int)> {
    Seq::new(samples.len(), |i: int| (samples[i].src_offset as int, samples[i].size as int))
}

/// Coalesced ranges name every sample once, in order, at its place in the source.
pub proof fn law_coalesced_reads_every_sample(samples: Seq<SampleRef>, gap: int)
    ensures
        all_reads(coalesced(samples, gap)) == wanted_reads(samples),
    decreases samples.len(),
{
    if samples.len() > 0 {
        let init = samples.drop_last();
        law_coalesced_reads_every_sample(init, gap);
        let before = coalesced(init, gap);
        let after = coalesced(samples, gap);
        let s = samples.last();
        if before.len() > 0 && joins(before.last(), s, gap) {
            assert(after.drop_last() =~= before.drop_last());
            assert(range_reads(after.last()) =~= range_reads(before.last()).push(
                (s.src_offset as int, s.size as int),
            ));
        } else {
            assert(after.drop_last() =~= before);
            assert(range_reads(after.last()) =~= seq![(s.src_offset as int, s.size as int)]);
        }
        let read = (s.src_offset as int, s.size as int);
        assert(wanted_reads(samples) =~= wanted_reads(init).push(read));
        assert(all_reads(after) =~= all_reads(before).push(read));
    } else {
        assert(all_reads(coalesced(samples, gap)) =~= wanted_reads(samples));
    }
}

/// Every part of a coalesced range lies inside the range.
pub proof fn law_coalesced_parts_inside(samples: Seq<SampleRef>, gap: int)
    ensures
        forall|k: int, p: int|
            #![trigger coalesced(samples, gap)[k].parts[p]]
            0 <= k < coalesced(samples, gap).len() && 0 <= p < coalesced(
                samples,
                gap,
            )[k].parts.len() ==> coalesced(samples, gap)[k].parts[p].0 + coalesced(
                samples,
                gap,
            )[k].parts[p].1 <= coalesced(samples, gap)[k].len,
    decreases samples.len(),
{
    if samples.len() > 0 {
        let init = samples.drop_last();
        law_coalesced_parts_inside(init, gap);
        let before = coalesced(init, gap);
        let after = coalesced(samples, gap);
        let s = samples.last();
        assert forall|k: int, p: int|
            #![trigger after[k].parts[p]]
            0 <= k < after.len() && 0 <= p < after[k].parts.len() implies after[k].parts[p].0
            + after[k].parts[p].1 <= after[k].len by {
            if before.len() > 0 && joins(before.last(), s, gap) {
                if k < before.len() - 1 {
                    assert(after[k] == before[k]);
                    assert(before[k].parts[p].0 + before[k].parts[p].1 <= before[k].len);
                } else if p < before.last().parts.len() {
                    assert(after[k].parts[p] == before[k].parts[p]);
                    assert(before[k].parts[p].0 + before[k].parts[p].1 <= before[k].len);
                }
            } else if k < before.len() {
                assert(after[k] == before[k]);
                assert(before[k].parts[p].0 + before[k].parts[p].1 <= before[k].len);
            }
        }
    }
}

/// The number of bytes of all samples.
pub open spec fn payload_total(samples: Seq<SampleRef>) -> int
    decreases samples.len(),
{
    if samples.len() == 0 {
        0
    } else {
        payload_total(samples.drop_last()) + samples.last().size
    }
}

/// The bytes of all samples, held at the largest 64-bit integer.
pub fn payload_size(samples: &[SampleRef]) -> (r: u64)
    ensures
        r == (if payload_total(samples@) > u64::MAX {
            u64::MAX as int
        } else {
            payload_total(samples@)
        }),
{
    let mut sum: u64 = 0;
    let mut i: usize = 0;
    while i < samples.len()
        invariant
            i <= samples@.len(),
            0 <= payload_total(samples@.take(i as int)),
            sum == (if payload_total(samples@.take(i as int)) > u64::MAX {
                u64::MAX as int
            } else {
                payload_total(samples@.take(i as int))
            }),
        decreases samples@.len() - i,
    {
        assert(samples@.take(i + 1).drop_last() =~= samples@.take(i as int));
        sum = sum.saturating_add(samples[i].size as u64);
        i = i + 1;
    }
    assert(samples@.take(i as int) =~= samples@);
    sum
}

/// The least number of bytes copied at a time.
pub const MIN_CHUNK: usize = 262144;

/// The number of bytes copied at a time where nothing else is asked for.
pub const DEFAULT_CHUNK: usize = 1048576;

/// The largest number of bytes copied at a time.
pub const MAX_CHUNK: usize = 4194304;

/// A chunk size between the least and the largest one.
pub open spec fn clamped_chunk(n: int) -> int {
    if n < MIN_CHUNK {
        MIN_CHUNK as int
    } else if n > MAX_CHUNK {
        MAX_CHUNK as int
    } else {
        n
    }
}

/// The number of bytes copied at a time: by a wish in KiB, else by a wish in
/// bytes, each kept within limits, else the default.
pub fn desired_chunk_size(kib: Option<usize>, byte_count: Option<usize>) -> (r: usize)
    ensures
        r == (match (kib, byte_count) {
            (Some(k), _) => clamped_chunk(k * 1024),
            (None, Some(b)) => clamped_chunk(b as int),
            (None, None) => DEFAULT_CHUNK as int,
        }),
{
    match kib {
        Some(k) => if k >= MAX_CHUNK / 1024 {
            MAX_CHUNK
        } else {
            let n: usize = k * 1024;
            if n < MIN_CHUNK {
                MIN_CHUNK
            } else {
                n
            }
        },
        None => match byte_count {
            Some(b) => if b < MIN_CHUNK {
                MIN_CHUNK
            } else if b > MAX_CHUNK {
                MAX_CHUNK
            } else {
                b
            },
            None => DEFAULT_CHUNK,
        },
    }
}

/// Samples that lie one behind the other, each no further than the gap behind
/// where the one before it ends, are read at once. (Spans that are longer than
/// an index holds are left out.)
pub proof fn law_neighbours_are_read_at_once(samples: Seq<SampleRef>, gap: int)
    requires
        samples.len() > 0,
        0 <= gap,
        forall|i: int, j: int|
            0 <= i && j == i + 1 && j < samples.len() ==> ref_end(#[trigger] samples[i]) <= (
            #[trigger] samples[j]).src_offset <= ref_end(samples[i]) + gap,
        ref_end(samples.last()) - samples[0].src_offset <= usize::MAX,
    ensures
        coalesced(samples, gap).len() == 1,
        coalesced(samples, gap)[0].start == samples[0].src_offset,
        coalesced(samples, gap)[0].len == ref_end(samples.last()) - samples[0].src_offset,
        coalesced(samples, gap)[0].len >= 0,
    decreases samples.len(),
{
    let init = samples.drop_last();
    if init.len() > 0 {
        assert(samples[samples.len() - 2] == init.last());
        assert(ref_end(samples[samples.len() - 2]) <= samples[samples.len() - 1].src_offset);
        assert forall|i: int, j: int|
            0 <= i && j == i + 1 && j < init.len() implies ref_end(#[trigger] init[i]) <= (
        #[trigger] init[j]).src_offset <= ref_end(init[i]) + gap by {
            assert(init[i] == samples[i] && init[j] == samples[j]);
        }
        law_neighbours_are_read_at_once(init, gap);
        assert(init[0] == samples[0]);
        let before = coalesced(init, gap);
        assert(before.last() == before[0]);
        assert(before.drop_last() =~= Seq::empty());
    } else {
        assert(coalesced(init, gap) =~= Seq::empty());
        assert(samples.last() == samples[0]);
    }
}

/// A sample that lies before the last range, or further than the gap behind it,
/// starts a range of its own.
pub proof fn law_far_samples_are_read_apart(samples: Seq<SampleRef>, s: SampleRef, gap: int)
    requires
        samples.len() > 0,
        coalesced(samples, gap).len() > 0,
        s.src_offset < coalesced(samples, gap).last().start || s.src_offset > coalesced(
            samples,
            gap,
        ).last().start + coalesced(samples, gap).last().len + gap,
    ensures
        coalesced(samples.push(s), gap).len() == coalesced(samples, gap).len() + 1,
        coalesced(samples.push(s), gap).last().start == s.src_offset,
        coalesced(samples.push(s), gap).last().len == s.size,
        coalesced(samples.push(s), gap).drop_last() == coalesced(samples, gap),
{
    assert(samples.push(s).drop_last() =~= samples);
    assert(coalesced(samples.push(s), gap).drop_last() =~= coalesced(samples, gap));
}

} // verus!
