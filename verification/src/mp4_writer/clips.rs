//! What clips are cut from written movies.

use vstd::prelude::*;
use crate::boxes;
use crate::clip;
use crate::helpers::entries;
use crate::helpers::runs;
use crate::helpers::tables;
use crate::helpers::timing;
use crate::mp4_writer::laws;
use crate::mp4_writer::movie;

verus! {

proof fn lemma_same_first_trak(
    list: Seq<(Seq<u8>, Seq<u8>)>,
    f: spec_fn(Seq<u8>) -> bool,
    g: spec_fn(Seq<u8>) -> bool,
)
    requires
        forall|t: Seq<u8>| #[trigger] f(t) == g(t),
    ensures
        entries::first_trak(list, f) == entries::first_trak(list, g),
    decreases list.len(),
{
    if list.len() > 0 {
        assert(f(list[0].1) == g(list[0].1));
        lemma_same_first_trak(list.skip(1), f, g);
    }
}

/// With one sample in each chunk, each sample lies at the offset of its chunk.
proof fn lemma_one_per_chunk(t: tables::TablesView, n: nat)
    requires
        t.stsc == seq![(1u32, 1u32)],
        n <= t.sizes.len(),
        n <= runs::run_total(t.timing),
        n <= t.offsets.len() <= u32::MAX,
    ensures
        timing::samples_through(t, n).len() == n,
        forall|i: int|
            0 <= i < n ==> (#[trigger] timing::samples_through(t, n)[i]).offset == t.offsets[i]
                && timing::samples_through(t, n)[i].size == t.sizes[i],
    decreases n,
{
    if n > 0 {
        let before = timing::samples_through(t, (n - 1) as nat);
        lemma_one_per_chunk(t, (n - 1) as nat);
        assert(timing::samples_in_chunk(boxes::wrap32(n), t.stsc, 0) == 1);
        let all = timing::samples_through(t, n);
        assert forall|i: int| 0 <= i < n implies (#[trigger] all[i]).offset == t.offsets[i]
            && all[i].size == t.sizes[i] by {
            if i < n - 1 {
                assert(all[i] == before[i]);
            } else {
                assert(all[i] == timing::placed_sample(t, n - 1, n - 1, i));
                assert(timing::size_sum(t.sizes, n - 1, i) == 0);
            }
        }
    }
}

/// The track that a clip of a written movie is cut from, and its tables.
#[verifier::spinoff_prover]
#[verifier::rlimit(40)]
proof fn lemma_clip_track(v: movie::VideoView, base: u64)
    requires
        movie::moov_video(v, base).len() <= u32::MAX,
        v.sizes.len() == runs::run_total(v.stts),
        0 < v.sizes.len() <= u32::MAX,
    ensures
        clip::clip_track(movie::moov_video(v, base)) == Ok::<_, crate::errors::ErrorView>(
            (
                laws::track_at(v, base),
                tables::TablesView {
                    timescale: v.track_timescale,
                    sizes: v.sizes,
                    offsets: movie::sample_offsets(base, v.sizes),
                    timing: v.stts,
                    stsc: seq![(1u32, 1u32)],
                    ctts: v.ctts,
                },
            ),
        ),
        tables::trak_sync_samples(laws::track_at(v, base)) == laws::sync_of(v.sync),
        entries::trak_avc(laws::track_at(v, base)) == Some(laws::avc_of(v.avcc, v.width, v.height)),
        entries::trak_language(laws::track_at(v, base)) == laws::language_text(v.language),
{
    let moov = movie::moov_video(v, base);
    let duration = movie::video_duration(v);
    let offsets = movie::sample_offsets(base, v.sizes);
    laws::law_video_movie_is_listed(v, base);
    laws::law_video_tables_read_back(v, duration, v.sync, offsets);
    laws::law_video_entry_reads_back(v, duration, v.sync, offsets);
    laws::law_video_headers_read_back(v, duration, v.sync, offsets);
    lemma_same_first_trak(
        boxes::box_list(tables::moov_contents(moov)),
        |trak: Seq<u8>| entries::is_video(trak),
        |t: Seq<u8>| entries::is_video(t),
    );
    let t = tables::TablesView {
        timescale: v.track_timescale,
        sizes: v.sizes,
        offsets,
        timing: v.stts,
        stsc: seq![(1u32, 1u32)],
        ctts: v.ctts,
    };
    lemma_one_per_chunk(t, offsets.len());
}

/// What the samples of a range refer to, with one sample in each chunk, laid
/// end to end.
proof fn lemma_refs(t: tables::TablesView, base: u64, first: int, last: int)
    requires
        t.stsc == seq![(1u32, 1u32)],
        t.sizes.len() == runs::run_total(t.timing),
        t.offsets == movie::sample_offsets(base, t.sizes),
        t.sizes.len() <= u32::MAX,
        base + timing::size_sum(t.sizes, 0, t.sizes.len() as int) <= u64::MAX,
        0 <= first < last <= t.sizes.len(),
    ensures
        ({
            let all = timing::samples_through(t, t.offsets.len());
            let refs = clip::refs_of(all.subrange(first, last));
            &&& all.len() == t.sizes.len()
            &&& clip::sizes_of(all.subrange(first, last)) == t.sizes.subrange(first, last)
            &&& refs.len() == last - first
            &&& forall|k: int|
                0 <= k < last - first ==> (#[trigger] refs[k]).src_offset == base
                    + timing::size_sum(t.sizes, 0, first + k) && refs[k].size == t.sizes[first + k]
        }),
{
    let all = timing::samples_through(t, t.offsets.len());
    lemma_one_per_chunk(t, t.offsets.len());
    let chosen = all.subrange(first, last);
    let refs = clip::refs_of(chosen);
    assert forall|k: int| 0 <= k < last - first implies (#[trigger] refs[k]).src_offset == base
        + timing::size_sum(t.sizes, 0, first + k) && refs[k].size == t.sizes[first + k] by {
        assert(chosen[k] == all[first + k]);
        lemma_sums_grow(t.sizes, first + k, t.sizes.len() as int);
        assert(t.offsets[first + k] == timing::wrap64(
            base + timing::size_sum(t.sizes, 0, first + k),
        ));
    }
    assert(clip::sizes_of(chosen) =~= t.sizes.subrange(first, last));
}

/// The samples that a clip of a track takes, where the track tells a size and a
/// place for each of its samples.
proof fn lemma_taken(t: tables::TablesView, stss: Seq<u32>, start: int, end: int)
    requires
        t.sizes.len() == runs::run_total(t.timing),
        0 < t.sizes.len() <= u32::MAX,
        0 <= start < end,
    ensures
        timing::selection(t.timing, clip::alignment(stss), start, end) matches Ok(sel)
            && sel.start_index <= sel.end_index < t.sizes.len(),
{
    timing::law_selection_is_tight(t.timing, clip::alignment(stss), start, end);
    timing::law_selection_covers(t.timing, clip::alignment(stss), start, end);
}

/// The clip of a track that is found, from its tables and its entry.
#[verifier::spinoff_prover]
#[verifier::rlimit(40)]
proof fn lemma_plan(
    moov: Seq<u8>,
    trak: Seq<u8>,
    t: tables::TablesView,
    avc: entries::AvcView,
    start: int,
    end: int,
    sel: timing::TimeSelection,
)
    requires
        clip::clip_track(moov) == Ok::<_, crate::errors::ErrorView>((trak, t)),
        entries::trak_avc(trak) == Some(avc),
        timing::selection(
            t.timing,
            clip::alignment(tables::trak_sync_samples(trak)),
            start,
            end,
        ) == Ok::<_, timing::SelectionError>(sel),
        sel.end_index < timing::samples_through(t, t.offsets.len()).len(),
    ensures
        clip::clip_plan(moov, start, end) == Ok::<_, crate::errors::ErrorView>(
            clip::clip_of(trak, t, avc, sel.start_index as int, sel.end_index + 1),
        ),
{
}

/// A clip of a written movie is cut from what the movie was written from: its
/// samples lie where the movie has them, laid end to end from `base` on, with
/// the sizes, the durations and the composition offsets that they have there.
/// (A movie whose payload ends behind the last 64-bit offset is left out.)
#[verifier::spinoff_prover]
#[verifier::rlimit(60)]
pub proof fn law_clip_of_a_written_movie(v: movie::VideoView, base: u64, start: int, end: int)
    requires
        movie::moov_video(v, base).len() <= u32::MAX,
        v.sizes.len() == runs::run_total(v.stts),
        v.ctts matches Some(pairs) ==> v.sizes.len() == runs::run_total(pairs),
        0 < v.sizes.len() <= u32::MAX,
        base + timing::size_sum(v.sizes, 0, v.sizes.len() as int) <= u64::MAX,
        0 <= start < end,
    ensures
        clip::clip_plan(movie::moov_video(v, base), start, end) matches Ok(c) && {
            let first = timing::selection(
                v.stts,
                clip::alignment(laws::sync_of(v.sync)),
                start,
                end,
            )->Ok_0.start_index as int;
            let n = c.sizes.len();
            &&& 0 < n <= v.sizes.len() - first
            &&& c.sizes == v.sizes.subrange(first, first + n)
            &&& c.refs.len() == n
            &&& forall|k: int|
                0 <= k < n ==> (#[trigger] c.refs[k]).src_offset == base + timing::size_sum(
                    v.sizes,
                    0,
                    first + k,
                ) && c.refs[k].size == v.sizes[first + k]
            &&& runs::expand(c.stts) == runs::expand(v.stts).subrange(first, first + n)
            &&& c.ctts is Some <==> v.ctts is Some
            &&& v.ctts matches Some(pairs) ==> runs::expand(c.ctts->0) == runs::expand(
                pairs,
            ).subrange(first, first + n)
            &&& c.track_timescale == v.track_timescale
            &&& c.width == v.width
            &&& c.height == v.height
            &&& c.avcc == v.avcc
            &&& c.language == laws::language_text(v.language)
        },
{
    let moov = movie::moov_video(v, base);
    lemma_clip_track(v, base);
    let (trak, t) = clip::clip_track(moov)->Ok_0;
    let avc = laws::avc_of(v.avcc, v.width, v.height);
    lemma_taken(t, laws::sync_of(v.sync), start, end);
    let sel = timing::selection(
        t.timing,
        clip::alignment(laws::sync_of(v.sync)),
        start,
        end,
    )->Ok_0;
    lemma_refs(t, base, sel.start_index as int, sel.end_index + 1);
    lemma_plan(moov, trak, t, avc, start, end, sel);
    clip::law_clip_tables_agree(moov, start, end);
    clip::law_clip_keeps_compositions(moov, start, end);
}

proof fn lemma_sums_grow(sizes: Seq<u32>, a: int, b: int)
    requires
        0 <= a <= b,
    ensures
        timing::size_sum(sizes, 0, a) <= timing::size_sum(sizes, 0, b),
    decreases b - a,
{
    if a < b {
        lemma_sums_grow(sizes, a, b - 1);
    }
}

} // verus!
