//! Cutting a time range out of the first video track of a movie.

use vstd::prelude::*;
use crate::boxes;
use crate::errors;
use crate::errors::MediaParserError;
use crate::helpers::entries;
use crate::helpers::entries::{extract_avc_from_trak, find_first_video_trak, language_of_trak};
use crate::helpers::laws;
use crate::helpers::runs;
use crate::helpers::runs::{slice_ctts_pairs, slice_stts_pairs};
use crate::helpers::tables;
use crate::helpers::tables::{extract_sync_samples, extract_track_tables, moov_payload, TrackTables};
use crate::helpers::timing;
use crate::helpers::timing::{
    enumerate_samples, samples_fit, select_samples_by_time, SampleInfo, SelectionError,
};
use crate::mp4_writer::movie;
use crate::mp4_writer::{SampleRef, VideoMoovParams};

verus! {

/// What a clip is written from: timing tables, sample references, sync
/// entries and the description of the track.
#[derive(Debug, Clone)]
pub struct ClipSelectionCore {
    pub track_timescale: u32,
    pub stts_pairs: Vec<(u32, u32)>,
    pub ctts_pairs: Option<Vec<(u32, i32)>>,
    pub sizes: Vec<u32>,
    pub refs: Vec<SampleRef>,
    pub sync_rel_1based: Vec<u32>,
    pub width: u16,
    pub height: u16,
    pub language: String,
    pub avcc_payload: Vec<u8>,
}

/// What a clip selection holds.
pub struct ClipView {
    pub track_timescale: u32,
    pub stts: Seq<(u32, u32)>,
    pub ctts: Option<Seq<(u32, i32)>>,
    pub sizes: Seq<u32>,
    pub refs: Seq<SampleRef>,
    pub sync: Seq<u32>,
    pub width: u16,
    pub height: u16,
    pub language: Seq<char>,
    pub avcc: Seq<u8>,
}

impl View for ClipSelectionCore {
    type V = ClipView;

    open spec fn view(&self) -> ClipView {
        ClipView {
            track_timescale: self.track_timescale,
            stts: self.stts_pairs@,
            ctts: tables::vec_view(self.ctts_pairs),
            sizes: self.sizes@,
            refs: self.refs@,
            sync: self.sync_rel_1based@,
            width: self.width,
            height: self.height,
            language: self.language@,
            avcc: self.avcc_payload@,
        }
    }
}

/// The sync samples that fall in `start..end` (0-based), counted from
/// `start` and 1-based.
pub open spec fn sync_inside(stss: Seq<u32>, start: int, end: int) -> Seq<u32>
    decreases stss.len(),
{
    if stss.len() == 0 {
        Seq::empty()
    } else {
        let before = sync_inside(stss.drop_last(), start, end);
        let n = stss.last();
        if n > 0 && start <= n - 1 < end {
            before.push((n - start) as u32)
        } else {
            before
        }
    }
}

/// The sync samples of a clip of the samples `start..end`: those that fall
/// inside, else its first sample.
pub open spec fn relative_sync(stss: Seq<u32>, start: int, end: int) -> Seq<u32> {
    if sync_inside(stss, start, end).len() == 0 {
        seq![1u32]
    } else {
        sync_inside(stss, start, end)
    }
}

/// The sync samples of a clip of the samples `start..end`, see `relative_sync`.
pub fn clip_sync_samples(stss: &[u32], start: usize, end: usize) -> (r: Vec<u32>)
    ensures
        r@ == relative_sync(stss@, start as int, end as int),
{
    let mut out: Vec<u32> = Vec::new();
    let mut i: usize = 0;
    while i < stss.len()
        invariant
            i <= stss@.len(),
            out@ == sync_inside(stss@.take(i as int), start as int, end as int),
        decreases stss@.len() - i,
    {
        let n: u32 = stss[i];
        assert(stss@.take(i + 1).drop_last() =~= stss@.take(i as int));
        if n > 0 {
            let idx: usize = (n - 1) as usize;
            if idx >= start && idx < end {
                out.push((idx - start) as u32 + 1);
            }
        }
        i = i + 1;
    }
    assert(stss@.take(i as int) =~= stss@);
    if out.len() == 0 {
        out.push(1);
        assert(out@ =~= seq![1u32]);
    }
    out
}

/// Where the samples of a list are read from.
pub open spec fn refs_of(samples: Seq<SampleInfo>) -> Seq<SampleRef> {
    Seq::new(
        samples.len(),
        |i: int| SampleRef { src_offset: samples[i].offset, size: samples[i].size as u32 },
    )
}

/// The sizes of the samples of a list.
pub open spec fn sizes_of(samples: Seq<SampleInfo>) -> Seq<u32> {
    Seq::new(samples.len(), |i: int| samples[i].size as u32)
}

/// A table sliced where there is one.
pub open spec fn sliced(
    ctts: Option<Seq<(u32, i32)>>,
    start: int,
    end: int,
) -> Option<Seq<(u32, i32)>> {
    match ctts {
        Some(pairs) => Some(runs::slice_runs(pairs, start, end)),
        None => None,
    }
}

/// Slices the composition offsets of a track, where it has some.
pub fn slice_composition(
    ctts: &Option<Vec<(u32, i32)>>,
    start: usize,
    end: usize,
) -> (r: Option<Vec<(u32, i32)>>)
    ensures
        tables::vec_view(r) == sliced(tables::vec_view(*ctts), start as int, end as int),
{
    match ctts {
        Some(pairs) => Some(slice_ctts_pairs(pairs.as_slice(), start, end)),
        None => None,
    }
}

/// The track that a clip is cut from, with its tables.
pub open spec fn clip_track(moov: Seq<u8>) -> Result<
    (Seq<u8>, tables::TablesView),
    errors::ErrorView,
> {
    match entries::first_trak(
        boxes::box_list(tables::moov_contents(moov)),
        |trak: Seq<u8>| entries::is_video(trak),
    ) {
        None => Err(errors::ErrorView::InvalidFormat("no video track"@)),
        Some(trak) => match tables::trak_tables(trak) {
            None => Err(errors::ErrorView::InvalidFormat("invalid track tables"@)),
            Some(t) => if runs::run_total(t.timing) > usize::MAX {
                Err(errors::ErrorView::InvalidFormat("invalid track tables"@))
            } else if timing::samples_through(t, t.offsets.len()).len() == 0 {
                Err(errors::ErrorView::InvalidFormat("no samples"@))
            } else {
                Ok((trak, t))
            },
        },
    }
}

/// A selection error in words.
pub open spec fn selection_words(e: SelectionError) -> Seq<char> {
    match e {
        SelectionError::InvalidRange => "invalid time range"@,
        SelectionError::NoSamples => "no samples"@,
        SelectionError::EmptySelection => "empty selection"@,
    }
}

/// The sync samples that a selection is aligned to.
pub open spec fn alignment(stss: Seq<u32>) -> Option<Seq<u32>> {
    if stss.len() == 0 {
        None
    } else {
        Some(stss)
    }
}

/// A clip of the samples `start..end` of a track.
pub open spec fn clip_of(
    trak: Seq<u8>,
    t: tables::TablesView,
    avc: entries::AvcView,
    start: int,
    end: int,
) -> ClipView {
    let chosen = timing::samples_through(t, t.offsets.len()).subrange(start, end);
    ClipView {
        track_timescale: t.timescale,
        stts: runs::slice_runs(t.timing, start, end),
        ctts: sliced(t.ctts, start, end),
        sizes: sizes_of(chosen),
        refs: refs_of(chosen),
        sync: relative_sync(tables::trak_sync_samples(trak), start, end),
        width: avc.width,
        height: avc.height,
        language: entries::trak_language(trak),
        avcc: avc.avcc_payload,
    }
}

/// The clip that covers the ticks `start..end` of the first video track of a movie.
pub open spec fn clip_plan(moov: Seq<u8>, start: int, end: int) -> Result<
    ClipView,
    errors::ErrorView,
> {
    match clip_track(moov) {
        Err(e) => Err(e),
        Ok((trak, t)) => match timing::selection(
            t.timing,
            alignment(tables::trak_sync_samples(trak)),
            start,
            end,
        ) {
            Err(e) => Err(errors::ErrorView::InvalidFormat(selection_words(e))),
            Ok(sel) => if sel.end_index >= timing::samples_through(t, t.offsets.len()).len() {
                Err(errors::ErrorView::InvalidFormat("invalid track tables"@))
            } else {
                match entries::trak_avc(trak) {
                    None => Err(errors::ErrorView::UnsupportedCodec("missing avcC"@)),
                    Some(avc) => Ok(
                        clip_of(trak, t, avc, sel.start_index as int, sel.end_index + 1),
                    ),
                }
            },
        },
    }
}

fn source_track(moov: &[u8]) -> (r: Result<(&[u8], TrackTables), MediaParserError>)
    ensures
        match r {
            Ok((trak, t)) => clip_track(moov@) == Ok::<_, errors::ErrorView>((trak@, t@)),
            Err(e) => clip_track(moov@) == Err::<(Seq<u8>, tables::TablesView), _>(e@),
        },
{
    let trak: &[u8] = match find_first_video_trak(moov_payload(moov)) {
        Some(trak) => trak,
        None => {
            return Err(MediaParserError::invalid("no video track"));
        },
    };
    let t: TrackTables = match extract_track_tables(trak) {
        Some(t) => t,
        None => {
            return Err(MediaParserError::invalid("invalid track tables"));
        },
    };
    if !samples_fit(t.timing.as_slice()) {
        return Err(MediaParserError::invalid("invalid track tables"));
    }
    if enumerate_samples(&t).len() == 0 {
        return Err(MediaParserError::invalid("no samples"));
    }
    Ok((trak, t))
}

/// The timescale of the track that a clip is cut from: the ticks per second
/// that its time range is counted in.
pub fn clip_timescale(moov: &[u8]) -> (r: Result<u32, MediaParserError>)
    ensures
        match r {
            Ok(timescale) => clip_track(moov@) is Ok && timescale == clip_track(
                moov@,
            )->Ok_0.1.timescale,
            Err(e) => clip_track(moov@) == Err::<(Seq<u8>, tables::TablesView), _>(e@),
        },
{
    match source_track(moov) {
        Ok((_, t)) => Ok(t.timescale),
        Err(e) => Err(e),
    }
}

/// Compute the selection plan for a clip of the ticks `[start, end)`: timing
/// tables, sample refs, sync entries and metadata. A selection that runs past
/// the samples that have a size and a place counts as invalid tables.
pub fn plan_clip_core(moov: &[u8], start: u64, end: u64) -> (r: Result<
    ClipSelectionCore,
    MediaParserError,
>)
    ensures
        match r {
            Ok(core) => clip_plan(moov@, start as int, end as int) == Ok::<_, errors::ErrorView>(
                core@,
            ),
            Err(e) => clip_plan(moov@, start as int, end as int) == Err::<ClipView, _>(e@),
        },
{
    let (trak, t): (&[u8], TrackTables) = match source_track(moov) {
        Ok(found) => found,
        Err(e) => {
            return Err(e);
        },
    };
    let all: Vec<SampleInfo> = enumerate_samples(&t);
    let stss: Vec<u32> = extract_sync_samples(trak);
    let align: Option<&[u32]> = if stss.len() == 0 {
        None
    } else {
        Some(stss.as_slice())
    };
    assert(timing::list_view(align) == alignment(stss@));
    let sel: timing::TimeSelection = match select_samples_by_time(
        t.timing.as_slice(),
        align,
        start,
        end,
    ) {
        Ok(sel) => sel,
        Err(e) => {
            return Err(MediaParserError::invalid(e.message()));
        },
    };
    if sel.end_index >= all.len() {
        return Err(MediaParserError::invalid("invalid track tables"));
    }
    let first: usize = sel.start_index;
    let last: usize = sel.end_index + 1;
    let ghost chosen = all@.subrange(first as int, last as int);
    let mut refs: Vec<SampleRef> = Vec::new();
    let mut sizes: Vec<u32> = Vec::new();
    let mut i: usize = first;
    while i < last
        invariant
            first <= i <= last <= all@.len(),
            chosen == all@.subrange(first as int, last as int),
            refs@ == refs_of(chosen).take(i - first),
            sizes@ == sizes_of(chosen).take(i - first),
        decreases last - i,
    {
        let size: u32 = all[i].size as u32;
        refs.push(SampleRef { src_offset: all[i].offset, size });
        sizes.push(size);
        assert(chosen[i - first] == all@[i as int]);
        i = i + 1;
        assert(refs@ =~= refs_of(chosen).take(i - first));
        assert(sizes@ =~= sizes_of(chosen).take(i - first));
    }
    assert(refs@ =~= refs_of(chosen));
    assert(sizes@ =~= sizes_of(chosen));
    let sync_rel_1based: Vec<u32> = clip_sync_samples(stss.as_slice(), first, last);
    let avc: entries::AvcInfo = match extract_avc_from_trak(trak) {
        Some(avc) => avc,
        None => {
            return Err(MediaParserError::unsupported("missing avcC"));
        },
    };
    let core = ClipSelectionCore {
        track_timescale: t.timescale,
        stts_pairs: slice_stts_pairs(t.timing.as_slice(), first, last),
        ctts_pairs: slice_composition(&t.ctts, first, last),
        sizes,
        refs,
        sync_rel_1based,
        width: avc.width,
        height: avc.height,
        language: language_of_trak(trak),
        avcc_payload: avc.avcc_payload,
    };
    Ok(core)
}

/// The tables of a clip agree: it has as many sizes as references, the timing
/// table counts that many samples with the durations they had in the source,
/// and there is a sync sample. (A clip of more samples than a 32-bit count
/// holds is left out.)
pub proof fn law_clip_tables_agree(moov: Seq<u8>, start: int, end: int)
    requires
        0 <= start,
        0 <= end,
        clip_plan(moov, start, end) is Ok,
        clip_plan(moov, start, end)->Ok_0.sizes.len() <= u32::MAX,
    ensures
        ({
            let c = clip_plan(moov, start, end)->Ok_0;
            let (trak, t) = clip_track(moov)->Ok_0;
            let sel = timing::selection(
                t.timing,
                alignment(tables::trak_sync_samples(trak)),
                start,
                end,
            )->Ok_0;
            &&& c.refs.len() == c.sizes.len()
            &&& forall|i: int| 0 <= i < c.refs.len() ==> (#[trigger] c.refs[i]).size == c.sizes[i]
            &&& c.sizes.len() == sel.end_index + 1 - sel.start_index
            &&& runs::expand(c.stts) == runs::expand(t.timing).subrange(
                sel.start_index as int,
                sel.end_index + 1,
            )
            &&& runs::run_total(c.stts) == c.sizes.len()
            &&& c.sync.len() > 0
        }),
{
    let c = clip_plan(moov, start, end)->Ok_0;
    let (trak, t) = clip_track(moov)->Ok_0;
    let sel = timing::selection(
        t.timing,
        alignment(tables::trak_sync_samples(trak)),
        start,
        end,
    )->Ok_0;
    timing::law_selection_covers(
        t.timing,
        alignment(tables::trak_sync_samples(trak)),
        start,
        end,
    );
    timing::lemma_samples_bound(t, t.offsets.len());
    let first = sel.start_index as int;
    let last = sel.end_index + 1;
    runs::law_slice_keeps_samples(t.timing, first, last);
    runs::lemma_expand_len(c.stts);
    runs::lemma_expand_len(t.timing);
}

/// The reference to a sample of a clip points at that sample of the source: the
/// first one of a chunk at the offset of the chunk, each other one where the
/// sample before it ends. Its size is the one that the source tells.
#[verifier::spinoff_prover]
#[verifier::rlimit(40)]
pub proof fn law_clip_points_at_its_samples(moov: Seq<u8>, start: int, end: int, k: int)
    requires
        0 <= start,
        0 <= end,
        clip_plan(moov, start, end) is Ok,
        0 <= k < clip_plan(moov, start, end)->Ok_0.refs.len(),
    ensures
        ({
            let c = clip_plan(moov, start, end)->Ok_0;
            let (trak, t) = clip_track(moov)->Ok_0;
            let sel = timing::selection(
                t.timing,
                alignment(tables::trak_sync_samples(trak)),
                start,
                end,
            )->Ok_0;
            let i = sel.start_index + k;
            &&& c.refs.len() == sel.end_index + 1 - sel.start_index
            &&& c.refs[k].size == t.sizes[i]
            &&& c.sizes[k] == t.sizes[i]
            &&& exists|q: int| #[trigger] laws::lies_in(t, q, i)
            &&& forall|q: int| #[trigger]
                laws::lies_in(t, q, i) && i == laws::samples_in_chunks(t.stsc, q)
                    ==> c.refs[k].src_offset == t.offsets[q]
            &&& forall|q: int|
                k > 0 && #[trigger] laws::lies_in(t, q, i) && i > laws::samples_in_chunks(
                    t.stsc,
                    q,
                ) ==> c.refs[k].src_offset == timing::wrap64(
                    c.refs[k - 1].src_offset + c.refs[k - 1].size,
                )
            &&& forall|q: int|
                k == 0 && #[trigger] laws::lies_in(t, q, i) ==> c.refs[k].src_offset
                    == timing::wrap64(
                    t.offsets[q] + timing::size_sum(
                        t.sizes,
                        laws::samples_in_chunks(t.stsc, q),
                        i,
                    ),
                )
        }),
{
    let c = clip_plan(moov, start, end)->Ok_0;
    let (trak, t) = clip_track(moov)->Ok_0;
    let sel = timing::selection(
        t.timing,
        alignment(tables::trak_sync_samples(trak)),
        start,
        end,
    )->Ok_0;
    timing::law_selection_covers(
        t.timing,
        alignment(tables::trak_sync_samples(trak)),
        start,
        end,
    );
    let i = sel.start_index + k;
    let all = timing::samples_through(t, t.offsets.len());
    timing::lemma_samples_bound(t, t.offsets.len());
    laws::law_every_sample_lies_in_a_chunk(t, i);
    let chosen = all.subrange(sel.start_index as int, sel.end_index + 1);
    assert(chosen[k] == all[i]);
    let at = choose|q: int| #[trigger] laws::lies_in(t, q, i);
    laws::law_chunk_lays_out_its_samples(t, at, i);
    assert forall|q: int| #[trigger]
        laws::lies_in(t, q, i) && i == laws::samples_in_chunks(t.stsc, q) implies
        c.refs[k].src_offset == t.offsets[q] by {
        laws::law_chunk_lays_out_its_samples(t, q, i);
    }
    if k > 0 {
        assert(chosen[k - 1] == all[i - 1]);
        laws::law_every_sample_lies_in_a_chunk(t, i - 1);
        let before = choose|q: int| #[trigger] laws::lies_in(t, q, i - 1);
        laws::law_chunk_lays_out_its_samples(t, before, i - 1);
        assert forall|q: int| #[trigger]
            laws::lies_in(t, q, i) && i > laws::samples_in_chunks(t.stsc, q) implies
            c.refs[k].src_offset == timing::wrap64(
            c.refs[k - 1].src_offset + c.refs[k - 1].size,
        ) by {
            laws::law_chunk_lays_out_its_samples(t, q, i);
        }
    }
    assert forall|q: int| #[trigger] laws::lies_in(t, q, i) implies c.refs[k].src_offset
        == timing::wrap64(
        t.offsets[q] + timing::size_sum(t.sizes, laws::samples_in_chunks(t.stsc, q), i),
    ) by {
        laws::law_sample_is_placed(t, q, i);
    }
}

/// The composition offsets of a clip are those that its samples have in the
/// source; it has none where the source has none.
pub proof fn law_clip_keeps_compositions(moov: Seq<u8>, start: int, end: int)
    requires
        0 <= start,
        0 <= end,
        clip_plan(moov, start, end) is Ok,
        clip_plan(moov, start, end)->Ok_0.sizes.len() <= u32::MAX,
    ensures
        ({
            let c = clip_plan(moov, start, end)->Ok_0;
            let (trak, t) = clip_track(moov)->Ok_0;
            let sel = timing::selection(
                t.timing,
                alignment(tables::trak_sync_samples(trak)),
                start,
                end,
            )->Ok_0;
            &&& c.ctts is Some <==> t.ctts is Some
            &&& t.ctts matches Some(pairs) ==> runs::run_total(pairs) > sel.end_index
                ==> runs::expand(c.ctts->0) == runs::expand(pairs).subrange(
                sel.start_index as int,
                sel.end_index + 1,
            )
            &&& c.track_timescale == t.timescale
        }),
{
    let (trak, t) = clip_track(moov)->Ok_0;
    let sel = timing::selection(
        t.timing,
        alignment(tables::trak_sync_samples(trak)),
        start,
        end,
    )->Ok_0;
    timing::law_selection_covers(
        t.timing,
        alignment(tables::trak_sync_samples(trak)),
        start,
        end,
    );
    if let Some(pairs) = t.ctts {
        runs::law_slice_keeps_samples(pairs, sel.start_index as int, sel.end_index + 1);
    }
}

/// Whether a list of sync samples tells a number.
pub open spec fn is_told(stss: Seq<u32>, n: int) -> bool {
    exists|j: int| 0 <= j < stss.len() && #[trigger] stss[j] == n
}

/// The sync samples of a clip are those of the source that lie in it, counted
/// from its first sample, in the same order; where none lies in it, its first
/// sample stands for one.
pub proof fn law_clip_sync_samples(stss: Seq<u32>, start: int, end: int)
    requires
        0 <= start <= end,
    ensures
        forall|j: int|
            0 <= j < stss.len() && start < #[trigger] stss[j] <= end ==> relative_sync(
                stss,
                start,
                end,
            ).contains((stss[j] - start) as u32),
        forall|k: int|
            0 <= k < relative_sync(stss, start, end).len() ==> {
                let n = #[trigger] relative_sync(stss, start, end)[k];
                1 <= n && (is_told(stss, n + start) && n + start <= end || (relative_sync(
                    stss,
                    start,
                    end,
                ) == seq![1u32] && forall|j: int|
                    0 <= j < stss.len() ==> !(start < #[trigger] stss[j] <= end)))
            },
        (forall|i: int, j: int| 0 <= i < j < stss.len() ==> stss[i] < stss[j]) ==> forall|
            i: int,
            j: int,
        |
            0 <= i < j < relative_sync(stss, start, end).len() ==> relative_sync(
                stss,
                start,
                end,
            )[i] < relative_sync(stss, start, end)[j],
{
    lemma_sync_inside(stss, start, end);
    let inside = sync_inside(stss, start, end);
    assert forall|j: int| 0 <= j < stss.len() && start < #[trigger] stss[j] <= end implies
        inside.contains((stss[j] - start) as u32) by {}
    if inside.len() == 0 {
        assert forall|j: int| 0 <= j < stss.len() implies !(start < #[trigger] stss[j] <= end) by {
            if start < stss[j] <= end {
                assert(inside.contains((stss[j] - start) as u32));
            }
        }
    }
}

#[verifier::spinoff_prover]
#[verifier::rlimit(40)]
proof fn lemma_sync_inside(stss: Seq<u32>, start: int, end: int)
    requires
        0 <= start <= end,
    ensures
        forall|j: int|
            0 <= j < stss.len() && start < #[trigger] stss[j] <= end ==> sync_inside(
                stss,
                start,
                end,
            ).contains((stss[j] - start) as u32),
        forall|k: int|
            0 <= k < sync_inside(stss, start, end).len() ==> 1 <= #[trigger] sync_inside(
                stss,
                start,
                end,
            )[k] && is_told(stss, sync_inside(stss, start, end)[k] + start) && sync_inside(
                stss,
                start,
                end,
            )[k] + start <= end,
        (forall|i: int, j: int| 0 <= i < j < stss.len() ==> stss[i] < stss[j]) ==> forall|
            i: int,
            j: int,
        |
            0 <= i < j < sync_inside(stss, start, end).len() ==> sync_inside(stss, start, end)[i]
                < sync_inside(stss, start, end)[j],
    decreases stss.len(),
{
    if stss.len() > 0 {
        let init = stss.drop_last();
        let last = stss.last();
        let before = sync_inside(init, start, end);
        let now = sync_inside(stss, start, end);
        lemma_sync_inside(init, start, end);
        assert forall|j: int| 0 <= j < stss.len() && start < #[trigger] stss[j] <= end implies
            now.contains((stss[j] - start) as u32) by {
            if j < init.len() {
                assert(init[j] == stss[j]);
                let at = choose|k: int|
                    0 <= k < before.len() && before[k] == (stss[j] - start) as u32;
                assert(now[at] == before[at]);
            } else {
                assert(now.last() == (last - start) as u32);
                assert(now[now.len() - 1] == (last - start) as u32);
            }
        }
        assert forall|k: int| 0 <= k < now.len() implies 1 <= #[trigger] now[k] && is_told(
            stss,
            now[k] + start,
        ) && now[k] + start <= end by {
            if k < before.len() {
                assert(now[k] == before[k]);
                let at = choose|j: int| 0 <= j < init.len() && init[j] == before[k] + start;
                assert(stss[at] == init[at]);
            } else {
                assert(stss[stss.len() - 1] == now[k] + start);
            }
        }
        if forall|i: int, j: int| 0 <= i < j < stss.len() ==> stss[i] < stss[j] {
            assert forall|i: int, j: int| 0 <= i < j < init.len() implies init[i] < init[j] by {
                assert(init[i] == stss[i] && init[j] == stss[j]);
            }
            assert forall|i: int, j: int| 0 <= i < j < now.len() implies now[i] < now[j] by {
                if j == before.len() {
                    assert(now[i] == before[i]);
                    let at = choose|m: int| 0 <= m < init.len() && init[m] == before[i] + start;
                    assert(stss[at] == init[at]);
                    assert(stss[at] < stss[stss.len() - 1]);
                } else {
                    assert(now[i] == before[i] && now[j] == before[j]);
                }
            }
        }
    }
}

/// What the track of a clip is written from.
pub open spec fn clip_video(c: ClipView) -> movie::VideoView {
    movie::VideoView {
        movie_timescale: c.track_timescale,
        track_timescale: c.track_timescale,
        stts: c.stts,
        ctts: c.ctts,
        sizes: c.sizes,
        sync: Some(c.sync),
        track_id: 1,
        width: c.width,
        height: c.height,
        language: c.language,
        avcc: c.avcc,
        edits: None,
    }
}

impl ClipSelectionCore {
    /// The description of the track of the clip. Its payload offset is
    /// settled when the segment is written.
    pub fn moov_params(&self) -> (r: VideoMoovParams<'_>)
        ensures
            r@ == clip_video(self@),
            r.track_timescale == self.track_timescale,
            r.mdat_base_offset == 0,
    {
        VideoMoovParams {
            movie_timescale: None,
            track_timescale: self.track_timescale,
            stts_pairs: self.stts_pairs.as_slice(),
            ctts_pairs: match &self.ctts_pairs {
                Some(pairs) => Some(pairs.as_slice()),
                None => None,
            },
            sample_sizes: self.sizes.as_slice(),
            sync_samples_1based: Some(self.sync_rel_1based.as_slice()),
            track_id: 1,
            width: self.width,
            height: self.height,
            language: Some(self.language.as_str()),
            mdat_base_offset: 0,
            avcc_payload: self.avcc_payload.as_slice(),
            edit_list: None,
        }
    }
}

} // verus!
