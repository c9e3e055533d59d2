//! Whether the sample tables of a track agree with each other.

use vstd::prelude::*;
use super::sample_timing;
use super::sample_timing::{stts_sample_count, CompositionOffset};
use super::samples;
use super::samples::{SampleSizes, StscEntry, StscRuns};
use crate::helpers::runs;
use crate::helpers::timing;

verus! {

/// Whether the composition offsets, where there are any, count `n` samples.
pub open spec fn offsets_count(offsets: Option<Seq<CompositionOffset>>, n: u32) -> bool {
    match offsets {
        Some(list) => runs::run_total(sample_timing::offset_runs(list)) == n,
        None => true,
    }
}

/// Whether the sync samples, where they are listed, start with the first
/// sample and are all among `n` samples.
pub open spec fn sync_in_range(sync: Option<Seq<u32>>, n: u32) -> bool {
    match sync {
        Some(list) => {
            &&& list.len() > 0
            &&& list[0] == 1
            &&& forall|i: int| 0 <= i < list.len() ==> 1 <= #[trigger] list[i] <= n
        },
        None => true,
    }
}

/// Whether every run of a table names one of `n` sample descriptions.
pub open spec fn descriptions_in_range(stsc: Seq<StscEntry>, n: int) -> bool {
    forall|k: int| 0 <= k < stsc.len() ==> (#[trigger] stsc[k]).sample_description_index <= n
}

/// Whether the sample tables of a track agree: they stand for the same
/// number of samples, the runs of chunks cover the chunks, and what they
/// refer to is there.
pub open spec fn tables_agree(
    stts: Seq<u8>,
    offsets: Option<Seq<CompositionOffset>>,
    count: u32,
    stsc: Seq<StscEntry>,
    chunk_count: int,
    sync: Option<Seq<u32>>,
    descriptions: int,
) -> bool {
    &&& count > 0
    &&& samples::starts_at_first_chunk(stsc, chunk_count)
    &&& descriptions > 0
    &&& sample_timing::stts_samples(stts) == Some(count)
    &&& offsets_count(offsets, count)
    &&& samples::runs_ok(stsc, chunk_count + 1, stsc.len() as int)
    &&& descriptions_in_range(stsc, descriptions)
    &&& samples::samples_before(stsc, chunk_count + 1, stsc.len() as int) == count
    &&& sync_in_range(sync, count)
}

/// Whether a list of composition offsets counts `n` samples.
fn offsets_count_to(list: &[CompositionOffset], n: u32) -> (r: bool)
    ensures
        r == offsets_count(Some(list@), n),
{
    let ghost all = sample_timing::offset_runs(list@);
    let mut left: u32 = n;
    let mut i: usize = 0;
    assert(all.take(0) =~= Seq::empty());
    while i < list.len()
        invariant
            i <= list@.len(),
            all == sample_timing::offset_runs(list@),
            left == n - runs::run_total(all.take(i as int)),
        decreases list@.len() - i,
    {
        proof {
            assert(all.take(i + 1).drop_last() =~= all.take(i as int));
            sample_timing::lemma_total_grows(all, i + 1);
        }
        if list[i].sample_count > left {
            return false;
        }
        left = left - list[i].sample_count;
        i = i + 1;
    }
    assert(all.take(i as int) =~= all);
    left == 0
}

/// Whether sync samples are all among `n` samples, see `sync_in_range`.
fn sync_ok(list: &[u32], n: u32) -> (r: bool)
    ensures
        r == sync_in_range(Some(list@), n),
{
    if list.len() == 0 || list[0] != 1 {
        return false;
    }
    let mut i: usize = 0;
    while i < list.len()
        invariant
            i <= list@.len(),
            forall|k: int| 0 <= k < i ==> 1 <= #[trigger] list@[k] <= n,
        decreases list@.len() - i,
    {
        if list[i] == 0 || list[i] > n {
            assert(!(1 <= list@[i as int] <= n));
            return false;
        }
        i = i + 1;
    }
    true
}

/// Checks that the sample tables of a track agree.
pub fn validate_sample_tables(
    stts: &[u8],
    composition_offsets: Option<&[CompositionOffset]>,
    sizes: &SampleSizes,
    stsc: &[StscEntry],
    chunk_offsets: &[u64],
    sync_samples: Option<&[u32]>,
    sample_description_count: usize,
) -> (r: Option<()>)
    ensures
        r is Some == tables_agree(
            stts@,
            sample_timing::offsets_view(composition_offsets),
            sizes@.count,
            stsc@,
            chunk_offsets@.len() as int,
            timing::list_view(sync_samples),
            sample_description_count as int,
        ),
{
    let count: u32 = sizes.sample_count();
    if count == 0 || stsc.len() == 0 || stsc[0].first_chunk != 1 || chunk_offsets.len() == 0
        || sample_description_count == 0 {
        return None;
    }
    match stts_sample_count(stts) {
        Some(n) => {
            if n != count {
                return None;
            }
        },
        None => {
            return None;
        },
    }
    if let Some(list) = composition_offsets {
        if !offsets_count_to(list, count) {
            return None;
        }
    }
    let mut walk: StscRuns = match StscRuns::new(stsc, chunk_offsets.len()) {
        Some(walk) => walk,
        None => {
            return None;
        },
    };
    let ghost end = chunk_offsets@.len() as int + 1;
    let mut described: u32 = 0;
    loop
        invariant
            walk.table() == stsc@,
            walk.end() == end,
            0 <= walk.walked() <= stsc@.len(),
            described == samples::samples_before(stsc@, end, walk.walked()),
            forall|k: int|
                0 <= k < walk.walked() ==> (#[trigger] stsc@[k]).sample_description_index
                    <= sample_description_count,
        ensures
            walk.table() == stsc@,
            walk.end() == end,
            0 <= walk.walked() <= stsc@.len(),
            described == samples::samples_before(stsc@, end, walk.walked()),
            forall|k: int|
                0 <= k < walk.walked() ==> (#[trigger] stsc@[k]).sample_description_index
                    <= sample_description_count,
            walk.walked() < stsc@.len() ==> walk.met_bad() && !samples::run_ok(
                stsc@,
                end,
                walk.walked(),
            ),
            walk.walked() == stsc@.len() ==> !walk.met_bad(),
        decreases stsc@.len() - walk.walked(),
    {
        match walk.next() {
            Some(run) => {
                if run.sample_description_index as u64 > sample_description_count as u64 {
                    assert(!descriptions_in_range(stsc@, sample_description_count as int)) by {
                        assert(stsc@[walk.walked() - 1].sample_description_index
                            > sample_description_count);
                    }
                    return None;
                }
                described = run.first_sample_index + run.sample_count;
            },
            None => {
                break;
            },
        }
    }
    if walk.failed() || described != count {
        return None;
    }
    if let Some(list) = sync_samples {
        if !sync_ok(list, count) {
            return None;
        }
    }
    Some(())
}

/// Where the tables agree, every sample belongs to a run of chunks.
pub proof fn law_agreeing_tables_place_every_sample(
    stts: Seq<u8>,
    offsets: Option<Seq<CompositionOffset>>,
    count: u32,
    stsc: Seq<StscEntry>,
    chunk_count: int,
    sync: Option<Seq<u32>>,
    descriptions: int,
    i: int,
)
    requires
        tables_agree(stts, offsets, count, stsc, chunk_count, sync, descriptions),
        1 <= i <= count,
    ensures
        samples::run_of(stsc, chunk_count + 1, i - 1, 0) is Some,
{
    lemma_run_exists(stsc, chunk_count + 1, i - 1, 0);
}

proof fn lemma_run_exists(stsc: Seq<StscEntry>, end: int, t: int, k: int)
    requires
        0 <= k <= stsc.len(),
        samples::runs_ok(stsc, end, stsc.len() as int),
        samples::samples_before(stsc, end, k) <= t < samples::samples_before(
            stsc,
            end,
            stsc.len() as int,
        ),
    ensures
        samples::run_of(stsc, end, t, k) is Some,
    decreases stsc.len() - k,
{
    if k < stsc.len() {
        assert(samples::run_ok(stsc, end, k));
        if t >= samples::samples_before(stsc, end, k + 1) {
            lemma_run_exists(stsc, end, t, k + 1);
        }
    }
}

} // verus!
