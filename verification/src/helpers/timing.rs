//! Timing and placement of single samples, and selection of samples by time.
//!
//! Times are counted in ticks of the track's timescale.

use vstd::prelude::*;
use crate::boxes;
use crate::boxes::low32;
use crate::helpers::runs;
use crate::helpers::tables;
use crate::helpers::tables::TrackTables;

verus! {

/// The ticks that the runs of a timing table last in all.
pub open spec fn run_ticks(timing: Seq<(u32, u32)>) -> nat
    decreases timing.len(),
{
    if timing.len() == 0 {
        0
    } else {
        run_ticks(timing.drop_last()) + timing.last().0 as nat * timing.last().1 as nat
    }
}

/// The tick at which sample `i` (0-based) starts: the durations of the samples before it.
pub open spec fn sample_start(timing: Seq<(u32, u32)>, i: int) -> nat
    decreases timing.len(),
{
    if timing.len() == 0 {
        0
    } else if i < runs::run_total(timing.drop_last()) {
        sample_start(timing.drop_last(), i)
    } else {
        run_ticks(timing.drop_last()) + ((i - runs::run_total(timing.drop_last())) as nat)
            * timing.last().1 as nat
    }
}

/// The duration of sample `i` (0-based).
pub open spec fn sample_delta(timing: Seq<(u32, u32)>, i: int) -> u32 {
    runs::expand(timing)[i]
}

/// Whether sample `i` is the last one that starts at or before tick `t`.
pub open spec fn is_last_started(timing: Seq<(u32, u32)>, t: int, i: int) -> bool {
    &&& 0 <= i < runs::run_total(timing)
    &&& sample_start(timing, i) <= t
    &&& i + 1 < runs::run_total(timing) ==> sample_start(timing, i + 1) > t
}

/// The last sample that starts at or before tick `t`.
pub open spec fn last_started(timing: Seq<(u32, u32)>, t: int) -> int {
    choose|i: int| is_last_started(timing, t, i)
}

/// Samples of one run start one delta apart.
pub proof fn lemma_start_in_run(timing: Seq<(u32, u32)>, r: int, k: int)
    requires
        0 <= r < timing.len(),
        0 <= k < timing[r].0,
    ensures
        sample_start(timing, runs::run_total(timing.take(r)) + k) == run_ticks(timing.take(r)) + k
            * timing[r].1,
        runs::expand(timing).len() == runs::run_total(timing),
        runs::run_total(timing.take(r)) + k < runs::run_total(timing),
        sample_delta(timing, runs::run_total(timing.take(r)) + k) == timing[r].1,
        runs::run_total(timing.take(r + 1)) == runs::run_total(timing.take(r)) + timing[r].0,
        run_ticks(timing.take(r + 1)) == run_ticks(timing.take(r)) + timing[r].0 * timing[r].1,
    decreases timing.len(),
{
    runs::lemma_expand_len(timing);
    let init = timing.drop_last();
    runs::lemma_expand_len(init);
    assert(timing.take(r + 1).drop_last() =~= timing.take(r));
    if r == timing.len() - 1 {
        assert(timing.take(r) =~= init);
    } else {
        assert(init.take(r) =~= timing.take(r));
        lemma_start_in_run(init, r, k);
    }
}

/// What one more run adds.
pub proof fn lemma_take_step(timing: Seq<(u32, u32)>, r: int)
    requires
        0 <= r < timing.len(),
    ensures
        runs::run_total(timing.take(r + 1)) == runs::run_total(timing.take(r)) + timing[r].0,
        run_ticks(timing.take(r + 1)) == run_ticks(timing.take(r)) + timing[r].0 * timing[r].1,
{
    assert(timing.take(r + 1).drop_last() =~= timing.take(r));
}

/// A sample behind the first runs starts no earlier than they end.
proof fn lemma_start_after_runs(timing: Seq<(u32, u32)>, r: int, i: int)
    requires
        0 <= r <= timing.len(),
        runs::run_total(timing.take(r)) <= i < runs::run_total(timing),
    ensures
        sample_start(timing, i) >= run_ticks(timing.take(r)),
    decreases timing.len(),
{
    if r == timing.len() {
        assert(timing.take(r) =~= timing);
    } else {
        let init = timing.drop_last();
        assert(init.take(r) =~= timing.take(r));
        if i < runs::run_total(init) {
            lemma_start_after_runs(init, r, i);
        } else {
            lemma_ticks_grow(init, r);
            let d = timing.last().1 as int;
            let k = i - runs::run_total(init);
            assert(k * d >= 0) by (nonlinear_arith)
                requires
                    k >= 0,
                    d >= 0,
            ;
        }
    }
}

/// The first runs last no longer than all of them.
pub proof fn lemma_ticks_grow(timing: Seq<(u32, u32)>, r: int)
    requires
        0 <= r <= timing.len(),
    ensures
        run_ticks(timing.take(r)) <= run_ticks(timing),
        runs::run_total(timing.take(r)) <= runs::run_total(timing),
    decreases timing.len(),
{
    if r == timing.len() {
        assert(timing.take(r) =~= timing);
    } else {
        let init = timing.drop_last();
        assert(init.take(r) =~= timing.take(r));
        lemma_ticks_grow(init, r);
        let a = timing.last().0 as int;
        let b = timing.last().1 as int;
        assert(a * b >= 0) by (nonlinear_arith)
            requires
                a >= 0,
                b >= 0,
        ;
    }
}

/// A sample starts no later than the table ends.
pub proof fn lemma_start_le_ticks(timing: Seq<(u32, u32)>, i: int)
    requires
        0 <= i < runs::run_total(timing),
    ensures
        sample_start(timing, i) <= run_ticks(timing),
    decreases timing.len(),
{
    if timing.len() > 0 {
        let init = timing.drop_last();
        let a = timing.last().0 as int;
        let b = timing.last().1 as int;
        if i < runs::run_total(init) {
            lemma_start_le_ticks(init, i);
            assert(a * b >= 0) by (nonlinear_arith)
                requires
                    a >= 0,
                    b >= 0,
            ;
        } else {
            let k = i - runs::run_total(init);
            assert(k * b <= a * b) by (nonlinear_arith)
                requires
                    0 <= k <= a,
                    b >= 0,
            ;
        }
    }
}

/// Samples start in order.
pub proof fn law_starts_in_order(timing: Seq<(u32, u32)>, i: int, j: int)
    requires
        0 <= i <= j < runs::run_total(timing),
    ensures
        sample_start(timing, i) <= sample_start(timing, j),
    decreases timing.len(),
{
    if timing.len() > 0 {
        let init = timing.drop_last();
        let total = runs::run_total(init);
        let d = timing.last().1 as int;
        if j < total {
            law_starts_in_order(init, i, j);
        } else if i < total {
            lemma_start_le_ticks(init, i);
            let k = j - total;
            assert(k * d >= 0) by (nonlinear_arith)
                requires
                    k >= 0,
                    d >= 0,
            ;
        } else {
            let a = i - total;
            let b = j - total;
            assert(a * d <= b * d) by (nonlinear_arith)
                requires
                    a <= b,
                    d >= 0,
            ;
        }
    }
}

/// A sample ends where the next one starts.
pub proof fn law_sample_ends_at_next_start(timing: Seq<(u32, u32)>, i: int)
    requires
        0 <= i,
        i + 1 < runs::run_total(timing),
    ensures
        sample_start(timing, i + 1) == sample_start(timing, i) + sample_delta(timing, i),
    decreases timing.len(),
{
    runs::lemma_expand_len(timing);
    if timing.len() > 0 {
        let init = timing.drop_last();
        runs::lemma_expand_len(init);
        let total = runs::run_total(init);
        let d = timing.last().1 as int;
        if i + 1 < total {
            law_sample_ends_at_next_start(init, i);
        } else if i + 1 == total {
            lemma_last_sample_end(init);
            assert(0 * d == 0) by (nonlinear_arith);
        } else {
            let k = i - total;
            assert((k + 1) * d == k * d + d) by (nonlinear_arith);
        }
    }
}

pub(crate) proof fn lemma_last_sample_end(timing: Seq<(u32, u32)>)
    requires
        runs::run_total(timing) > 0,
    ensures
        run_ticks(timing) == sample_start(timing, runs::run_total(timing) - 1) + sample_delta(
            timing,
            runs::run_total(timing) - 1,
        ),
    decreases timing.len(),
{
    runs::lemma_expand_len(timing);
    if timing.len() > 0 {
        let init = timing.drop_last();
        runs::lemma_expand_len(init);
        let c = timing.last().0 as int;
        let d = timing.last().1 as int;
        if c == 0 {
            lemma_last_sample_end(init);
            assert(c * d == 0) by (nonlinear_arith)
                requires
                    c == 0,
            ;
        } else {
            assert((c - 1) * d + d == c * d) by (nonlinear_arith);
        }
    }
}

/// At most one sample is the last one started.
proof fn lemma_last_started_unique(timing: Seq<(u32, u32)>, t: int, i: int)
    requires
        is_last_started(timing, t, i),
    ensures
        last_started(timing, t) == i,
{
    let j = last_started(timing, t);
    assert(is_last_started(timing, t, j));
    if i < j {
        law_starts_in_order(timing, i + 1, j);
    } else if j < i {
        law_starts_in_order(timing, j + 1, i);
    }
}

/// The last sample that starts at or before tick `t`.
fn find_last_started(timing: &[(u32, u32)], t: u64) -> (r: usize)
    requires
        0 < runs::run_total(timing@) <= usize::MAX,
    ensures
        r == last_started(timing@, t as int),
        is_last_started(timing@, t as int, r as int),
{
    let mut base: usize = 0;
    let mut ticks: u128 = 0;
    let mut i: usize = 0;
    while i < timing.len() && ticks <= t as u128
        invariant
            i <= timing@.len(),
            0 < runs::run_total(timing@) <= usize::MAX,
            base == runs::run_total(timing@.take(i as int)),
            ticks == run_ticks(timing@.take(i as int)),
            ticks <= 0x2_0000_0000_0000_0000,
            ticks > 0 ==> base > 0,
            base > 0 ==> base - 1 < runs::run_total(timing@) && sample_start(timing@, base - 1)
                <= t,
        decreases timing@.len() - i,
    {
        let (count, delta): (u32, u32) = timing[i];
        proof {
            lemma_take_step(timing@, i as int);
            lemma_ticks_grow(timing@, i + 1);
            assert(count as int * delta as int <= 0xffff_ffff * 0xffff_ffff) by (nonlinear_arith)
                requires
                    0 <= count <= 0xffff_ffff,
                    0 <= delta <= 0xffff_ffff,
            ;
        }
        if count > 0 {
            let behind: u64 = t - (ticks as u64);
            let room: bool = delta != 0 && behind / (delta as u64) < count as u64;
            if room {
                let k: u64 = behind / (delta as u64);
                proof {
                    let d = delta as int;
                    vstd::arithmetic::div_mod::lemma_fundamental_div_mod(behind as int, d);
                    assert(d * k == k * d) by (nonlinear_arith);
                    assert((k + 1) * d == k * d + d) by (nonlinear_arith);
                    assert(0 <= behind as int % d < d) by (nonlinear_arith)
                        requires
                            d > 0,
                    ;
                    lemma_start_in_run(timing@, i as int, k as int);
                    let at = base + k;
                    if at + 1 < runs::run_total(timing@) {
                        if k + 1 < count {
                            lemma_start_in_run(timing@, i as int, k + 1);
                        } else {
                            assert(k + 1 == count);
                            lemma_start_after_runs(timing@, i + 1, at + 1);
                        }
                    }
                    assert(is_last_started(timing@, t as int, at as int));
                    lemma_last_started_unique(timing@, t as int, at as int);
                }
                return base + k as usize;
            }
            proof {
                let d = delta as int;
                let c = count as int;
                lemma_start_in_run(timing@, i as int, c - 1);
                if delta != 0 {
                    vstd::arithmetic::div_mod::lemma_fundamental_div_mod(behind as int, d);
                    let q = behind as int / d;
                    assert(0 <= behind as int % d) by (nonlinear_arith)
                        requires
                            d > 0,
                    ;
                    assert((c - 1) * d <= d * q) by (nonlinear_arith)
                        requires
                            c - 1 <= q,
                            d > 0,
                    ;
                } else {
                    assert((c - 1) * d == 0) by (nonlinear_arith)
                        requires
                            d == 0,
                    ;
                }
            }
        } else {
            proof {
                assert(count as int * delta as int == 0) by (nonlinear_arith)
                    requires
                        count == 0,
                ;
            }
        }
        base = base + count as usize;
        let span: u64 = (count as u64) * (delta as u64);
        ticks = ticks + span as u128;
        i = i + 1;
    }
    proof {
        if i == timing@.len() {
            assert(timing@.take(i as int) =~= timing@);
        }
        assert(base > 0);
        if base < runs::run_total(timing@) {
            lemma_start_after_runs(timing@, i as int, base as int);
        }
        assert(is_last_started(timing@, t as int, base - 1));
        lemma_last_started_unique(timing@, t as int, base - 1);
    }
    base - 1
}

/// The tick at which a sample starts, and its duration.
fn start_and_delta(timing: &[(u32, u32)], index: usize) -> (r: (u64, u32))
    requires
        index < runs::run_total(timing@) <= usize::MAX,
        sample_start(timing@, index as int) <= u64::MAX,
    ensures
        r.0 == sample_start(timing@, index as int),
        r.1 == sample_delta(timing@, index as int),
{
    let mut base: usize = 0;
    let mut ticks: u64 = 0;
    let mut i: usize = 0;
    while i < timing.len()
        invariant
            i <= timing@.len(),
            base <= index < runs::run_total(timing@) <= usize::MAX,
            base == runs::run_total(timing@.take(i as int)),
            ticks == run_ticks(timing@.take(i as int)),
            sample_start(timing@, index as int) <= u64::MAX,
        decreases timing@.len() - i,
    {
        let (count, delta): (u32, u32) = timing[i];
        proof {
            lemma_take_step(timing@, i as int);
        }
        if index - base < count as usize {
            let k: u64 = (index - base) as u64;
            proof {
                lemma_start_in_run(timing@, i as int, k as int);
                assert(k as int * delta as int <= 0xffff_ffff * 0xffff_ffff) by (nonlinear_arith)
                    requires
                        0 <= k <= 0xffff_ffff,
                        0 <= delta <= 0xffff_ffff,
                ;
            }
            let within: u64 = k * (delta as u64);
            return (ticks + within, delta);
        }
        proof {
            lemma_start_after_runs(timing@, i + 1, index as int);
            assert(count as int * delta as int <= 0xffff_ffff * 0xffff_ffff) by (nonlinear_arith)
                requires
                    0 <= count <= 0xffff_ffff,
                    0 <= delta <= 0xffff_ffff,
            ;
        }
        let span: u64 = (count as u64) * (delta as u64);
        ticks = ticks + span;
        base = base + count as usize;
        i = i + 1;
    }
    proof {
        assert(timing@.take(i as int) =~= timing@);
    }
    (0, 0)
}

/// A sync sample number as a 0-based index, zero standing for the first sample.
pub open spec fn sync_index(n: u32) -> int {
    if n == 0 {
        0
    } else {
        n - 1
    }
}

/// Where a binary search between `lo` and `hi` puts `idx` among sync sample
/// numbers: behind the entries it takes to be at or before `idx`.
pub open spec fn partition(stss: Seq<u32>, idx: int, lo: int, hi: int) -> int
    decreases hi - lo,
{
    if lo >= hi {
        lo
    } else {
        let mid = lo + (hi - lo) / 2;
        if sync_index(stss[mid]) <= idx {
            partition(stss, idx, mid + 1, hi)
        } else {
            partition(stss, idx, lo, mid)
        }
    }
}

/// The sync sample that sample `idx` is decoded from: the entry before the
/// partition point, else the first sample.
pub open spec fn aligned(stss: Seq<u32>, idx: int) -> int {
    let p = partition(stss, idx, 0, stss.len() as int);
    if p == 0 {
        0
    } else {
        sync_index(stss[p - 1])
    }
}

proof fn lemma_partition(stss: Seq<u32>, idx: int, lo: int, hi: int)
    requires
        0 <= lo <= hi <= stss.len(),
    ensures
        lo <= partition(stss, idx, lo, hi) <= hi,
        partition(stss, idx, lo, hi) > lo ==> sync_index(stss[partition(stss, idx, lo, hi) - 1])
            <= idx,
    decreases hi - lo,
{
    if lo < hi {
        let mid = lo + (hi - lo) / 2;
        if sync_index(stss[mid]) <= idx {
            lemma_partition(stss, idx, mid + 1, hi);
        } else {
            lemma_partition(stss, idx, lo, mid);
        }
    }
}

/// Among sync sample numbers in order, the partition point has every entry at
/// or before `idx` in front of it and every later entry behind it.
pub proof fn law_partition_of_sorted(stss: Seq<u32>, idx: int, lo: int, hi: int)
    requires
        0 <= lo <= hi <= stss.len(),
        forall|i: int, j: int| 0 <= i <= j < stss.len() ==> stss[i] <= stss[j],
    ensures
        lo <= partition(stss, idx, lo, hi) <= hi,
        forall|k: int|
            lo <= k < partition(stss, idx, lo, hi) ==> sync_index(#[trigger] stss[k]) <= idx,
        forall|k: int|
            partition(stss, idx, lo, hi) <= k < hi ==> sync_index(#[trigger] stss[k]) > idx,
    decreases hi - lo,
{
    if lo < hi {
        let mid = lo + (hi - lo) / 2;
        if sync_index(stss[mid]) <= idx {
            law_partition_of_sorted(stss, idx, mid + 1, hi);
        } else {
            law_partition_of_sorted(stss, idx, lo, mid);
        }
    }
}

/// The sync sample that sample `idx` is decoded from, see `aligned`.
fn align_to_sync(stss: &[u32], idx: usize) -> (r: usize)
    ensures
        r == aligned(stss@, idx as int),
        r <= idx,
{
    let mut lo: usize = 0;
    let mut hi: usize = stss.len();
    while lo < hi
        invariant
            lo <= hi <= stss@.len(),
            partition(stss@, idx as int, 0, stss@.len() as int) == partition(
                stss@,
                idx as int,
                lo as int,
                hi as int,
            ),
        decreases hi - lo,
    {
        let mid: usize = lo + (hi - lo) / 2;
        let z: usize = if stss[mid] == 0 {
            0
        } else {
            (stss[mid] - 1) as usize
        };
        if z <= idx {
            lo = mid + 1;
        } else {
            hi = mid;
        }
    }
    proof {
        lemma_partition(stss@, idx as int, 0, stss@.len() as int);
    }
    if lo == 0 || stss[lo - 1] == 0 {
        0
    } else {
        (stss[lo - 1] - 1) as usize
    }
}

/// Selection result describing which samples fall into a requested time range.
#[derive(Debug, Clone, Copy, PartialEq)]
pub struct TimeSelection {
    /// First selected sample index (0-based).
    pub start_index: usize,
    /// Last selected sample index (inclusive, 0-based).
    pub end_index: usize,
    /// Tick at which `start_index` starts.
    pub adjusted_start: u64,
    /// Tick at which `end_index` ends.
    pub adjusted_end: u128,
}

/// Why no sample is selected.
#[derive(Debug, Clone, Copy, PartialEq, Eq)]
pub enum SelectionError {
    InvalidRange,
    NoSamples,
    EmptySelection,
}

impl SelectionError {
    /// The error in words.
    pub fn message(self) -> (r: &'static str)
        ensures
            r@ == (match self {
                SelectionError::InvalidRange => "invalid time range"@,
                SelectionError::NoSamples => "no samples"@,
                SelectionError::EmptySelection => "empty selection"@,
            }),
    {
        match self {
            SelectionError::InvalidRange => "invalid time range",
            SelectionError::NoSamples => "no samples",
            SelectionError::EmptySelection => "empty selection",
        }
    }
}

/// The first sample of a selection that begins at tick `start`: the last one
/// started by then, moved back to a sync sample where sync samples are given.
pub open spec fn selection_start(
    timing: Seq<(u32, u32)>,
    stss: Option<Seq<u32>>,
    start: int,
) -> int {
    let first = last_started(timing, start);
    match stss {
        Some(list) => if list.len() == 0 {
            first
        } else {
            aligned(list, first)
        },
        None => first,
    }
}

/// The samples that cover the ticks `start..end`. A range that ends with the
/// first tick of all holds nothing; any other must end behind its start.
pub open spec fn selection(
    timing: Seq<(u32, u32)>,
    stss: Option<Seq<u32>>,
    start: int,
    end: int,
) -> Result<TimeSelection, SelectionError> {
    if end != 0 && start >= end {
        Err(SelectionError::InvalidRange)
    } else if timing.len() == 0 {
        Err(SelectionError::NoSamples)
    } else if end == 0 {
        Err(SelectionError::EmptySelection)
    } else if runs::run_total(timing) == 0 {
        Err(SelectionError::NoSamples)
    } else {
        let s = selection_start(timing, stss, start);
        let e = last_started(timing, end - 1);
        if e < s {
            Err(SelectionError::EmptySelection)
        } else {
            Ok(
                TimeSelection {
                    start_index: s as usize,
                    end_index: e as usize,
                    adjusted_start: sample_start(timing, s) as u64,
                    adjusted_end: (sample_start(timing, e) + sample_delta(timing, e)) as u128,
                },
            )
        }
    }
}

pub(crate) proof fn lemma_first_start(timing: Seq<(u32, u32)>)
    ensures
        sample_start(timing, 0) == 0,
        runs::run_total(timing) == 0 ==> run_ticks(timing) == 0,
    decreases timing.len(),
{
    if timing.len() > 0 {
        lemma_first_start(timing.drop_last());
        let d = timing.last().1 as int;
        assert(0 * d == 0) by (nonlinear_arith);
    }
}

proof fn lemma_last_started_exists(timing: Seq<(u32, u32)>, t: int, i: int)
    requires
        0 <= i < runs::run_total(timing),
        sample_start(timing, i) <= t,
    ensures
        is_last_started(timing, t, last_started(timing, t)),
    decreases runs::run_total(timing) - i,
{
    if i + 1 < runs::run_total(timing) && sample_start(timing, i + 1) <= t {
        lemma_last_started_exists(timing, t, i + 1);
    } else {
        assert(is_last_started(timing, t, i));
    }
}

/// A selection covers its time range: its first sample starts at or before
/// the range does, and is a listed sync sample or the first sample of all
/// where sync samples are given; its last sample starts before the end of the
/// range, and no later one does.
pub proof fn law_selection_covers(
    timing: Seq<(u32, u32)>,
    stss: Option<Seq<u32>>,
    start: int,
    end: int,
)
    requires
        0 <= start,
        0 <= end,
        runs::run_total(timing) <= usize::MAX,
        selection(timing, stss, start, end) is Ok,
    ensures
        ({
            let sel = selection(timing, stss, start, end)->Ok_0;
            &&& sel.start_index <= sel.end_index < runs::run_total(timing)
            &&& sample_start(timing, sel.start_index as int) <= start
            &&& sample_start(timing, sel.end_index as int) < end
            &&& sel.end_index + 1 < runs::run_total(timing) ==> sample_start(
                timing,
                sel.end_index + 1,
            ) >= end
            &&& stss matches Some(list) ==> list.len() > 0 ==> sel.start_index == 0 || exists|
                k: int,
            |
                0 <= k < list.len() && sel.start_index == sync_index(#[trigger] list[k])
        }),
{
    let total = runs::run_total(timing);
    lemma_first_start(timing);
    lemma_last_started_exists(timing, start, 0);
    lemma_last_started_exists(timing, end - 1, 0);
    let first = last_started(timing, start);
    if let Some(list) = stss {
        if list.len() > 0 {
            lemma_partition(list, first, 0, list.len() as int);
            let p = partition(list, first, 0, list.len() as int);
            if p > 0 {
                assert(sync_index(list[p - 1]) <= first);
            }
        }
    }
    let s0 = selection_start(timing, stss, start);
    assert(0 <= s0 <= first);
    law_starts_in_order(timing, s0, first);
}

/// A range of ticks that starts before its end is covered wherever there are
/// samples, and no other is. The selection starts no earlier than it has to: with
/// the sample that runs at the start of the range or, where sync samples are
/// told in order, with the last of them that starts no later. It tells when it
/// starts and when it ends.
pub proof fn law_selection_is_tight(
    timing: Seq<(u32, u32)>,
    stss: Option<Seq<u32>>,
    start: int,
    end: int,
)
    requires
        0 <= start,
        0 <= end,
        0 < runs::run_total(timing) <= usize::MAX,
    ensures
        start < end <==> selection(timing, stss, start, end) is Ok,
        selection(timing, stss, start, end) matches Ok(sel) ==> {
            &&& stss is None ==> sel.start_index + 1 < runs::run_total(timing) ==> sample_start(
                timing,
                sel.start_index + 1,
            ) > start
            &&& stss matches Some(list) ==> (forall|i: int, j: int|
                0 <= i <= j < list.len() ==> list[i] <= list[j]) ==> forall|k: int|
                0 <= k < list.len() && sel.start_index < sync_index(#[trigger] list[k])
                    < runs::run_total(timing) ==> sample_start(timing, sync_index(list[k])) > start
            &&& sample_start(timing, sel.start_index as int) <= u64::MAX ==> sel.adjusted_start
                == sample_start(timing, sel.start_index as int)
            &&& sample_start(timing, sel.end_index as int) <= u64::MAX ==> sel.adjusted_end
                == sample_start(timing, sel.end_index as int) + runs::expand(
                timing,
            )[sel.end_index as int]
        },
{
    let total = runs::run_total(timing);
    lemma_first_start(timing);
    lemma_last_started_exists(timing, start, 0);
    let first = last_started(timing, start);
    assert(is_last_started(timing, start, first));
    if let Some(list) = stss {
        if list.len() > 0 {
            lemma_partition(list, first, 0, list.len() as int);
        }
    }
    let s = selection_start(timing, stss, start);
    assert(0 <= s <= first);
    if start < end {
        lemma_last_started_exists(timing, end - 1, 0);
        let e = last_started(timing, end - 1);
        if e < first {
            law_starts_in_order(timing, e + 1, first);
        }
        assert(s <= e);
        if let Some(list) = stss {
            if forall|i: int, j: int| 0 <= i <= j < list.len() ==> list[i] <= list[j] {
                law_partition_of_sorted(list, first, 0, list.len() as int);
                let p = partition(list, first, 0, list.len() as int);
                assert forall|k: int|
                    0 <= k < list.len() && s < sync_index(#[trigger] list[k]) < total implies
                    sample_start(timing, sync_index(list[k])) > start by {
                    if k < p {
                        assert(list[k] <= list[p - 1]);
                        assert(sync_index(list[k]) <= sync_index(list[p - 1]));
                    }
                    assert(sync_index(list[k]) > first);
                    law_starts_in_order(timing, first + 1, sync_index(list[k]));
                }
            }
        }
    }
}

/// What an optional list of numbers holds.
pub open spec fn list_view(s: Option<&[u32]>) -> Option<Seq<u32>> {
    match s {
        Some(list) => Some(list@),
        None => None,
    }
}

/// Given a timing table and optional sync samples, select the sample indices
/// that cover the ticks `[start, end)`.
///
/// - If sync samples are given, the start aligns to the previous keyframe.
/// - The end is truncated so that all samples that start before `end` are taken.
/// - Returns an error if `start >= end` or if no samples exist.
pub fn select_samples_by_time(
    timing: &[(u32, u32)],
    stss_1based: Option<&[u32]>,
    start: u64,
    end: u64,
) -> (r: Result<TimeSelection, SelectionError>)
    requires
        runs::run_total(timing@) <= usize::MAX,
    ensures
        r == selection(timing@, list_view(stss_1based), start as int, end as int),
        r matches Ok(sel) ==> sel.start_index <= sel.end_index < runs::run_total(timing@),
{
    if end != 0 && start >= end {
        return Err(SelectionError::InvalidRange);
    }
    if timing.len() == 0 {
        return Err(SelectionError::NoSamples);
    }
    if end == 0 {
        return Err(SelectionError::EmptySelection);
    }
    let total: usize = total_samples(timing);
    if total == 0 {
        return Err(SelectionError::NoSamples);
    }
    let first: usize = find_last_started(timing, start);
    let start_index: usize = match stss_1based {
        Some(stss) => if stss.len() == 0 {
            first
        } else {
            align_to_sync(stss, first)
        },
        None => first,
    };
    let end_index: usize = find_last_started(timing, end - 1);
    if end_index < start_index {
        return Err(SelectionError::EmptySelection);
    }
    proof {
        law_starts_in_order(timing@, start_index as int, first as int);
    }
    let (adjusted_start, _first_delta): (u64, u32) = start_and_delta(timing, start_index);
    let (last_start, last_delta): (u64, u32) = start_and_delta(timing, end_index);
    let adjusted_end: u128 = last_start as u128 + last_delta as u128;
    Ok(TimeSelection { start_index, end_index, adjusted_start, adjusted_end })
}

/// The number of samples that a timing table stands for.
fn total_samples(timing: &[(u32, u32)]) -> (r: usize)
    requires
        runs::run_total(timing@) <= usize::MAX,
    ensures
        r == runs::run_total(timing@),
{
    let mut total: usize = 0;
    let mut i: usize = 0;
    while i < timing.len()
        invariant
            i <= timing@.len(),
            runs::run_total(timing@) <= usize::MAX,
            total == runs::run_total(timing@.take(i as int)),
        decreases timing@.len() - i,
    {
        proof {
            lemma_take_step(timing@, i as int);
            lemma_ticks_grow(timing@, i + 1);
        }
        total = total + timing[i].0 as usize;
        i = i + 1;
    }
    assert(timing@.take(i as int) =~= timing@);
    total
}

/// Whether the samples of a timing table can be counted.
pub fn samples_fit(timing: &[(u32, u32)]) -> (r: bool)
    ensures
        r == (runs::run_total(timing@) <= usize::MAX),
{
    let mut total: usize = 0;
    let mut i: usize = 0;
    while i < timing.len()
        invariant
            i <= timing@.len(),
            total == runs::run_total(timing@.take(i as int)),
        decreases timing@.len() - i,
    {
        proof {
            lemma_take_step(timing@, i as int);
            lemma_ticks_grow(timing@, i + 1);
        }
        match total.checked_add(timing[i].0 as usize) {
            Some(sum) => {
                total = sum;
            },
            None => {
                return false;
            },
        }
        i = i + 1;
    }
    assert(timing@.take(i as int) =~= timing@);
    true
}

/// The low 64 bits of a number.
pub open spec fn wrap64(n: int) -> u64 {
    (n % 0x1_0000_0000_0000_0000) as u64
}

/// The (start tick, duration) of every sample of a timing table. Start ticks
/// are kept to 64 bits.
pub open spec fn timestamps(timing: Seq<(u32, u32)>) -> Seq<(u64, u32)> {
    Seq::new(
        runs::run_total(timing),
        |i: int| (wrap64(sample_start(timing, i) as int), sample_delta(timing, i)),
    )
}

/// Build per-sample timestamps from `(count, delta)` timing pairs.
pub fn build_timestamps(timing: &[(u32, u32)]) -> (r: Vec<(u64, u32)>)
    ensures
        r@ == timestamps(timing@),
{
    let mut out: Vec<(u64, u32)> = Vec::new();
    let mut t: u64 = 0;
    let mut i: usize = 0;
    while i < timing.len()
        invariant
            i <= timing@.len(),
            out@.len() == runs::run_total(timing@.take(i as int)),
            t == wrap64(run_ticks(timing@.take(i as int)) as int),
            out@.len() <= runs::run_total(timing@),
            forall|j: int| 0 <= j < out@.len() ==> out@[j] == timestamps(timing@)[j],
        decreases timing@.len() - i,
    {
        let (count, delta): (u32, u32) = timing[i];
        let ghost base = run_ticks(timing@.take(i as int)) as int;
        let mut k: u32 = 0;
        proof {
            assert(0 * delta as int == 0) by (nonlinear_arith);
            lemma_take_step(timing@, i as int);
            lemma_ticks_grow(timing@, i + 1);
        }
        while k < count
            invariant
                0 <= i < timing@.len(),
                timing@[i as int] == (count, delta),
                base == run_ticks(timing@.take(i as int)),
                k <= count,
                out@.len() == runs::run_total(timing@.take(i as int)) + k,
                runs::run_total(timing@.take(i as int)) + count <= runs::run_total(timing@),
                t == wrap64(base + k * delta),
                forall|j: int| 0 <= j < out@.len() ==> out@[j] == timestamps(timing@)[j],
            decreases count - k,
        {
            proof {
                lemma_start_in_run(timing@, i as int, k as int);
                assert((k + 1) * delta == k * delta + delta) by (nonlinear_arith);
            }
            out.push((t, delta));
            t = t.wrapping_add(delta as u64);
            k = k + 1;
        }
        i = i + 1;
    }
    assert(timing@.take(i as int) =~= timing@);
    assert(out@ =~= timestamps(timing@));
    out
}

/// The samples per chunk that an `stsc` table gives from entry `i` on: of the
/// first entry that the chunk is not before, unless the next entry claims the
/// chunk; one where no entry applies.
pub open spec fn samples_in_chunk(chunk_num: u32, stsc: Seq<(u32, u32)>, i: int) -> u32
    decreases stsc.len() - i,
{
    if i < 0 || i >= stsc.len() {
        1
    } else if chunk_num >= stsc[i].0 && (i + 1 >= stsc.len() || chunk_num < stsc[i + 1].0) {
        stsc[i].1
    } else {
        samples_in_chunk(chunk_num, stsc, i + 1)
    }
}

/// The number of samples in a chunk (1-based) by the `stsc` table.
pub fn get_samples_in_chunk(chunk_num: u32, sample_to_chunk: &[(u32, u32)]) -> (r: u32)
    ensures
        r == samples_in_chunk(chunk_num, sample_to_chunk@, 0),
{
    let mut i: usize = 0;
    while i < sample_to_chunk.len()
        invariant
            i <= sample_to_chunk@.len(),
            samples_in_chunk(chunk_num, sample_to_chunk@, 0) == samples_in_chunk(
                chunk_num,
                sample_to_chunk@,
                i as int,
            ),
        decreases sample_to_chunk@.len() - i,
    {
        if chunk_num >= sample_to_chunk[i].0 && (i + 1 >= sample_to_chunk.len() || chunk_num
            < sample_to_chunk[i + 1].0) {
            return sample_to_chunk[i].1;
        }
        i = i + 1;
    }
    1
}

/// One sample: where it is stored and when it is shown.
#[derive(Debug, Clone, Copy, PartialEq)]
pub struct SampleInfo {
    pub index: usize,
    pub offset: u64,
    pub size: usize,
    /// Start, in ticks.
    pub start: u64,
    /// Duration, in ticks.
    pub duration: u32,
}

/// The bytes of the samples `a..b`.
pub open spec fn size_sum(sizes: Seq<u32>, a: int, b: int) -> nat
    decreases b - a,
{
    if b <= a {
        0
    } else {
        size_sum(sizes, a, b - 1) + sizes[b - 1] as nat
    }
}

/// Sample `i` of a track, where its chunk starts with sample `first`.
/// Offsets are kept to 64 bits.
pub open spec fn placed_sample(
    t: tables::TablesView,
    chunk: int,
    first: int,
    i: int,
) -> SampleInfo {
    SampleInfo {
        index: i as usize,
        offset: wrap64(t.offsets[chunk] + size_sum(t.sizes, first, i)),
        size: t.sizes[i] as usize,
        start: timestamps(t.timing)[i].0,
        duration: timestamps(t.timing)[i].1,
    }
}

/// The number of samples that have both a size and a time.
pub open spec fn sample_limit(t: tables::TablesView) -> int {
    runs::least(t.sizes.len() as int, runs::run_total(t.timing) as int)
}

/// The samples of the first `chunks` chunks of a track.
pub open spec fn samples_through(t: tables::TablesView, chunks: nat) -> Seq<SampleInfo>
    decreases chunks,
{
    if chunks == 0 {
        Seq::empty()
    } else {
        let before = samples_through(t, (chunks - 1) as nat);
        let first = before.len() as int;
        let n = runs::least(
            samples_in_chunk(boxes::wrap32(chunks), t.stsc, 0) as int,
            sample_limit(t) - first,
        );
        before + Seq::new(n as nat, |j: int| placed_sample(t, chunks - 1, first, first + j))
    }
}

/// No more samples are placed than have both a size and a time.
pub proof fn lemma_samples_bound(t: tables::TablesView, chunks: nat)
    ensures
        samples_through(t, chunks).len() <= sample_limit(t),
    decreases chunks,
{
    if chunks > 0 {
        lemma_samples_bound(t, (chunks - 1) as nat);
    }
}

/// Samples are placed in the order of their indices.
pub proof fn lemma_placed_index(t: tables::TablesView, chunks: nat, i: int)
    requires
        0 <= i < samples_through(t, chunks).len(),
    ensures
        samples_through(t, chunks)[i].index == i as usize,
        i < sample_limit(t),
    decreases chunks,
{
    lemma_samples_bound(t, chunks);
    if chunks > 0 && i < samples_through(t, (chunks - 1) as nat).len() {
        lemma_placed_index(t, (chunks - 1) as nat, i);
    }
}

/// Enumerate per-sample information derived from the tables of a track.
pub fn enumerate_samples(tables: &TrackTables) -> (r: Vec<SampleInfo>)
    ensures
        r@ == samples_through(tables@, tables.offsets@.len()),
{
    let stamps: Vec<(u64, u32)> = build_timestamps(tables.timing.as_slice());
    let mut out: Vec<SampleInfo> = Vec::new();
    let limit: usize = if tables.sizes.len() < stamps.len() {
        tables.sizes.len()
    } else {
        stamps.len()
    };
    let mut chunk: usize = 0;
    while chunk < tables.offsets.len()
        invariant
            chunk <= tables.offsets@.len(),
            limit == sample_limit(tables@),
            limit <= tables.sizes@.len(),
            limit <= stamps@.len(),
            stamps@ == timestamps(tables.timing@),
            out@ == samples_through(tables@, chunk as nat),
        decreases tables.offsets@.len() - chunk,
    {
        let in_chunk: u32 = get_samples_in_chunk(low32(chunk + 1), tables.stsc.as_slice());
        let chunk_offset: u64 = tables.offsets[chunk];
        let mut off: u64 = chunk_offset;
        let mut k: u32 = 0;
        let ghost before = out@;
        let first: usize = out.len();
        proof {
            lemma_samples_bound(tables@, chunk as nat);
        }
        while k < in_chunk && out.len() < limit
            invariant
                chunk < tables.offsets@.len(),
                limit == sample_limit(tables@),
                limit <= tables.sizes@.len(),
                limit <= stamps@.len(),
                stamps@ == timestamps(tables.timing@),
                chunk_offset == tables.offsets@[chunk as int],
                first == before.len(),
                first + k <= limit,
                k <= in_chunk,
                out@.len() == first + k,
                off == wrap64(chunk_offset + size_sum(tables.sizes@, first as int, first + k)),
                out@ == before + Seq::new(
                    k as nat,
                    |j: int| placed_sample(tables@, chunk as int, first as int, first + j),
                ),
            decreases in_chunk - k,
        {
            let index: usize = first + k as usize;
            let size: u32 = tables.sizes[index];
            out.push(
                SampleInfo {
                    index,
                    offset: off,
                    size: size as usize,
                    start: stamps[index].0,
                    duration: stamps[index].1,
                },
            );
            off = off.wrapping_add(size as u64);
            k = k + 1;
            assert(out@ =~= before + Seq::new(
                k as nat,
                |j: int| placed_sample(tables@, chunk as int, first as int, first + j),
            ));
        }
        chunk = chunk + 1;
        assert(out@ =~= samples_through(tables@, chunk as nat));
    }
    out
}

} // verus!
