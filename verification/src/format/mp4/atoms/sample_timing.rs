//! When samples are decoded and when they are shown.

use vstd::prelude::*;
use super::samples;
use super::samples::table_entries;
use crate::bytes;
use crate::bytes::read_u32_be;
use crate::helpers::runs;
use crate::helpers::tables;
use crate::helpers::tables::to_signed32;
use crate::helpers::timing;

verus! {

// --------------------
// Tables
// --------------------

/// A run of samples that are shown at the same distance from their decoding.
#[derive(Debug, Clone, Copy, PartialEq, Eq, Structural)]
pub struct CompositionOffset {
    pub sample_count: u32,
    pub sample_offset: i64,
}

/// The (count, offset) runs of a list.
pub open spec fn offset_runs(offsets: Seq<CompositionOffset>) -> Seq<(u32, i64)> {
    Seq::new(offsets.len(), |i: int| (offsets[i].sample_count, offsets[i].sample_offset))
}

/// The entries of a `ctts` payload, where all of them fit. Version 0 holds
/// unsigned offsets, version 1 signed ones.
pub open spec fn ctts_offsets(ctts: Seq<u8>) -> Option<Seq<CompositionOffset>> {
    if ctts.len() == 0 || ctts[0] > 1 {
        None
    } else {
        match samples::counted(ctts, 8) {
            Some(n) => Some(
                Seq::new(
                    n,
                    |i: int|
                        CompositionOffset {
                            sample_count: bytes::be32(ctts, 8 + 8 * i),
                            sample_offset: if ctts[0] == 0 {
                                bytes::be32(ctts, 12 + 8 * i) as i64
                            } else {
                                tables::signed32(bytes::be32(ctts, 12 + 8 * i)) as i64
                            },
                        },
                ),
            ),
            None => None,
        }
    }
}

/// Reads the composition offsets of a `ctts` payload.
pub fn parse_ctts(ctts: &[u8]) -> (r: Option<Vec<CompositionOffset>>)
    ensures
        tables::vec_view(r) == ctts_offsets(ctts@),
{
    if ctts.len() == 0 || ctts[0] > 1 {
        return None;
    }
    let signed: bool = ctts[0] == 1;
    let count: usize = match table_entries(ctts, 8) {
        Some(n) => n,
        None => {
            return None;
        },
    };
    let mut out: Vec<CompositionOffset> = Vec::new();
    let len: usize = ctts.len();
    let mut i: usize = 0;
    while i < count
        invariant
            i <= count,
            len == ctts@.len(),
            signed == (ctts@[0] == 1),
            ctts_offsets(ctts@) is Some,
            samples::counted(ctts@, 8) == Some(count as nat),
            out@ == ctts_offsets(ctts@)->0.take(i as int),
        decreases count - i,
    {
        proof {
            samples::lemma_counted_in_bounds(ctts@, 8, i as int);
        }
        let at: usize = 8 + 8 * i;
        match (read_u32_be(ctts, at), read_u32_be(ctts, at + 4)) {
            (Some(sample_count), Some(word)) => {
                let sample_offset: i64 = if signed {
                    to_signed32(word) as i64
                } else {
                    word as i64
                };
                out.push(CompositionOffset { sample_count, sample_offset });
                proof {
                    let all = ctts_offsets(ctts@)->0;
                    assert(all.take(i + 1) =~= all.take(i as int).push(all[i as int]));
                }
            },
            _ => {
                return None;
            },
        }
        i = i + 1;
    }
    assert(ctts_offsets(ctts@)->0.take(count as int) =~= ctts_offsets(ctts@)->0);
    Some(out)
}

/// The (count, delta) entries of an `stts` payload, where all of them fit.
pub open spec fn stts_runs(stts: Seq<u8>) -> Option<Seq<(u32, u32)>> {
    match samples::counted(stts, 8) {
        Some(n) => Some(
            Seq::new(n, |i: int| (bytes::be32(stts, 8 + 8 * i), bytes::be32(stts, 12 + 8 * i))),
        ),
        None => None,
    }
}

/// Reads the runs of an `stts` payload.
pub fn parse_stts(stts: &[u8]) -> (r: Option<Vec<(u32, u32)>>)
    ensures
        tables::vec_view(r) == stts_runs(stts@),
{
    let count: usize = match table_entries(stts, 8) {
        Some(n) => n,
        None => {
            return None;
        },
    };
    let mut out: Vec<(u32, u32)> = Vec::new();
    let len: usize = stts.len();
    let mut i: usize = 0;
    while i < count
        invariant
            i <= count,
            len == stts@.len(),
            samples::counted(stts@, 8) == Some(count as nat),
            out@ == stts_runs(stts@)->0.take(i as int),
        decreases count - i,
    {
        proof {
            samples::lemma_counted_in_bounds(stts@, 8, i as int);
        }
        let at: usize = 8 + 8 * i;
        match (read_u32_be(stts, at), read_u32_be(stts, at + 4)) {
            (Some(n), Some(delta)) => {
                out.push((n, delta));
                proof {
                    let all = stts_runs(stts@)->0;
                    assert(all.take(i + 1) =~= all.take(i as int).push(all[i as int]));
                }
            },
            _ => {
                return None;
            },
        }
        i = i + 1;
    }
    assert(stts_runs(stts@)->0.take(count as int) =~= stts_runs(stts@)->0);
    Some(out)
}

/// The samples that the first `n` entries of an `stts` payload count.
pub open spec fn counted_samples(stts: Seq<u8>, n: nat) -> nat
    decreases n,
{
    if n == 0 {
        0
    } else {
        counted_samples(stts, (n - 1) as nat) + bytes::be32(stts, 8 + 8 * (n - 1)) as nat
    }
}

/// The samples that an `stts` payload counts, where the counts of all its
/// entries can be read and their sum fits 32 bits.
pub open spec fn stts_samples(stts: Seq<u8>) -> Option<u32> {
    if stts.len() < 8 {
        None
    } else {
        let n = bytes::be32(stts, 4) as nat;
        if (n > 0 && 8 * n + 4 > stts.len()) || counted_samples(stts, n) > u32::MAX {
            None
        } else {
            Some(counted_samples(stts, n) as u32)
        }
    }
}

proof fn lemma_counted_samples_grow(stts: Seq<u8>, k: nat, n: nat)
    requires
        k <= n,
    ensures
        counted_samples(stts, k) <= counted_samples(stts, n),
    decreases n,
{
    if k < n {
        lemma_counted_samples_grow(stts, k, (n - 1) as nat);
    }
}

/// The samples that an `stts` payload counts.
pub fn stts_sample_count(stts: &[u8]) -> (r: Option<u32>)
    ensures
        r == stts_samples(stts@),
{
    let count: u32 = match read_u32_be(stts, 4) {
        Some(n) => n,
        None => {
            return None;
        },
    };
    let len: usize = stts.len();
    let mut total: u32 = 0;
    let mut i: u32 = 0;
    while i < count
        invariant
            i <= count,
            len == stts@.len(),
            len >= 8,
            count == bytes::be32(stts@, 4),
            i > 0 ==> 8 * i + 4 <= len,
            total == counted_samples(stts@, i as nat),
        decreases count - i,
    {
        proof {
            lemma_counted_samples_grow(stts@, (i + 1) as nat, count as nat);
        }
        let at: u64 = 8 + 8 * i as u64;
        if at + 4 > len as u64 {
            return None;
        }
        let n: u32 = match read_u32_be(stts, at as usize) {
            Some(n) => n,
            None => {
                return None;
            },
        };
        total = match total.checked_add(n) {
            Some(sum) => sum,
            None => {
                return None;
            },
        };
        i = i + 1;
    }
    Some(total)
}

/// The ticks that the samples of an `stts` payload last, where its entries
/// fit and the sum fits 64 bits.
pub open spec fn stts_ticks(stts: Seq<u8>) -> Option<u64> {
    match stts_runs(stts) {
        Some(pairs) => if timing::run_ticks(pairs) > u64::MAX {
            None
        } else {
            Some(timing::run_ticks(pairs) as u64)
        },
        None => None,
    }
}

/// The ticks that the samples of an `stts` payload last.
pub fn stts_duration_ticks(stts: &[u8]) -> (r: Option<u64>)
    ensures
        r == stts_ticks(stts@),
{
    let pairs: Vec<(u32, u32)> = match parse_stts(stts) {
        Some(pairs) => pairs,
        None => {
            return None;
        },
    };
    let mut total: u64 = 0;
    let mut i: usize = 0;
    assert(pairs@.take(0) =~= Seq::empty());
    while i < pairs.len()
        invariant
            i <= pairs@.len(),
            stts_runs(stts@) == Some(pairs@),
            total == timing::run_ticks(pairs@.take(i as int)),
        decreases pairs@.len() - i,
    {
        let (n, delta): (u32, u32) = pairs[i];
        proof {
            timing::lemma_ticks_grow(pairs@, i + 1);
            assert(pairs@.take(i + 1).drop_last() =~= pairs@.take(i as int));
            lemma_product(n as int, delta as int, u32::MAX as int, u32::MAX as int);
        }
        total = match total.checked_add(n as u64 * delta as u64) {
            Some(sum) => sum,
            None => {
                return None;
            },
        };
        i = i + 1;
    }
    assert(pairs@.take(i as int) =~= pairs@);
    Some(total)
}

/// A product is bounded by the product of bounds.
proof fn lemma_product(a: int, b: int, x: int, y: int)
    by (nonlinear_arith)
    requires
        0 <= a <= x,
        0 <= b <= y,
    ensures
        0 <= a * b <= x * y,
{
}

// --------------------
// Walking runs
// --------------------

/// A sample of a run has the run's value.
proof fn lemma_expand_at<V>(pairs: Seq<(u32, V)>, r: int, k: int)
    requires
        0 <= r < pairs.len(),
        0 <= k < pairs[r].0,
    ensures
        runs::expand(pairs).len() == runs::run_total(pairs),
        runs::run_total(pairs.take(r)) + k < runs::run_total(pairs),
        runs::expand(pairs)[runs::run_total(pairs.take(r)) + k] == pairs[r].1,
    decreases pairs.len(),
{
    runs::lemma_expand_len(pairs);
    let init = pairs.drop_last();
    runs::lemma_expand_len(init);
    if r == pairs.len() - 1 {
        assert(pairs.take(r) =~= init);
    } else {
        assert(init.take(r) =~= pairs.take(r));
        lemma_expand_at(init, r, k);
    }
}

proof fn lemma_total_step<V>(pairs: Seq<(u32, V)>, r: int)
    requires
        0 <= r < pairs.len(),
    ensures
        runs::run_total(pairs.take(r + 1)) == runs::run_total(pairs.take(r)) + pairs[r].0,
{
    assert(pairs.take(r + 1).drop_last() =~= pairs.take(r));
}

/// A walk over the values of the single samples of a run-length coded table.
struct RunCursor<'a, V> {
    pairs: &'a [(u32, V)],
    run: usize,
    used: u32,
}

impl<'a, V: Copy> RunCursor<'a, V> {
    spec fn at(self) -> int {
        runs::run_total(self.pairs@.take(self.run as int)) + self.used
    }

    spec fn well_formed(self) -> bool {
        &&& self.run <= self.pairs@.len()
        &&& self.run < self.pairs@.len() ==> self.used <= self.pairs@[self.run as int].0
        &&& self.run == self.pairs@.len() ==> self.used == 0
    }

    /// A walk from sample `index` (0-based) on, or from the end where there
    /// are no more samples.
    fn from(pairs: &'a [(u32, V)], index: u32) -> (r: Self)
        ensures
            r.well_formed(),
            r.pairs@ == pairs@,
            r.at() == runs::least(index as int, runs::run_total(pairs@) as int),
    {
        let mut run: usize = 0;
        let mut left: u32 = index;
        assert(pairs@.take(0) =~= Seq::<(u32, V)>::empty());
        while run < pairs.len() && left > pairs[run].0
            invariant
                run <= pairs@.len(),
                runs::run_total(pairs@.take(run as int)) + left == index,
            decreases pairs@.len() - run,
        {
            proof {
                lemma_total_step(pairs@, run as int);
            }
            left = left - pairs[run].0;
            run = run + 1;
        }
        if run == pairs.len() {
            assert(pairs@.take(run as int) =~= pairs@);
            RunCursor { pairs, run, used: 0 }
        } else {
            proof {
                lemma_total_step(pairs@, run as int);
                lemma_total_grows(pairs@, run + 1);
            }
            RunCursor { pairs, run, used: left }
        }
    }

    /// The value of the next sample.
    fn next(&mut self) -> (r: Option<V>)
        requires
            old(self).well_formed(),
        ensures
            final(self).well_formed(),
            final(self).pairs@ == old(self).pairs@,
            runs::expand(old(self).pairs@).len() == runs::run_total(old(self).pairs@),
            old(self).at() <= runs::run_total(old(self).pairs@),
            match r {
                Some(v) => {
                    &&& old(self).at() < runs::run_total(old(self).pairs@)
                    &&& v == runs::expand(old(self).pairs@)[old(self).at()]
                    &&& final(self).at() == old(self).at() + 1
                },
                None => old(self).at() == runs::run_total(old(self).pairs@),
            },
    {
        proof {
            runs::lemma_expand_len(self.pairs@);
        }
        let pairs: &'a [(u32, V)] = self.pairs;
        let ghost at = self.at();
        while self.run < pairs.len() && self.used == pairs[self.run].0
            invariant
                self.well_formed(),
                self.pairs@ == pairs@,
                self.at() == at,
            decreases pairs@.len() - self.run,
        {
            proof {
                lemma_total_step(pairs@, self.run as int);
            }
            self.run = self.run + 1;
            self.used = 0;
        }
        if self.run == pairs.len() {
            assert(pairs@.take(self.run as int) =~= pairs@);
            return None;
        }
        proof {
            lemma_expand_at(pairs@, self.run as int, self.used as int);
        }
        let value: V = pairs[self.run].1;
        self.used = self.used + 1;
        Some(value)
    }
}

/// The first runs have no more samples than all of them.
pub proof fn lemma_total_grows<V>(pairs: Seq<(u32, V)>, k: int)
    requires
        0 <= k <= pairs.len(),
    ensures
        runs::run_total(pairs.take(k)) <= runs::run_total(pairs),
    decreases pairs.len(),
{
    if k == pairs.len() {
        assert(pairs.take(k) =~= pairs);
    } else {
        lemma_total_grows(pairs.drop_last(), k);
        assert(pairs.drop_last().take(k) =~= pairs.take(k));
    }
}


// --------------------
// Presentation
// --------------------

/// When the samples of a track are decoded, how far from that they are
/// shown, and how far the whole presentation is shifted.
pub struct TimelineView {
    pub timing: Seq<(u32, u32)>,
    pub offsets: Seq<(u32, i64)>,
    pub shift: i64,
}

impl TimelineView {
    /// The number of samples.
    pub open spec fn count(self) -> int {
        runs::run_total(self.timing) as int
    }

    /// Whether every sample has a decoding time and an offset, and the
    /// samples can be counted.
    pub open spec fn agrees(self) -> bool {
        runs::run_total(self.timing) == runs::run_total(self.offsets) && self.count() <= u32::MAX
    }

    /// The tick at which sample `i` (1-based) is shown.
    pub open spec fn tick(self, i: int) -> int {
        timing::sample_start(self.timing, i - 1) + runs::expand(self.offsets)[i - 1] - self.shift
    }

    /// Whether sample `i` is shown before sample `j`; of two samples with the
    /// same tick the one decoded first is shown first.
    pub open spec fn shown_before(self, i: int, j: int) -> bool {
        self.tick(i) < self.tick(j) || (self.tick(i) == self.tick(j) && i < j)
    }

    /// Whether sample `i` is the last one shown at or before `target`.
    pub open spec fn is_last_shown(self, target: int, i: int) -> bool {
        &&& 1 <= i <= self.count()
        &&& self.tick(i) <= target
        &&& forall|j: int|
            1 <= j <= self.count() && j != i && self.tick(j) <= target
                ==> #[trigger] self.shown_before(j, i)
    }

    /// Whether sample `i` is the first one shown, and later than `target`.
    pub open spec fn is_first_shown(self, target: int, i: int) -> bool {
        &&& 1 <= i <= self.count()
        &&& self.tick(i) > target
        &&& forall|j: int|
            1 <= j <= self.count() && j != i ==> #[trigger] self.shown_before(i, j)
    }
}

/// A table lasts no longer than its samples at the longest.
pub proof fn lemma_ticks_bound(pairs: Seq<(u32, u32)>)
    ensures
        timing::run_ticks(pairs) <= runs::run_total(pairs) * u32::MAX,
    decreases pairs.len(),
{
    if pairs.len() > 0 {
        let init = pairs.drop_last();
        lemma_ticks_bound(init);
        let a = runs::run_total(init) as int;
        let n = pairs.last().0 as int;
        let d = pairs.last().1 as int;
        assert(a * u32::MAX + n * d <= (a + n) * u32::MAX) by (nonlinear_arith)
            requires
                0 <= d <= u32::MAX,
                0 <= n,
        ;
    }
}

/// The ticks of a table with few samples fit 64 bits.
proof fn lemma_ticks_fit(pairs: Seq<(u32, u32)>)
    requires
        runs::run_total(pairs) <= u32::MAX,
    ensures
        timing::run_ticks(pairs) <= 0xffff_ffff * 0xffff_ffff,
{
    lemma_ticks_bound(pairs);
    lemma_product(
        runs::run_total(pairs) as int,
        u32::MAX as int,
        u32::MAX as int,
        u32::MAX as int,
    );
}

/// The tick at which sample `index` (0-based) is decoded.
fn start_of(pairs: &[(u32, u32)], index: u32) -> (r: u64)
    requires
        index < runs::run_total(pairs@) <= u32::MAX,
    ensures
        r == timing::sample_start(pairs@, index as int),
{
    let mut run: usize = 0;
    let mut left: u32 = index;
    let mut ticks: u64 = 0;
    proof {
        lemma_ticks_fit(pairs@);
        assert(pairs@.take(0) =~= Seq::<(u32, u32)>::empty());
    }
    while run < pairs.len() && left >= pairs[run].0
        invariant
            run <= pairs@.len(),
            index < runs::run_total(pairs@),
            timing::run_ticks(pairs@) <= 0xffff_ffff * 0xffff_ffff,
            runs::run_total(pairs@.take(run as int)) + left == index,
            ticks == timing::run_ticks(pairs@.take(run as int)),
        decreases pairs@.len() - run,
    {
        proof {
            timing::lemma_take_step(pairs@, run as int);
            timing::lemma_ticks_grow(pairs@, run + 1);
            lemma_product(
                pairs@[run as int].0 as int,
                pairs@[run as int].1 as int,
                u32::MAX as int,
                u32::MAX as int,
            );
        }
        ticks = ticks + pairs[run].0 as u64 * pairs[run].1 as u64;
        left = left - pairs[run].0;
        run = run + 1;
    }
    if run == pairs.len() {
        assert(pairs@.take(run as int) =~= pairs@);
        return ticks;
    }
    proof {
        timing::lemma_start_in_run(pairs@, run as int, left as int);
        timing::lemma_start_le_ticks(pairs@, index as int);
        lemma_product(
            left as int,
            pairs@[run as int].1 as int,
            u32::MAX as int,
            u32::MAX as int,
        );
    }
    ticks + left as u64 * pairs[run].1 as u64
}

/// A walk over the ticks at which samples are shown.
struct TickCursor<'a> {
    deltas: RunCursor<'a, u32>,
    offsets: RunCursor<'a, i64>,
    shift: i64,
    start: u64,
    at: u32,
    count: u32,
}

impl<'a> TickCursor<'a> {
    spec fn timeline(self) -> TimelineView {
        TimelineView {
            timing: self.deltas.pairs@,
            offsets: self.offsets.pairs@,
            shift: self.shift,
        }
    }

    spec fn well_formed(self) -> bool {
        &&& self.deltas.well_formed()
        &&& self.offsets.well_formed()
        &&& self.timeline().agrees()
        &&& self.count == self.timeline().count()
        &&& self.at <= self.count
        &&& self.deltas.at() == self.at
        &&& self.offsets.at() == self.at
        &&& self.at < self.count ==> self.start == timing::sample_start(
            self.deltas.pairs@,
            self.at as int,
        )
    }

    /// The tick of the next sample.
    fn next(&mut self) -> (r: Option<i128>)
        requires
            old(self).well_formed(),
        ensures
            final(self).well_formed(),
            final(self).timeline() == old(self).timeline(),
            final(self).count == old(self).count,
            match r {
                Some(t) => {
                    &&& old(self).at < old(self).count
                    &&& final(self).at == old(self).at + 1
                    &&& t == old(self).timeline().tick(old(self).at + 1)
                },
                None => old(self).at == old(self).count,
            },
    {
        if self.at == self.count {
            return None;
        }
        let delta: u32 = match self.deltas.next() {
            Some(v) => v,
            None => 0,
        };
        let offset: i64 = match self.offsets.next() {
            Some(v) => v,
            None => 0,
        };
        let tick: i128 = self.start as i128 + offset as i128 - self.shift as i128;
        self.at = self.at + 1;
        if self.at < self.count {
            proof {
                lemma_ticks_fit(self.deltas.pairs@);
                timing::law_sample_ends_at_next_start(self.deltas.pairs@, self.at - 1);
                timing::lemma_start_le_ticks(self.deltas.pairs@, self.at as int);
            }
            self.start = self.start + delta as u64;
        }
        Some(tick)
    }
}

/// A sample picked for a time.
#[derive(Debug, Clone, Copy, PartialEq, Eq, Structural)]
pub struct SampleSelection {
    pub sample_index: u32,
    pub presentation_tick: u64,
}

/// The presentation times of the samples of a track, kept as runs.
#[derive(Debug)]
pub struct PresentationTimeline {
    timing: Vec<(u32, u32)>,
    offsets: Vec<(u32, i64)>,
    shift: i64,
    sample_count: u32,
}

impl View for PresentationTimeline {
    type V = TimelineView;

    closed spec fn view(&self) -> TimelineView {
        TimelineView { timing: self.timing@, offsets: self.offsets@, shift: self.shift }
    }
}

/// The composition offsets that count for a track: without a table every
/// sample is shown when it is decoded.
pub open spec fn effective_offsets(
    offsets: Option<Seq<CompositionOffset>>,
    sample_count: u32,
) -> Seq<(u32, i64)> {
    match offsets {
        Some(list) => offset_runs(list),
        None => seq![(sample_count, 0i64)],
    }
}

/// What an optional list of offsets holds.
pub open spec fn offsets_view(offsets: Option<&[CompositionOffset]>) -> Option<
    Seq<CompositionOffset>,
> {
    match offsets {
        Some(list) => Some(list@),
        None => None,
    }
}

/// Whether the counts of a table add up to `n`.
fn counts_to<V: Copy>(pairs: &Vec<(u32, V)>, n: u32) -> (r: bool)
    ensures
        r == (runs::run_total(pairs@) == n),
{
    let mut left: u32 = n;
    let mut i: usize = 0;
    assert(pairs@.take(0) =~= Seq::<(u32, V)>::empty());
    while i < pairs.len()
        invariant
            i <= pairs@.len(),
            left == n - runs::run_total(pairs@.take(i as int)),
        decreases pairs@.len() - i,
    {
        proof {
            lemma_total_step(pairs@, i as int);
            lemma_total_grows(pairs@, i + 1);
        }
        if pairs[i].0 > left {
            return false;
        }
        left = left - pairs[i].0;
        i = i + 1;
    }
    assert(pairs@.take(i as int) =~= pairs@);
    left == 0
}

impl PresentationTimeline {
    #[verifier::type_invariant]
    closed spec fn counts_agree(self) -> bool {
        self@.agrees() && self.sample_count == self@.count()
    }

    /// The timeline of `sample_count` samples, where both tables stand for
    /// exactly that many.
    pub fn new(
        stts: &[u8],
        composition_offsets: Option<&[CompositionOffset]>,
        presentation_offset: i64,
        sample_count: u32,
    ) -> (r: Option<Self>)
        ensures
            ({
                let offsets = effective_offsets(offsets_view(composition_offsets), sample_count);
                match (stts_runs(stts@), r) {
                    (Some(timing), Some(timeline)) => {
                        &&& runs::run_total(timing) == sample_count
                        &&& runs::run_total(offsets) == sample_count
                        &&& timeline@ == (TimelineView {
                            timing,
                            offsets,
                            shift: presentation_offset,
                        })
                        &&& timeline@.agrees()
                    },
                    (Some(timing), None) => runs::run_total(timing) != sample_count
                        || runs::run_total(offsets) != sample_count,
                    (None, _) => r is None,
                }
            }),
    {
        let timing: Vec<(u32, u32)> = match parse_stts(stts) {
            Some(timing) => timing,
            None => {
                return None;
            },
        };
        let mut offsets: Vec<(u32, i64)> = Vec::new();
        match composition_offsets {
            Some(list) => {
                let mut i: usize = 0;
                while i < list.len()
                    invariant
                        i <= list@.len(),
                        offsets@ == offset_runs(list@).take(i as int),
                    decreases list@.len() - i,
                {
                    offsets.push((list[i].sample_count, list[i].sample_offset));
                    proof {
                        let all = offset_runs(list@);
                        assert(all.take(i + 1) =~= all.take(i as int).push(all[i as int]));
                    }
                    i = i + 1;
                }
                assert(offset_runs(list@).take(i as int) =~= offset_runs(list@));
            },
            None => {
                offsets.push((sample_count, 0));
            },
        }
        assert(offsets@ =~= effective_offsets(offsets_view(composition_offsets), sample_count));
        if !counts_to(&timing, sample_count) || !counts_to(&offsets, sample_count) {
            return None;
        }
        Some(PresentationTimeline { timing, offsets, shift: presentation_offset, sample_count })
    }

    /// A walk from sample `first` (1-based) on.
    fn from(&self, first: u32) -> (r: TickCursor<'_>)
        requires
            1 <= first <= self@.count(),
        ensures
            r.well_formed(),
            r.timeline() == self@,
            r.at == first - 1,
            r.count == self@.count(),
    {
        proof {
            use_type_invariant(self);
        }
        TickCursor {
            deltas: RunCursor::from(self.timing.as_slice(), first - 1),
            offsets: RunCursor::from(self.offsets.as_slice(), first - 1),
            shift: self.shift,
            start: start_of(self.timing.as_slice(), first - 1),
            at: first - 1,
            count: self.sample_count,
        }
    }

    /// The tick at which a sample (1-based) is shown.
    pub fn tick(&self, sample_index: u32) -> (r: Option<i128>)
        ensures
            r is Some == (1 <= sample_index <= self@.count()),
            r matches Some(t) ==> t == self@.tick(sample_index as int),
    {
        proof {
            use_type_invariant(self);
        }
        if sample_index == 0 || sample_index > self.sample_count {
            return None;
        }
        let mut cursor = self.from(sample_index);
        cursor.next()
    }

    /// The samples `start..=end` (1-based) with the ticks at which they are shown.
    pub fn ticks_for_range(&self, start: u32, end: u32) -> (r: Option<Vec<(u32, i128)>>)
        ensures
            r is Some == (1 <= start <= end <= self@.count()),
            r matches Some(list) ==> {
                &&& list@.len() == end - start + 1
                &&& forall|i: int|
                    0 <= i < list@.len() ==> (#[trigger] list@[i]).0 == start + i && list@[i].1
                        == self@.tick(start + i)
            },
    {
        proof {
            use_type_invariant(self);
        }
        if start == 0 || start > end || end > self.sample_count {
            return None;
        }
        let mut cursor = self.from(start);
        let mut list: Vec<(u32, i128)> = Vec::new();
        let mut next: u32 = start - 1;
        while next < end
            invariant
                1 <= start <= end <= self@.count(),
                start - 1 <= next <= end,
                cursor.well_formed(),
                cursor.timeline() == self@,
                cursor.count == self@.count(),
                cursor.at == next,
                list@.len() == next + 1 - start,
                forall|i: int|
                    0 <= i < list@.len() ==> (#[trigger] list@[i]).0 == start + i && list@[i].1
                        == self@.tick(start + i),
            decreases end - next,
        {
            let tick: i128 = match cursor.next() {
                Some(t) => t,
                None => 0,
            };
            next = next + 1;
            list.push((next, tick));
        }
        Some(list)
    }

    /// The sample shown at `target`: the last one whose tick is not later,
    /// or else the first one of all. Its tick is reported as 0 where it is
    /// negative. There is none where no sample has a tick of 64 bits.
    pub fn select(&self, target: u64) -> (r: Option<SampleSelection>)
        ensures
            match r {
                Some(s) => {
                    let i = s.sample_index as int;
                    &&& self@.is_last_shown(target as int, i) || self@.is_first_shown(
                        target as int,
                        i,
                    )
                    &&& s.presentation_tick == (if self@.tick(i) < 0 {
                        0
                    } else {
                        self@.tick(i)
                    })
                },
                None => forall|i: int|
                    1 <= i <= self@.count() ==> #[trigger] self@.tick(i) > u64::MAX,
            },
    {
        proof {
            use_type_invariant(self);
        }
        if self.sample_count == 0 {
            return None;
        }
        let mut cursor = self.from(1);
        let mut last: Option<(u32, i128)> = None;
        let mut first: Option<(u32, i128)> = None;
        let mut seen: u32 = 0;
        while seen < self.sample_count
            invariant
                self.sample_count == self@.count(),
                seen <= self.sample_count,
                cursor.well_formed(),
                cursor.timeline() == self@,
                cursor.count == self@.count(),
                cursor.at == seen,
                seen > 0 ==> first is Some,
                match first {
                    Some((i, t)) => {
                        &&& 1 <= i <= seen
                        &&& t == self@.tick(i as int)
                        &&& forall|j: int|
                            1 <= j <= seen && j != i ==> #[trigger] self@.shown_before(i as int, j)
                    },
                    None => true,
                },
                match last {
                    Some((i, t)) => {
                        &&& 1 <= i <= seen
                        &&& t == self@.tick(i as int)
                        &&& t <= target
                        &&& forall|j: int|
                            1 <= j <= seen && j != i && self@.tick(j) <= target
                                ==> #[trigger] self@.shown_before(j, i as int)
                    },
                    None => forall|j: int| 1 <= j <= seen ==> #[trigger] self@.tick(j) > target,
                },
            decreases self.sample_count - seen,
        {
            let tick: i128 = match cursor.next() {
                Some(t) => t,
                None => 0,
            };
            seen = seen + 1;
            let earlier: bool = match first {
                Some((_, t)) => tick < t,
                None => true,
            };
            if earlier {
                proof {
                    let earliest = first;
                    assert forall|j: int| 1 <= j <= seen && j != seen implies #[trigger] self@.shown_before(
                        seen as int,
                        j,
                    ) by {
                        if let Some((i, t)) = earliest {
                            if j != i {
                                assert(self@.shown_before(i as int, j));
                            }
                        }
                    }
                }
                first = Some((seen, tick));
            }
            let later: bool = tick <= target as i128 && match last {
                Some((_, t)) => tick >= t,
                None => true,
            };
            if later {
                proof {
                    let latest = last;
                    assert forall|j: int|
                        1 <= j <= seen && j != seen && self@.tick(j)
                            <= target implies #[trigger] self@.shown_before(j, seen as int) by {
                        if let Some((i, t)) = latest {
                            if j != i {
                                assert(self@.shown_before(j, i as int));
                            }
                        }
                    }
                }
                last = Some((seen, tick));
            }
        }
        let (index, tick): (u32, i128) = match (last, first) {
            (Some(found), _) => found,
            (None, Some(found)) => found,
            (None, None) => (0, 0),
        };
        if tick > u64::MAX as i128 {
            proof {
                assert forall|j: int| 1 <= j <= self@.count() implies #[trigger] self@.tick(j)
                    > u64::MAX by {
                    if j != index {
                        assert(self@.shown_before(index as int, j));
                    }
                }
            }
            return None;
        }
        let presentation_tick: u64 = if tick < 0 {
            0
        } else {
            tick as u64
        };
        Some(SampleSelection { sample_index: index, presentation_tick })
    }
}

/// At most one sample is picked for a time.
pub proof fn law_selection_is_unique(timeline: TimelineView, target: int, i: int, j: int)
    requires
        timeline.is_last_shown(target, i) || timeline.is_first_shown(target, i),
        timeline.is_last_shown(target, j) || timeline.is_first_shown(target, j),
    ensures
        i == j,
{
    if i != j {
        if timeline.is_last_shown(target, i) && timeline.is_last_shown(target, j) {
            assert(timeline.shown_before(i, j));
            assert(timeline.shown_before(j, i));
        } else if timeline.is_first_shown(target, i) {
            assert(timeline.shown_before(i, j));
            if timeline.is_first_shown(target, j) {
                assert(timeline.shown_before(j, i));
            }
        } else {
            assert(timeline.shown_before(j, i));
        }
    }
}

/// A track without composition offsets and without a shift shows its samples
/// when they are decoded: the sample picked for a time is the last one that
/// has started.
pub proof fn law_plain_selection_follows_decoding(pairs: Seq<(u32, u32)>, target: int, i: int)
    requires
        runs::run_total(pairs) <= u32::MAX,
        (TimelineView {
            timing: pairs,
            offsets: seq![(runs::run_total(pairs) as u32, 0i64)],
            shift: 0,
        }).is_last_shown(target, i),
    ensures
        timing::is_last_started(pairs, target, i - 1),
{
    let n = runs::run_total(pairs) as u32;
    let offsets = seq![(n, 0i64)];
    let v = TimelineView { timing: pairs, offsets, shift: 0 };
    assert(offsets.drop_last() =~= Seq::<(u32, i64)>::empty());
    assert forall|k: int| 0 <= k < n implies runs::expand(offsets)[k] == 0 by {
        assert(runs::expand(offsets.drop_last()).len() == 0);
    }
    if i < n {
        if timing::sample_start(pairs, i) <= target {
            timing::law_starts_in_order(pairs, i - 1, i);
            assert(v.tick(i + 1) == timing::sample_start(pairs, i));
            assert(v.shown_before(i + 1, i));
        }
    }
}

} // verus!
