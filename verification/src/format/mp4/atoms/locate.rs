//! Where samples are stored.

use vstd::prelude::*;
use super::samples;
use super::samples::{SampleSizes, StscEntry, StscRun, StscRuns};

verus! {

/// Where a sample (1-based) is stored: at the offset of its chunk, behind the
/// samples that come before it in the chunk.
pub open spec fn location(
    sizes: samples::SizesView,
    stsc: Seq<StscEntry>,
    chunks: Seq<u64>,
    i: int,
) -> Option<u64> {
    let end = chunks.len() as int + 1;
    match samples::run_of(stsc, end, i - 1, 0) {
        Some(k) => {
            let per = stsc[k].samples_per_chunk as int;
            let start = samples::samples_before(stsc, end, k);
            let chunk = (i - 1 - start) / per;
            let offset = chunks[stsc[k].first_chunk + chunk - 1] + sizes.bytes_before(i - 1)
                - sizes.bytes_before(start + chunk * per);
            if offset <= u64::MAX {
                Some(offset as u64)
            } else {
                None
            }
        },
        None => None,
    }
}

/// A search from a run on finds what a search from the start finds, where the
/// runs before it are good and the sample lies behind them.
pub proof fn lemma_run_of_from(stsc: Seq<StscEntry>, end: int, t: int, k: int)
    requires
        0 <= k <= stsc.len(),
        samples::runs_ok(stsc, end, k),
        samples::samples_before(stsc, end, k) <= t,
    ensures
        samples::run_of(stsc, end, t, 0) == samples::run_of(stsc, end, t, k),
    decreases k,
{
    if k > 0 {
        samples::lemma_samples_before(stsc, end, k);
        assert(samples::run_ok(stsc, end, k - 1));
        assert(samples::samples_before(stsc, end, k - 1) <= samples::samples_before(stsc, end, k));
        lemma_run_of_from(stsc, end, t, k - 1);
    }
}

/// The chunk of a sample inside its run, and the first sample of that chunk.
proof fn lemma_chunk_in_run(t: int, start: int, n: int, per: int)
    requires
        0 <= start <= t < start + n * per,
        0 <= n,
        0 <= per,
    ensures
        per > 0,
        0 <= (t - start) / per < n,
        start <= start + (t - start) / per * per <= t,
{
    let d = t - start;
    assert(per > 0) by (nonlinear_arith)
        requires
            0 <= d < n * per,
            0 <= n,
            0 <= per,
    ;
    vstd::arithmetic::div_mod::lemma_fundamental_div_mod(d, per);
    let q = d / per;
    assert(q * per == per * q) by (nonlinear_arith);
    assert(0 <= q) by (nonlinear_arith)
        requires
            d == per * q + d % per,
            0 <= d,
            0 <= d % per < per,
    ;
    assert(q < n) by (nonlinear_arith)
        requires
            d == per * q + d % per,
            0 <= d % per,
            d < n * per,
            per > 0,
    ;
    assert(0 <= q * per) by (nonlinear_arith)
        requires
            0 <= q,
            per > 0,
    ;
}

/// How far a locator has come: the run that it stands at, and the first sample
/// that may still be asked for.
pub struct LocatorState {
    pub current: int,
    pub next: int,
}

/// Whether a locator answers a query: not where there is no such sample, or it
/// lies before what may still be asked for; else with the place of the sample.
pub open spec fn answered(
    sizes: samples::SizesView,
    stsc: Seq<StscEntry>,
    chunks: Seq<u64>,
    before: LocatorState,
    sample_index: u32,
    r: Option<u64>,
    after: LocatorState,
) -> bool {
    let end = chunks.len() as int + 1;
    let start = samples::samples_before(stsc, end, before.current);
    let found = samples::run_of(stsc, end, sample_index - 1, 0);
    if sample_index == 0 || sample_index > sizes.count || sample_index < before.next || sample_index
        - 1 < start {
        r is None && after == before
    } else {
        &&& r == location(sizes, stsc, chunks, sample_index as int)
        &&& found matches Some(k) ==> after.current == k && after.next == sample_index
        &&& found is None ==> after.next == before.next
    }
}

/// Locates samples by file offset, amortizing the walk over the runs across
/// calls. Queries must be made in non-decreasing sample-index order;
/// out-of-order queries return `None`.
pub struct SampleLocator<'a> {
    sizes: &'a SampleSizes,
    chunk_offsets: &'a [u64],
    runs: StscRuns<'a>,
    run: StscRun,
    next_sample: u32,
    size_entries_examined: usize,
}

impl<'a> SampleLocator<'a> {
    /// The sizes of the samples.
    pub closed spec fn sizes(self) -> samples::SizesView {
        self.sizes@
    }

    /// The offsets of the chunks.
    pub closed spec fn chunks(self) -> Seq<u64> {
        self.chunk_offsets@
    }

    /// The runs of chunks.
    pub closed spec fn table(self) -> Seq<StscEntry> {
        self.runs.table()
    }

    /// The run that the locator stands at.
    pub closed spec fn current(self) -> int {
        self.runs.walked() - 1
    }

    /// The first sample that may still be asked for.
    pub closed spec fn next(self) -> int {
        self.next_sample as int
    }

    /// How far the locator has come.
    pub open spec fn state(self) -> LocatorState {
        LocatorState { current: self.current(), next: self.next() }
    }

    /// The number of single sizes looked at so far.
    pub closed spec fn examined(self) -> int {
        self.size_entries_examined as int
    }

    /// Whether the locator stands at a run of its table.
    pub closed spec fn well_formed(self) -> bool {
        &&& samples::starts_at_first_chunk(self.table(), self.chunks().len() as int)
        &&& self.runs.end() == self.chunks().len() + 1
        &&& 0 <= self.current() < self.table().len()
        &&& samples::runs_ok(self.table(), self.runs.end(), self.current() + 1)
        &&& self.run == samples::run_at(self.table(), self.runs.end(), self.current())
        &&& 1 <= self.next_sample
    }

    /// A locator at the start of a table, which must begin with the first
    /// chunk and have a good first run.
    pub fn new(
        sizes: &'a SampleSizes,
        stsc: &'a [StscEntry],
        chunk_offsets: &'a [u64],
    ) -> (r: Option<Self>)
        ensures
            r is Some == (samples::starts_at_first_chunk(stsc@, chunk_offsets@.len() as int)
                && samples::run_ok(stsc@, chunk_offsets@.len() as int + 1, 0)),
            r matches Some(l) ==> {
                &&& l.well_formed()
                &&& l.sizes() == sizes@
                &&& l.table() == stsc@
                &&& l.chunks() == chunk_offsets@
                &&& l.current() == 0
                &&& l.next() == 1
                &&& l.examined() == 0
            },
    {
        if stsc.len() == 0 || stsc[0].first_chunk != 1 || chunk_offsets.len() == 0 {
            return None;
        }
        let mut runs: StscRuns<'a> = match StscRuns::new(stsc, chunk_offsets.len()) {
            Some(runs) => runs,
            None => {
                return None;
            },
        };
        let run: StscRun = match runs.next() {
            Some(run) => run,
            None => {
                return None;
            },
        };
        Some(
            SampleLocator {
                sizes,
                chunk_offsets,
                runs,
                run,
                next_sample: 1,
                size_entries_examined: 0,
            },
        )
    }

    /// The number of single sizes looked at so far, held at the largest number.
    pub fn size_entries_examined(&self) -> (r: usize)
        ensures
            r == self.examined(),
    {
        self.size_entries_examined
    }

    /// File offset of `sample_index` (1-based). However far apart two queries
    /// are, few single sizes are looked at for each.
    pub fn file_offset(&mut self, sample_index: u32) -> (r: Option<u64>)
        requires
            old(self).well_formed(),
        ensures
            final(self).well_formed(),
            final(self).sizes() == old(self).sizes(),
            final(self).table() == old(self).table(),
            final(self).chunks() == old(self).chunks(),
            old(self).examined() <= final(self).examined() <= old(self).examined() + 2 * (
            samples::SAMPLE_SIZE_PREFIX_INTERVAL - 1),
            answered(
                old(self).sizes(),
                old(self).table(),
                old(self).chunks(),
                old(self).state(),
                sample_index,
                r,
                final(self).state(),
            ),
    {
        if sample_index == 0 || sample_index > self.sizes.sample_count() || sample_index
            < self.next_sample {
            return None;
        }
        let target: u32 = sample_index - 1;
        let ghost stsc = self.table();
        let ghost end = self.chunks().len() as int + 1;
        let ghost sizes = self.sizes();
        proof {
            samples::lemma_samples_before(stsc, end, self.current() + 1);
            samples::lemma_samples_before(stsc, end, self.current());
        }
        if target < self.run.first_sample_index {
            return None;
        }
        proof {
            lemma_run_of_from(stsc, end, target as int, self.current());
        }
        while target >= self.run.first_sample_index + self.run.sample_count
            invariant
                self.well_formed(),
                self.table() == stsc,
                self.sizes() == sizes,
                self.sizes() == old(self).sizes(),
                self.table() == old(self).table(),
                self.chunks() == old(self).chunks(),
                end == self.chunks().len() as int + 1,
                self.next() == old(self).next(),
                self.examined() == old(self).examined(),
                self.run.first_sample_index + self.run.sample_count <= u32::MAX,
                self.run.first_sample_index == samples::samples_before(stsc, end, self.current()),
                self.run.first_sample_index <= target,
                samples::run_of(stsc, end, target as int, 0) == samples::run_of(
                    stsc,
                    end,
                    target as int,
                    self.current(),
                ),
                target == sample_index - 1,
                sample_index != 0,
                sample_index <= old(self).sizes().count,
                sample_index >= old(self).next(),
                sample_index - 1 >= samples::samples_before(
                    old(self).table(),
                    end,
                    old(self).current(),
                ),
            decreases stsc.len() - self.current(),
        {
            let ghost k = self.current();
            match self.runs.next() {
                Some(run) => {
                    proof {
                        assert(samples::run_ok(stsc, end, k));
                        assert(samples::runs_ok(stsc, end, k + 2));
                        samples::lemma_samples_before(stsc, end, k + 1);
                        samples::lemma_samples_before(stsc, end, k + 2);
                    }
                    self.run = run;
                },
                None => {
                    proof {
                        assert(samples::run_ok(stsc, end, k));
                        assert(samples::run_of(stsc, end, target as int, k + 1) is None);
                    }
                    return None;
                },
            }
        }
        let ghost k = self.current();
        let ghost per = stsc[k].samples_per_chunk as int;
        let ghost n = samples::next_chunk(stsc, end, k) - stsc[k].first_chunk;
        let ghost start = samples::samples_before(stsc, end, k);
        proof {
            assert(samples::run_ok(stsc, end, k));
            assert(samples::run_of(stsc, end, target as int, 0) == Some(k));
            lemma_chunk_in_run(target as int, start, n, per);
        }
        let sample_in_run: u32 = target - self.run.first_sample_index;
        let chunk_in_run: u32 = sample_in_run / self.run.samples_per_chunk;
        assert(chunk_in_run == (target - start) / per);
        let chunk_number: u32 = self.run.first_chunk + chunk_in_run;
        proof {
            assert(chunk_number - 1 < self.chunks().len());
            if k > 0 {
                lemma_first_chunk_positive(stsc, end, k);
            }
        }
        let chunk_offset: u64 = self.chunk_offsets[(chunk_number - 1) as usize];
        let chunk_first: u32 = self.run.first_sample_index + chunk_in_run
            * self.run.samples_per_chunk;
        let (sample_prefix, sample_steps): (u64, usize) = match self.sizes.byte_offset_before(
            sample_index,
        ) {
            Some(found) => found,
            None => {
                return None;
            },
        };
        let (chunk_prefix, chunk_steps): (u64, usize) = match self.sizes.byte_offset_before(
            chunk_first + 1,
        ) {
            Some(found) => found,
            None => {
                return None;
            },
        };
        let _count: u32 = self.sizes.sample_count();
        proof {
            samples::lemma_bytes_before(sizes, chunk_first as int, target as int);
        }
        self.size_entries_examined = self.size_entries_examined.saturating_add(
            sample_steps.saturating_add(chunk_steps),
        );
        self.next_sample = sample_index;
        chunk_offset.checked_add(sample_prefix - chunk_prefix)
    }
}

/// The first chunk of a run behind the first one is not the zeroth.
proof fn lemma_first_chunk_positive(stsc: Seq<StscEntry>, end: int, k: int)
    requires
        0 < k < stsc.len(),
        samples::run_ok(stsc, end, k - 1),
    ensures
        stsc[k].first_chunk > 0,
{
}

/// A run that a sample is found in starts no later than the sample.
proof fn lemma_run_starts_before(stsc: Seq<StscEntry>, end: int, t: int, k: int)
    requires
        0 <= k <= stsc.len(),
        samples::samples_before(stsc, end, k) <= t,
        samples::run_of(stsc, end, t, k) is Some,
    ensures
        samples::samples_before(stsc, end, samples::run_of(stsc, end, t, k)->Some_0) <= t,
    decreases stsc.len() - k,
{
    if !(t < samples::samples_before(stsc, end, k + 1)) {
        lemma_run_starts_before(stsc, end, t, k + 1);
    }
}

/// Where a sample is stored and how large it is.
pub open spec fn placement(
    sizes: samples::SizesView,
    stsc: Seq<StscEntry>,
    chunks: Seq<u64>,
    i: u32,
) -> Option<(u64, u32)> {
    if 1 <= i <= sizes.count && samples::starts_at_first_chunk(stsc, chunks.len() as int) {
        match location(sizes, stsc, chunks, i as int) {
            Some(offset) => Some((offset, sizes.size_of(i as int))),
            None => None,
        }
    } else {
        None
    }
}

/// Where samples are stored and how large they are: all of them, or the first
/// one that cannot be placed. Samples that come in order are placed in one walk.
pub fn place_samples(
    wanted: &[u32],
    sizes: &SampleSizes,
    stsc: &[StscEntry],
    chunk_offsets: &[u64],
) -> (r: Result<Vec<(u64, u32)>, u32>)
    ensures
        match r {
            Ok(places) => places@.len() == wanted@.len() && forall|i: int|
                0 <= i < wanted@.len() ==> placement(
                    sizes@,
                    stsc@,
                    chunk_offsets@,
                    #[trigger] wanted@[i],
                ) == Some(places@[i]),
            Err(n) => is_first_unplaced(wanted@, n, sizes@, stsc@, chunk_offsets@),
        },
{
    let mut places: Vec<(u64, u32)> = Vec::new();
    let mut i: usize = 0;
    let ghost end = chunk_offsets@.len() as int + 1;
    let mut locator: Option<SampleLocator> = SampleLocator::new(sizes, stsc, chunk_offsets);
    let mut last: u32 = 0;
    while i < wanted.len()
        invariant
            i <= wanted@.len(),
            end == chunk_offsets@.len() as int + 1,
            places@.len() == i,
            forall|k: int|
                0 <= k < i ==> placement(sizes@, stsc@, chunk_offsets@, #[trigger] wanted@[k])
                    == Some(places@[k]),
            locator is None ==> !(samples::starts_at_first_chunk(
                stsc@,
                chunk_offsets@.len() as int,
            ) && samples::run_ok(stsc@, end, 0)),
            locator matches Some(l) ==> l.well_formed() && l.sizes() == sizes@ && l.table()
                == stsc@ && l.chunks() == chunk_offsets@ && l.next() <= (if last == 0 {
                1int
            } else {
                last as int
            }) && samples::samples_before(stsc@, end, l.current()) <= (if last == 0 {
                0int
            } else {
                last - 1
            }) && samples::starts_at_first_chunk(stsc@, chunk_offsets@.len() as int),
        decreases wanted@.len() - i,
    {
        let n: u32 = wanted[i];
        if n < last {
            locator = SampleLocator::new(sizes, stsc, chunk_offsets);
        }
        let mut found: Option<(u64, u32)> = None;
        if let Some(mut l) = locator {
            let offset: Option<u64> = l.file_offset(n);
            if let (Some(offset), Some(size)) = (offset, sizes.size_of(n)) {
                found = Some((offset, size));
            }
            proof {
                if found is Some {
                    lemma_run_starts_before(stsc@, end, n - 1, 0);
                }
            }
            locator = Some(l);
        }
        assert(found == placement(sizes@, stsc@, chunk_offsets@, n));
        match found {
            Some(place) => {
                places.push(place);
            },
            None => {
                assert(is_first_unplaced_at(
                    wanted@,
                    i as int,
                    sizes@,
                    stsc@,
                    chunk_offsets@,
                ));
                return Err(n);
            },
        }
        last = n;
        i = i + 1;
    }
    Ok(places)
}

/// Whether the sample at a place of a list is the first that cannot be placed.
pub open spec fn is_first_unplaced_at(
    wanted: Seq<u32>,
    at: int,
    sizes: samples::SizesView,
    stsc: Seq<StscEntry>,
    chunks: Seq<u64>,
) -> bool {
    &&& 0 <= at < wanted.len()
    &&& placement(sizes, stsc, chunks, wanted[at]) is None
    &&& forall|k: int| 0 <= k < at ==> placement(sizes, stsc, chunks, #[trigger] wanted[k]) is Some
}

/// Whether a sample is the first of a list that cannot be placed.
pub open spec fn is_first_unplaced(
    wanted: Seq<u32>,
    n: u32,
    sizes: samples::SizesView,
    stsc: Seq<StscEntry>,
    chunks: Seq<u64>,
) -> bool {
    exists|at: int| #[trigger]
        is_first_unplaced_at(wanted, at, sizes, stsc, chunks) && wanted[at] == n
}

// --------------------
// Chunks
// --------------------

/// The chunk (0-based) that a sample (0-based) is stored in.
pub open spec fn chunk_at(stsc: Seq<StscEntry>, end: int, t: int) -> Option<int> {
    match samples::run_of(stsc, end, t, 0) {
        Some(k) => Some(
            stsc[k].first_chunk - 1 + (t - samples::samples_before(stsc, end, k))
                / (stsc[k].samples_per_chunk as int),
        ),
        None => None,
    }
}

/// The bytes of those of the first `n` samples that are stored in chunk `c`.
pub open spec fn bytes_in_chunk(
    sizes: samples::SizesView,
    stsc: Seq<StscEntry>,
    end: int,
    c: int,
    n: int,
) -> int
    decreases n,
{
    if n <= 0 {
        0
    } else {
        bytes_in_chunk(sizes, stsc, end, c, n - 1) + if chunk_at(stsc, end, n - 1) == Some(c) {
            sizes.size_of(n) as int
        } else {
            0int
        }
    }
}

pub(crate) proof fn lemma_bytes_in_chunk_positive(
    sizes: samples::SizesView,
    stsc: Seq<StscEntry>,
    end: int,
    c: int,
    n: int,
)
    ensures
        bytes_in_chunk(sizes, stsc, end, c, n) >= 0,
    decreases n,
{
    if n > 0 {
        lemma_bytes_in_chunk_positive(sizes, stsc, end, c, n - 1);
    }
}

proof fn lemma_same_quotient(d: int, big: int, per: int)
    requires
        0 <= d <= big,
        per > 0,
    ensures
        d >= big / per * per ==> d / per == big / per,
        d < big / per * per ==> d / per < big / per,
{
    let q = big / per;
    vstd::arithmetic::div_mod::lemma_fundamental_div_mod(big, per);
    vstd::arithmetic::div_mod::lemma_fundamental_div_mod(d, per);
    let p = d / per;
    assert(q * per == per * q && p * per == per * p) by (nonlinear_arith);
    if d >= q * per {
        assert(p == q) by (nonlinear_arith)
            requires
                d == per * p + d % per,
                big == per * q + big % per,
                0 <= d % per < per,
                0 <= big % per < per,
                per * q <= d <= big,
        ;
    } else {
        assert(p < q) by (nonlinear_arith)
            requires
                d == per * p + d % per,
                0 <= d % per < per,
                d < per * q,
                per > 0,
        ;
    }
}

/// A sample before the end of run `k` is found in that run or before it.
proof fn lemma_found_in(stsc: Seq<StscEntry>, end: int, t: int, j: int, k: int)
    requires
        0 <= j <= k < stsc.len(),
        samples::runs_ok(stsc, end, k + 1),
        samples::samples_before(stsc, end, j) <= t < samples::samples_before(stsc, end, k + 1),
    ensures
        samples::run_of(stsc, end, t, j) matches Some(r) && j <= r <= k
            && samples::samples_before(stsc, end, r) <= t < samples::samples_before(
            stsc,
            end,
            r + 1,
        ),
    decreases k - j,
{
    assert(samples::run_ok(stsc, end, j));
    if t >= samples::samples_before(stsc, end, j + 1) {
        lemma_found_in(stsc, end, t, j + 1, k);
    }
}

/// The chunks of an earlier run come before those of a later one.
proof fn lemma_chunks_in_order(stsc: Seq<StscEntry>, end: int, j: int, k: int)
    requires
        0 <= j < k < stsc.len(),
        samples::runs_ok(stsc, end, k + 1),
    ensures
        samples::next_chunk(stsc, end, j) <= stsc[k].first_chunk,
    decreases k - j,
{
    if j + 1 < k {
        assert(samples::run_ok(stsc, end, j + 1));
        lemma_chunks_in_order(stsc, end, j + 1, k);
    }
}

/// Which of the samples up to `i` share its chunk: those from the first one of
/// the chunk on.
proof fn lemma_chunk_members(stsc: Seq<StscEntry>, end: int, i: int, k: int, t: int)
    requires
        0 <= t <= i,
        samples::run_of(stsc, end, i, 0) == Some(k),
    ensures
        ({
            let per = stsc[k].samples_per_chunk as int;
            let start = samples::samples_before(stsc, end, k);
            let first = start + (i - start) / per * per;
            &&& 0 <= first <= i
            &&& (chunk_at(stsc, end, t) == chunk_at(stsc, end, i)) == (first <= t)
        }),
{
    samples::law_sample_lies_in_its_run(stsc, end, i, 0);
    let per = stsc[k].samples_per_chunk as int;
    let start = samples::samples_before(stsc, end, k);
    samples::lemma_samples_before(stsc, end, k);
    assert(samples::run_ok(stsc, end, k));
    lemma_chunk_in_run(i, start, samples::next_chunk(stsc, end, k) - stsc[k].first_chunk, per);
    assert(samples::samples_before(stsc, end, 0) == 0);
    lemma_found_in(stsc, end, t, 0, k);
    let r = samples::run_of(stsc, end, t, 0)->Some_0;
    if r == k {
        lemma_same_quotient(t - start, i - start, per);
    } else {
        assert(samples::run_ok(stsc, end, r));
        let r_start = samples::samples_before(stsc, end, r);
        assert(0 <= r_start) by {
            samples::lemma_samples_before(stsc, end, r);
        }
        lemma_chunk_in_run(
            t,
            r_start,
            samples::next_chunk(stsc, end, r) - stsc[r].first_chunk,
            stsc[r].samples_per_chunk as int,
        );
        lemma_chunks_in_order(stsc, end, r, k);
        assert(samples::samples_before(stsc, end, r + 1) <= start) by {
            samples::lemma_samples_before(stsc, end, k);
        }
    }
}

proof fn lemma_bytes_step(sizes: samples::SizesView, n: int)
    requires
        0 < n,
        sizes.fixed == 0 ==> n <= sizes.sizes.len(),
    ensures
        sizes.bytes_before(n) == sizes.bytes_before(n - 1) + sizes.size_of(n),
{
    if sizes.fixed != 0 {
        let fixed = sizes.fixed as int;
        assert(fixed * n == fixed * (n - 1) + fixed) by (nonlinear_arith);
    }
}

proof fn lemma_bytes_in_chunk(
    sizes: samples::SizesView,
    stsc: Seq<StscEntry>,
    end: int,
    i: int,
    k: int,
    n: int,
)
    requires
        0 <= n <= i,
        samples::run_of(stsc, end, i, 0) == Some(k),
        sizes.fixed == 0 ==> i <= sizes.sizes.len(),
    ensures
        ({
            let per = stsc[k].samples_per_chunk as int;
            let start = samples::samples_before(stsc, end, k);
            let first = start + (i - start) / per * per;
            bytes_in_chunk(sizes, stsc, end, chunk_at(stsc, end, i)->Some_0, n) == (if n <= first {
                0
            } else {
                sizes.bytes_before(n) - sizes.bytes_before(first)
            })
        }),
    decreases n,
{
    if n > 0 {
        lemma_bytes_in_chunk(sizes, stsc, end, i, k, n - 1);
        lemma_chunk_members(stsc, end, i, k, n - 1);
        lemma_bytes_step(sizes, n);
    } else {
        lemma_chunk_members(stsc, end, i, k, 0);
    }
}

/// A sample (1-based) that belongs to a run is stored at the offset of its
/// chunk plus the sizes of the earlier samples in that chunk, where that fits
/// 64 bits.
pub proof fn law_sample_follows_the_earlier_ones_of_its_chunk(
    sizes: samples::SizesView,
    stsc: Seq<StscEntry>,
    chunks: Seq<u64>,
    i: int,
)
    requires
        1 <= i,
        sizes.fixed == 0 ==> i <= sizes.sizes.len(),
        samples::run_of(stsc, chunks.len() as int + 1, i - 1, 0) is Some,
    ensures
        ({
            let end = chunks.len() as int + 1;
            let c = chunk_at(stsc, end, i - 1)->Some_0;
            let offset = chunks[c] + bytes_in_chunk(sizes, stsc, end, c, i - 1);
            &&& chunk_at(stsc, end, i - 1) is Some
            &&& location(sizes, stsc, chunks, i) == (if offset <= u64::MAX {
                Some(offset as u64)
            } else {
                None
            })
        }),
{
    let end = chunks.len() as int + 1;
    let k = samples::run_of(stsc, end, i - 1, 0)->Some_0;
    samples::law_sample_lies_in_its_run(stsc, end, i - 1, 0);
    samples::lemma_samples_before(stsc, end, k);
    assert(samples::run_ok(stsc, end, k));
    lemma_chunk_in_run(
        i - 1,
        samples::samples_before(stsc, end, k),
        samples::next_chunk(stsc, end, k) - stsc[k].first_chunk,
        stsc[k].samples_per_chunk as int,
    );
    lemma_bytes_in_chunk(sizes, stsc, end, i - 1, k, i - 1);
}

/// Two samples that follow one another in a chunk are stored one behind the
/// other.
pub proof fn law_neighbours_in_a_chunk_touch(
    sizes: samples::SizesView,
    stsc: Seq<StscEntry>,
    chunks: Seq<u64>,
    i: int,
)
    requires
        1 <= i,
        sizes.fixed == 0 ==> i < sizes.sizes.len(),
        chunk_at(stsc, chunks.len() as int + 1, i - 1) is Some,
        chunk_at(stsc, chunks.len() as int + 1, i) == chunk_at(
            stsc,
            chunks.len() as int + 1,
            i - 1,
        ),
        location(sizes, stsc, chunks, i + 1) is Some,
    ensures
        location(sizes, stsc, chunks, i) matches Some(at) && location(sizes, stsc, chunks, i + 1)
            == Some((at + sizes.size_of(i)) as u64) && at + sizes.size_of(i) <= u64::MAX,
{
    law_sample_follows_the_earlier_ones_of_its_chunk(sizes, stsc, chunks, i);
    law_sample_follows_the_earlier_ones_of_its_chunk(sizes, stsc, chunks, i + 1);
    let end = chunks.len() as int + 1;
    let c = chunk_at(stsc, end, i)->Some_0;
    assert(bytes_in_chunk(sizes, stsc, end, c, i) == bytes_in_chunk(sizes, stsc, end, c, i - 1)
        + sizes.size_of(i));
    lemma_bytes_in_chunk_positive(sizes, stsc, end, c, i - 1);
}

// --------------------
// Histories
// --------------------

/// What was asked of a locator so far, and what it answered: it starts at the
/// first run with the first sample, and every query leads from one state to the
/// next.
pub struct LocatorHistory {
    pub states: Seq<LocatorState>,
    pub queries: Seq<u32>,
    pub answers: Seq<Option<u64>>,
}

impl LocatorHistory {
    /// Whether this is a history of a locator.
    pub open spec fn is_of(
        self,
        sizes: samples::SizesView,
        stsc: Seq<StscEntry>,
        chunks: Seq<u64>,
    ) -> bool {
        &&& self.states.len() == self.queries.len() + 1
        &&& self.answers.len() == self.queries.len()
        &&& self.states[0] == (LocatorState { current: 0, next: 1 })
        &&& forall|k: int|
            0 <= k < self.queries.len() ==> answered(
                sizes,
                stsc,
                chunks,
                self.states[k],
                #[trigger] self.queries[k],
                self.answers[k],
                self.states[k + 1],
            )
    }
}

/// Whether the runs of a table hold just the samples of a track.
pub open spec fn runs_hold(stsc: Seq<StscEntry>, chunk_count: int, count: u32) -> bool {
    &&& samples::runs_ok(stsc, chunk_count + 1, stsc.len() as int)
    &&& samples::samples_before(stsc, chunk_count + 1, stsc.len() as int) == count
}

/// The run that a locator stands at after `n` queries starts at or before the
/// first sample that may still be asked for, which is the first one or one that
/// was asked for.
proof fn lemma_history(
    sizes: samples::SizesView,
    stsc: Seq<StscEntry>,
    chunks: Seq<u64>,
    h: LocatorHistory,
    n: int,
)
    requires
        h.is_of(sizes, stsc, chunks),
        runs_hold(stsc, chunks.len() as int, sizes.count),
        0 <= n <= h.queries.len(),
    ensures
        samples::samples_before(stsc, chunks.len() as int + 1, h.states[n].current)
            < h.states[n].next,
        h.states[n].next == 1 || exists|j: int|
            0 <= j < n && #[trigger] h.queries[j] == h.states[n].next && h.queries[j]
                <= sizes.count,
    decreases n,
{
    let end = chunks.len() as int + 1;
    if n > 0 {
        lemma_history(sizes, stsc, chunks, h, n - 1);
        let q = h.queries[n - 1];
        assert(answered(
            sizes,
            stsc,
            chunks,
            h.states[n - 1],
            q,
            h.answers[n - 1],
            h.states[n],
        ));
        if h.states[n] != h.states[n - 1] {
            assert(1 <= q <= sizes.count);
            assert(samples::samples_before(stsc, end, 0) == 0);
            lemma_found_in(stsc, end, q - 1, 0, stsc.len() - 1);
        }
    }
}

/// Whatever was asked before, a locator over runs that hold the samples of the
/// track places a sample, if no later sample of the track was asked for: at the
/// offset of its chunk plus the sizes of the earlier samples in that chunk,
/// where that fits 64 bits.
pub proof fn law_queries_in_order_are_answered(
    sizes: samples::SizesView,
    stsc: Seq<StscEntry>,
    chunks: Seq<u64>,
    h: LocatorHistory,
    k: int,
)
    requires
        h.is_of(sizes, stsc, chunks),
        runs_hold(stsc, chunks.len() as int, sizes.count),
        sizes.fixed == 0 ==> sizes.sizes.len() == sizes.count,
        0 <= k < h.queries.len(),
        1 <= h.queries[k] <= sizes.count,
        forall|j: int|
            0 <= j < k ==> #[trigger] h.queries[j] <= h.queries[k] || h.queries[j] > sizes.count,
    ensures
        ({
            let end = chunks.len() as int + 1;
            let i = h.queries[k] as int;
            let c = chunk_at(stsc, end, i - 1)->Some_0;
            let offset = chunks[c] + bytes_in_chunk(sizes, stsc, end, c, i - 1);
            &&& chunk_at(stsc, end, i - 1) is Some
            &&& h.answers[k] == (if offset <= u64::MAX {
                Some(offset as u64)
            } else {
                None
            })
        }),
{
    let end = chunks.len() as int + 1;
    let i = h.queries[k] as int;
    lemma_history(sizes, stsc, chunks, h, k);
    assert(answered(
        sizes,
        stsc,
        chunks,
        h.states[k],
        h.queries[k],
        h.answers[k],
        h.states[k + 1],
    ));
    assert(samples::samples_before(stsc, end, 0) == 0);
    lemma_found_in(stsc, end, i - 1, 0, stsc.len() - 1);
    law_sample_follows_the_earlier_ones_of_its_chunk(sizes, stsc, chunks, i);
}

} // verus!
