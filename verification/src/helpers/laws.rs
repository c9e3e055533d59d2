//! Where the samples of a track lie.

use vstd::prelude::*;
use crate::boxes;
use crate::helpers::runs;
use crate::helpers::tables;
use crate::helpers::timing;

verus! {

/// Whether a run of an `stsc` tells how many samples a chunk holds: it starts
/// at the chunk or before it, and the next run starts behind it.
pub open spec fn tells_chunk(stsc: Seq<(u32, u32)>, r: int, number: u32) -> bool {
    &&& 0 <= r < stsc.len()
    &&& stsc[r].0 <= number
    &&& r + 1 < stsc.len() ==> number < stsc[r + 1].0
}

/// Whether the runs of an `stsc` are in the order of their chunks.
pub open spec fn runs_in_order(stsc: Seq<(u32, u32)>) -> bool {
    forall|i: int, j: int|
        0 <= i < j < stsc.len() ==> (#[trigger] stsc[i]).0 < (#[trigger] stsc[j]).0
}

/// A chunk holds as many samples as its run tells.
pub proof fn law_chunk_holds_what_its_run_tells(stsc: Seq<(u32, u32)>, r: int, number: u32)
    requires
        runs_in_order(stsc),
        tells_chunk(stsc, r, number),
    ensures
        timing::samples_in_chunk(number, stsc, 0) == stsc[r].1,
{
    lemma_run_found(stsc, r, number, 0);
}

proof fn lemma_run_found(stsc: Seq<(u32, u32)>, r: int, number: u32, k: int)
    requires
        runs_in_order(stsc),
        tells_chunk(stsc, r, number),
        0 <= k <= r,
    ensures
        timing::samples_in_chunk(number, stsc, k) == stsc[r].1,
    decreases r - k,
{
    if k < r {
        assert(stsc[k + 1].0 <= stsc[r].0);
        lemma_run_found(stsc, r, number, k + 1);
    }
}

/// The samples in the first `n` chunks.
pub open spec fn samples_in_chunks(stsc: Seq<(u32, u32)>, n: int) -> int
    decreases n,
{
    if n <= 0 {
        0
    } else {
        samples_in_chunks(stsc, n - 1) + timing::samples_in_chunk(
            boxes::wrap32(n as nat),
            stsc,
            0,
        )
    }
}

/// Whether sample `i` lies in chunk `q`, both counted from 0.
pub open spec fn lies_in(t: tables::TablesView, q: int, i: int) -> bool {
    &&& 0 <= q < t.offsets.len()
    &&& samples_in_chunks(t.stsc, q) <= i < samples_in_chunks(t.stsc, q + 1)
    &&& i < t.sizes.len()
    &&& i < runs::run_total(t.timing)
}

pub(crate) proof fn lemma_samples_listed(t: tables::TablesView, n: nat)
    ensures
        timing::samples_through(t, n).len() == runs::least(
            samples_in_chunks(t.stsc, n as int),
            timing::sample_limit(t),
        ),
        0 <= samples_in_chunks(t.stsc, n as int),
    decreases n,
{
    if n > 0 {
        lemma_samples_listed(t, (n - 1) as nat);
    }
}

proof fn lemma_sample_at(t: tables::TablesView, n: nat, q: int, i: int)
    requires
        lies_in(t, q, i),
        q < n,
    ensures
        i < timing::samples_through(t, n).len(),
        timing::samples_through(t, n)[i] == timing::placed_sample(
            t,
            q,
            samples_in_chunks(t.stsc, q),
            i,
        ),
    decreases n,
{
    let before = timing::samples_through(t, (n - 1) as nat);
    lemma_samples_listed(t, (n - 1) as nat);
    lemma_samples_listed(t, q as nat);
    if q < n - 1 {
        lemma_sample_at(t, (n - 1) as nat, q, i);
        assert(timing::samples_through(t, n)[i] == before[i]);
    } else {
        let first = before.len() as int;
        assert(first == samples_in_chunks(t.stsc, q));
        let list = timing::samples_through(t, n);
        assert(list[first + (i - first)] == timing::placed_sample(t, n - 1, first, i));
    }
}

/// A chunk lays out its samples one behind the other: its first sample lies at
/// the offset of the chunk, each other one where the sample before it ends.
/// Every sample has the size that its table tells, lasts as long as the timing
/// tells, and starts when the sample before it is over.
pub proof fn law_chunk_lays_out_its_samples(t: tables::TablesView, q: int, i: int)
    requires
        lies_in(t, q, i),
    ensures
        ({
            let all = timing::samples_through(t, t.offsets.len());
            &&& i < all.len()
            &&& all[i].size == t.sizes[i]
            &&& i == samples_in_chunks(t.stsc, q) ==> all[i].offset == t.offsets[q]
            &&& i > samples_in_chunks(t.stsc, q) ==> all[i].offset == timing::wrap64(
                all[i - 1].offset + t.sizes[i - 1],
            )
            &&& all[i].duration == runs::expand(t.timing)[i]
            &&& all[i].start == timing::wrap64(timing::sample_start(t.timing, i) as int)
        }),
{
    let all = timing::samples_through(t, t.offsets.len());
    let first = samples_in_chunks(t.stsc, q);
    lemma_samples_listed(t, q as nat);
    lemma_sample_at(t, t.offsets.len(), q, i);
    if i > first {
        lemma_sample_at(t, t.offsets.len(), q, i - 1);
        let sum = t.offsets[q] + timing::size_sum(t.sizes, first, i - 1);
        assert(timing::size_sum(t.sizes, first, i) == timing::size_sum(t.sizes, first, i - 1)
            + t.sizes[i - 1]);
        vstd::arithmetic::div_mod::lemma_add_mod_noop(
            sum,
            t.sizes[i - 1] as int,
            0x1_0000_0000_0000_0000,
        );
        vstd::arithmetic::div_mod::lemma_small_mod(
            t.sizes[i - 1] as nat,
            0x1_0000_0000_0000_0000,
        );
    }
}

/// A sample lies behind those before it in its chunk.
pub proof fn law_sample_is_placed(t: tables::TablesView, q: int, i: int)
    requires
        lies_in(t, q, i),
    ensures
        i < timing::samples_through(t, t.offsets.len()).len(),
        timing::samples_through(t, t.offsets.len())[i].offset == timing::wrap64(
            t.offsets[q] + timing::size_sum(t.sizes, samples_in_chunks(t.stsc, q), i),
        ),
{
    lemma_sample_at(t, t.offsets.len(), q, i);
}

/// Every listed sample lies in a chunk, and all samples are listed that lie in
/// a chunk and have a size and a time.
pub proof fn law_every_sample_lies_in_a_chunk(t: tables::TablesView, i: int)
    requires
        0 <= i,
    ensures
        i < timing::samples_through(t, t.offsets.len()).len() <==> exists|q: int| #[trigger]
            lies_in(t, q, i),
{
    if i < timing::samples_through(t, t.offsets.len()).len() {
        lemma_samples_listed(t, t.offsets.len());
        let q = lemma_chunk_of(t.stsc, t.offsets.len() as int, i);
        assert(lies_in(t, q, i));
    }
    if exists|q: int| #[trigger] lies_in(t, q, i) {
        let q = choose|q: int| #[trigger] lies_in(t, q, i);
        lemma_sample_at(t, t.offsets.len(), q, i);
    }
}

proof fn lemma_chunk_of(stsc: Seq<(u32, u32)>, n: int, i: int) -> (q: int)
    requires
        0 <= n,
        0 <= i < samples_in_chunks(stsc, n),
    ensures
        0 <= q < n,
        samples_in_chunks(stsc, q) <= i < samples_in_chunks(stsc, q + 1),
    decreases n,
{
    if i >= samples_in_chunks(stsc, n - 1) {
        n - 1
    } else {
        lemma_chunk_of(stsc, n - 1, i)
    }
}

} // verus!
