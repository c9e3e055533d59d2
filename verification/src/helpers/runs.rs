//! Run-length coded sample tables: expansion, slicing, and the timing of
//! single samples.

use vstd::prelude::*;

verus! {

/// The number of samples that the runs of a table stand for.
pub open spec fn run_total<V>(pairs: Seq<(u32, V)>) -> nat
    decreases pairs.len(),
{
    if pairs.len() == 0 {
        0
    } else {
        run_total(pairs.drop_last()) + pairs.last().0 as nat
    }
}

/// The value of each single sample of a run-length coded table.
pub open spec fn expand<V>(pairs: Seq<(u32, V)>) -> Seq<V>
    decreases pairs.len(),
{
    if pairs.len() == 0 {
        Seq::empty()
    } else {
        expand(pairs.drop_last()) + Seq::new(pairs.last().0 as nat, |i: int| pairs.last().1)
    }
}

/// The sum of two counts, held at the largest 32-bit integer.
pub open spec fn capped_sum(a: u32, b: int) -> u32 {
    if a + b > u32::MAX {
        u32::MAX
    } else {
        (a + b) as u32
    }
}

/// A run of `n` samples added behind a table, merged into the last run where the values agree.
pub open spec fn push_run<V>(out: Seq<(u32, V)>, n: int, v: V) -> Seq<(u32, V)> {
    if out.len() > 0 && out.last().1 == v {
        out.drop_last().push((capped_sum(out.last().0, n), v))
    } else {
        out.push((n as u32, v))
    }
}

/// How many of the samples `lo..hi` fall in `start..end`.
pub open spec fn overlap(lo: int, hi: int, start: int, end: int) -> int {
    let s = if lo > start {
        lo
    } else {
        start
    };
    let e = if hi < end {
        hi
    } else {
        end
    };
    if s < e {
        e - s
    } else {
        0
    }
}

/// The runs of a table cut down to the samples `start..end`, with equal neighbours merged.
pub open spec fn slice_runs<V>(pairs: Seq<(u32, V)>, start: int, end: int) -> Seq<(u32, V)>
    decreases pairs.len(),
{
    if pairs.len() == 0 {
        Seq::empty()
    } else {
        let before = slice_runs(pairs.drop_last(), start, end);
        let lo = run_total(pairs.drop_last()) as int;
        let n = overlap(lo, lo + pairs.last().0, start, end);
        if n > 0 {
            push_run(before, n, pairs.last().1)
        } else {
            before
        }
    }
}

/// Every sample of the runs has a value.
pub proof fn lemma_expand_len<V>(pairs: Seq<(u32, V)>)
    ensures
        expand(pairs).len() == run_total(pairs),
    decreases pairs.len(),
{
    if pairs.len() > 0 {
        lemma_expand_len(pairs.drop_last());
    }
}

proof fn lemma_expand_push_run<V>(out: Seq<(u32, V)>, n: int, v: V)
    requires
        0 < n,
        run_total(out) + n <= u32::MAX,
    ensures
        expand(push_run(out, n, v)) == expand(out) + Seq::new(n as nat, |i: int| v),
        run_total(push_run(out, n, v)) == run_total(out) + n,
{
    let r = push_run(out, n, v);
    if out.len() > 0 && out.last().1 == v {
        assert(r.drop_last() =~= out.drop_last());
        assert(expand(r) =~= expand(out) + Seq::new(n as nat, |i: int| v));
    } else {
        assert(r.drop_last() =~= out);
        assert(expand(r) =~= expand(out) + Seq::new(n as nat, |i: int| v));
    }
}

/// The smaller of two integers.
pub open spec fn least(a: int, b: int) -> int {
    if a < b {
        a
    } else {
        b
    }
}

/// A sliced table stands for exactly the samples `start..end` of the table,
/// as far as the table reaches, each with its value. (A range of more samples
/// than a 32-bit count holds is left out: merged counts stop there.)
pub proof fn law_slice_keeps_samples<V>(pairs: Seq<(u32, V)>, start: int, end: int)
    requires
        0 <= start <= end,
        end - start <= u32::MAX,
    ensures
        expand(slice_runs(pairs, start, end)) == expand(pairs).subrange(
            least(start, run_total(pairs) as int),
            least(end, run_total(pairs) as int),
        ),
    decreases pairs.len(),
{
    lemma_expand_len(pairs);
    if pairs.len() == 0 {
        assert(expand(slice_runs(pairs, start, end)) =~= expand(pairs).subrange(0, 0));
    } else {
        let init = pairs.drop_last();
        law_slice_keeps_samples(init, start, end);
        lemma_expand_len(init);
        let before = slice_runs(init, start, end);
        lemma_expand_len(before);
        let lo = run_total(init) as int;
        let hi = lo + pairs.last().0;
        let n = overlap(lo, hi, start, end);
        let want = expand(pairs).subrange(least(start, hi), least(end, hi));
        if n > 0 {
            lemma_expand_push_run(before, n, pairs.last().1);
            assert(expand(push_run(before, n, pairs.last().1)) =~= want);
        } else {
            assert(expand(before) =~= want);
        }
    }
}

/// Whether a table has no empty run and no two neighbours of equal value.
pub open spec fn is_compact<V>(pairs: Seq<(u32, V)>) -> bool {
    &&& forall|i: int| 0 <= i < pairs.len() ==> (#[trigger] pairs[i]).0 > 0
    &&& forall|i: int, j: int|
        0 <= i && j == i + 1 && j < pairs.len() ==> (#[trigger] pairs[i]).1 != (
        #[trigger] pairs[j]).1
}

/// A sliced table has no empty run and no two neighbours of equal value.
pub proof fn law_slice_is_compact<V>(pairs: Seq<(u32, V)>, start: int, end: int)
    ensures
        is_compact(slice_runs(pairs, start, end)),
    decreases pairs.len(),
{
    if pairs.len() > 0 {
        law_slice_is_compact(pairs.drop_last(), start, end);
        let before = slice_runs(pairs.drop_last(), start, end);
        let lo = run_total(pairs.drop_last()) as int;
        let n = overlap(lo, lo + pairs.last().0, start, end);
        assert(n > 0 ==> (n as u32) > 0);
        assert(is_compact(before));
    }
}

proof fn lemma_slice_past_end<V>(pairs: Seq<(u32, V)>, k: int, start: int, end: int)
    requires
        0 <= k <= pairs.len(),
        run_total(pairs.take(k)) >= end,
    ensures
        slice_runs(pairs, start, end) == slice_runs(pairs.take(k), start, end),
        run_total(pairs) >= run_total(pairs.take(k)),
    decreases pairs.len(),
{
    if k == pairs.len() {
        assert(pairs.take(k) =~= pairs);
    } else {
        let init = pairs.drop_last();
        assert(init.take(k) =~= pairs.take(k));
        lemma_slice_past_end(init, k, start, end);
    }
}

proof fn lemma_slice_nothing<V>(pairs: Seq<(u32, V)>, start: int, end: int)
    requires
        start >= end,
    ensures
        slice_runs(pairs, start, end) == Seq::<(u32, V)>::empty(),
    decreases pairs.len(),
{
    if pairs.len() > 0 {
        lemma_slice_nothing(pairs.drop_last(), start, end);
    }
}

/// Samples in `lo..hi` that fall in `start..end`, see `overlap`.
fn overlap_of(lo: usize, hi: usize, start: usize, end: usize) -> (r: usize)
    requires
        lo <= hi,
    ensures
        r == overlap(lo as int, hi as int, start as int, end as int),
{
    let s: usize = if lo > start {
        lo
    } else {
        start
    };
    let e: usize = if hi < end {
        hi
    } else {
        end
    };
    if s < e {
        e - s
    } else {
        0
    }
}

/// Slice `stts` timing pairs to a selected sample range [start, end) and
/// return a compacted list of `(count, delta)` covering only that subset.
pub fn slice_stts_pairs(pairs: &[(u32, u32)], start: usize, end: usize) -> (r: Vec<(u32, u32)>)
    ensures
        r@ == slice_runs(pairs@, start as int, end as int),
{
    let mut out: Vec<(u32, u32)> = Vec::new();
    if start >= end {
        proof {
            lemma_slice_nothing(pairs@, start as int, end as int);
        }
        return out;
    }
    let mut idx: usize = 0;
    let mut i: usize = 0;
    while i < pairs.len() && idx < end
        invariant
            i <= pairs@.len(),
            idx == least(run_total(pairs@.take(i as int)) as int, usize::MAX as int),
            out@ == slice_runs(pairs@.take(i as int), start as int, end as int),
        decreases pairs@.len() - i,
    {
        let (count, delta): (u32, u32) = pairs[i];
        let next: usize = idx.saturating_add(count as usize);
        let n: usize = overlap_of(idx, next, start, end);
        proof {
            assert(pairs@.take(i + 1).drop_last() =~= pairs@.take(i as int));
            assert(n == overlap(idx as int, idx + count, start as int, end as int));
        }
        if n > 0 {
            let last: usize = out.len();
            if last > 0 && out[last - 1].1 == delta {
                let merged: u32 = out[last - 1].0.saturating_add(n as u32);
                let ghost before = out@;
                let _dropped = out.pop();
                out.push((merged, delta));
                assert(out@ =~= push_run(before, n as int, delta));
            } else {
                out.push((n as u32, delta));
            }
        }
        idx = next;
        i = i + 1;
    }
    proof {
        if i < pairs@.len() {
            lemma_slice_past_end(pairs@, i as int, start as int, end as int);
        } else {
            assert(pairs@.take(i as int) =~= pairs@);
        }
    }
    out
}

/// Slice `ctts` pairs to a selected sample range [start, end) and return a
/// compacted list of `(count, offset)` covering only that subset.
pub fn slice_ctts_pairs(pairs: &[(u32, i32)], start: usize, end: usize) -> (r: Vec<(u32, i32)>)
    ensures
        r@ == slice_runs(pairs@, start as int, end as int),
{
    let mut out: Vec<(u32, i32)> = Vec::new();
    if start >= end {
        proof {
            lemma_slice_nothing(pairs@, start as int, end as int);
        }
        return out;
    }
    let mut idx: usize = 0;
    let mut i: usize = 0;
    while i < pairs.len() && idx < end
        invariant
            i <= pairs@.len(),
            idx == least(run_total(pairs@.take(i as int)) as int, usize::MAX as int),
            out@ == slice_runs(pairs@.take(i as int), start as int, end as int),
        decreases pairs@.len() - i,
    {
        let (count, offset): (u32, i32) = pairs[i];
        let next: usize = idx.saturating_add(count as usize);
        let n: usize = overlap_of(idx, next, start, end);
        proof {
            assert(pairs@.take(i + 1).drop_last() =~= pairs@.take(i as int));
            assert(n == overlap(idx as int, idx + count, start as int, end as int));
        }
        if n > 0 {
            let last: usize = out.len();
            if last > 0 && out[last - 1].1 == offset {
                let merged: u32 = out[last - 1].0.saturating_add(n as u32);
                let ghost before = out@;
                let _dropped = out.pop();
                out.push((merged, offset));
                assert(out@ =~= push_run(before, n as int, offset));
            } else {
                out.push((n as u32, offset));
            }
        }
        idx = next;
        i = i + 1;
    }
    proof {
        if i < pairs@.len() {
            lemma_slice_past_end(pairs@, i as int, start as int, end as int);
        } else {
            assert(pairs@.take(i as int) =~= pairs@);
        }
    }
    out
}

} // verus!
