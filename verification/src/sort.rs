//! Sorting of numbered keys.

use vstd::prelude::*;

verus! {

/// Whether a numbered key comes before another: the smaller key first, and
/// of equal keys the smaller number.
pub open spec fn before(a: (i128, u32), b: (i128, u32)) -> bool {
    a.0 < b.0 || (a.0 == b.0 && a.1 < b.1)
}

/// Whether no item comes before one that stands ahead of it.
pub open spec fn in_order(list: Seq<(i128, u32)>) -> bool {
    forall|i: int, j: int| 0 <= i < j < list.len() ==> !before(#[trigger] list[j], #[trigger] list[i])
}

/// How many items of a list come before `x`.
pub open spec fn rank(list: Seq<(i128, u32)>, x: (i128, u32)) -> nat
    decreases list.len(),
{
    if list.len() == 0 {
        0
    } else {
        rank(list.drop_last(), x) + if before(list.last(), x) {
            1nat
        } else {
            0nat
        }
    }
}

fn comes_before(a: (i128, u32), b: (i128, u32)) -> (r: bool)
    ensures
        r == before(a, b),
{
    a.0 < b.0 || (a.0 == b.0 && a.1 < b.1)
}

/// Merges two lists that are in order.
fn merge(a: &Vec<(i128, u32)>, b: &Vec<(i128, u32)>) -> (r: Vec<(i128, u32)>)
    requires
        in_order(a@),
        in_order(b@),
        a@.len() + b@.len() <= usize::MAX,
    ensures
        in_order(r@),
        r@.to_multiset() == a@.to_multiset().add(b@.to_multiset()),
{
    broadcast use vstd::seq_lib::group_to_multiset_ensures;

    let mut out: Vec<(i128, u32)> = Vec::new();
    let mut i: usize = 0;
    let mut j: usize = 0;
    proof {
        assert(a@.take(0) =~= Seq::empty());
        assert(b@.take(0) =~= Seq::empty());
        assert(out@.to_multiset() =~= a@.take(0).to_multiset().add(b@.take(0).to_multiset()));
    }
    while i < a.len() || j < b.len()
        invariant
            in_order(a@),
            in_order(b@),
            a@.len() + b@.len() <= usize::MAX,
            i <= a@.len(),
            j <= b@.len(),
            out@.len() == i + j,
            in_order(out@),
            out@.to_multiset() == a@.take(i as int).to_multiset().add(
                b@.take(j as int).to_multiset(),
            ),
            forall|k: int, m: int|
                0 <= k < out@.len() && i <= m < a@.len() ==> !before(
                    #[trigger] a@[m],
                    #[trigger] out@[k],
                ),
            forall|k: int, m: int|
                0 <= k < out@.len() && j <= m < b@.len() ==> !before(
                    #[trigger] b@[m],
                    #[trigger] out@[k],
                ),
        decreases a@.len() - i + b@.len() - j,
    {
        let ghost done = out@;
        if j == b.len() || (i < a.len() && !comes_before(b[j], a[i])) {
            proof {
                assert(a@.take(i + 1) =~= a@.take(i as int).push(a@[i as int]));
                vstd::seq_lib::to_multiset_build(a@.take(i as int), a@[i as int]);
                vstd::seq_lib::to_multiset_build(done, a@[i as int]);
                assert(done.push(a@[i as int]).to_multiset() =~= a@.take(
                    i + 1,
                ).to_multiset().add(b@.take(j as int).to_multiset()));
            }
            out.push(a[i]);
            i = i + 1;
        } else {
            proof {
                assert(b@.take(j + 1) =~= b@.take(j as int).push(b@[j as int]));
                vstd::seq_lib::to_multiset_build(b@.take(j as int), b@[j as int]);
                vstd::seq_lib::to_multiset_build(done, b@[j as int]);
                assert(done.push(b@[j as int]).to_multiset() =~= a@.take(
                    i as int,
                ).to_multiset().add(b@.take(j + 1).to_multiset()));
            }
            out.push(b[j]);
            j = j + 1;
        }
    }
    assert(a@.take(i as int) =~= a@);
    assert(b@.take(j as int) =~= b@);
    out
}

fn part(list: &Vec<(i128, u32)>, from: usize, to: usize) -> (r: Vec<(i128, u32)>)
    requires
        from <= to <= list@.len(),
    ensures
        r@ == list@.subrange(from as int, to as int),
{
    let mut out: Vec<(i128, u32)> = Vec::new();
    let mut i: usize = from;
    while i < to
        invariant
            from <= i <= to <= list@.len(),
            out@ == list@.subrange(from as int, i as int),
        decreases to - i,
    {
        out.push(list[i]);
        i = i + 1;
        assert(list@.subrange(from as int, i as int) =~= list@.subrange(
            from as int,
            i - 1,
        ).push(list@[i - 1]));
    }
    out
}

/// The items of a list in order.
pub fn sorted(list: Vec<(i128, u32)>) -> (r: Vec<(i128, u32)>)
    ensures
        in_order(r@),
        r@.to_multiset() == list@.to_multiset(),
        r@.len() == list@.len(),
    decreases list@.len(),
{
    broadcast use vstd::seq_lib::group_to_multiset_ensures;

    let n: usize = list.len();
    if n < 2 {
        return list;
    }
    let mid: usize = n / 2;
    let left: Vec<(i128, u32)> = part(&list, 0, mid);
    let right: Vec<(i128, u32)> = part(&list, mid, n);
    let ghost a = left@;
    let ghost b = right@;
    let left: Vec<(i128, u32)> = sorted(left);
    let right: Vec<(i128, u32)> = sorted(right);
    proof {
        assert(a + b =~= list@);
        vstd::seq_lib::lemma_multiset_commutative(a, b);
    }
    let out: Vec<(i128, u32)> = merge(&left, &right);
    proof {
        out@.to_multiset_ensures();
        list@.to_multiset_ensures();
    }
    out
}

/// Rearranging a list changes no rank.
pub proof fn lemma_rank_of_same_items(s: Seq<(i128, u32)>, t: Seq<(i128, u32)>, x: (i128, u32))
    requires
        s.to_multiset() == t.to_multiset(),
    ensures
        rank(s, x) == rank(t, x),
    decreases s.len(),
{
    broadcast use vstd::seq_lib::group_to_multiset_ensures;

    assert(s.len() == s.to_multiset().len() == t.len());
    if s.len() > 0 {
        let v = s.last();
        assert(s.contains(v));
        assert(t.to_multiset().count(v) > 0);
        assert(t.contains(v));
        let k = choose|k: int| 0 <= k < t.len() && t[k] == v;
        assert(s.remove(s.len() - 1) =~= s.drop_last());
        assert(t.remove(k).to_multiset() =~= s.drop_last().to_multiset());
        lemma_rank_of_same_items(s.drop_last(), t.remove(k), x);
        lemma_rank_without(t, k, x);
    }
}

/// An item counts for one rank at most.
proof fn lemma_rank_without(t: Seq<(i128, u32)>, k: int, x: (i128, u32))
    requires
        0 <= k < t.len(),
    ensures
        rank(t, x) == rank(t.remove(k), x) + if before(t[k], x) {
            1nat
        } else {
            0nat
        },
    decreases t.len(),
{
    if k == t.len() - 1 {
        assert(t.remove(k) =~= t.drop_last());
    } else {
        lemma_rank_without(t.drop_last(), k, x);
        assert(t.remove(k).drop_last() =~= t.drop_last().remove(k));
        assert(t.remove(k).last() == t.last());
    }
}

/// In a list in order without equal items, the rank of an item is its place.
pub proof fn lemma_rank_is_place(list: Seq<(i128, u32)>, k: int)
    requires
        in_order(list),
        list.no_duplicates(),
        0 <= k < list.len(),
    ensures
        rank(list, list[k]) == k,
{
    lemma_rank_prefix(list, k, list.len() as int);
    assert(list.take(list.len() as int) =~= list);
}

proof fn lemma_rank_prefix(list: Seq<(i128, u32)>, k: int, n: int)
    requires
        in_order(list),
        list.no_duplicates(),
        0 <= k < list.len(),
        0 <= n <= list.len(),
    ensures
        rank(list.take(n), list[k]) == if n <= k {
            n
        } else {
            k
        },
    decreases n,
{
    if n > 0 {
        lemma_rank_prefix(list, k, n - 1);
        assert(list.take(n).drop_last() =~= list.take(n - 1));
        let last = list[n - 1];
        if n - 1 < k {
            assert(!before(list[k], last));
            assert(last != list[k]);
        } else if n - 1 > k {
            assert(!before(last, list[k]));
        }
    }
}

} // verus!
