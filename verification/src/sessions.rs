//! Which of the sessions that are held stay, and in what order.
//!
//! Sessions are held in the order of their last use. A session has an end, in
//! any unit that `now` is given in too, after which it is no longer used.

use vstd::prelude::*;

verus! {

/// Whether the session at a place is still used at a time. `but` is the place
/// of a session that is left out.
pub open spec fn stays(ends: Seq<u64>, now: u64, but: Option<usize>, i: int) -> bool {
    ends[i] > now && but != Some(i as usize)
}

/// The places of the first `n` sessions that stay.
pub open spec fn staying(ends: Seq<u64>, now: u64, but: Option<usize>, n: int) -> Seq<usize>
    decreases n,
{
    if n <= 0 {
        Seq::empty()
    } else {
        let before = staying(ends, now, but, n - 1);
        if stays(ends, now, but, n - 1) {
            before.push((n - 1) as usize)
        } else {
            before
        }
    }
}

/// The last `room` of some places.
pub open spec fn newest(places: Seq<usize>, room: int) -> Seq<usize> {
    if places.len() <= room {
        places
    } else {
        places.skip(places.len() - room)
    }
}

/// The sessions held after a lookup: those that have not ended, the one that
/// was found behind the others.
pub open spec fn after_lookup(ends: Seq<u64>, now: u64, found: Option<usize>) -> Seq<usize> {
    let others = staying(ends, now, found, ends.len() as int);
    match found {
        Some(i) => if i < ends.len() && ends[i as int] > now {
            others.push(i)
        } else {
            others
        },
        None => others,
    }
}

/// The sessions that stay when one more is put behind them: those that have not
/// ended and that the new one does not replace, as many of the last used as
/// there is room for beside the new one.
pub open spec fn after_insert(
    ends: Seq<u64>,
    now: u64,
    replaced: Option<usize>,
    capacity: usize,
) -> Seq<usize> {
    newest(
        staying(ends, now, replaced, ends.len() as int),
        if capacity > 0 {
            capacity - 1
        } else {
            0
        },
    )
}

fn places_that_stay(ends: &[u64], now: u64, but: Option<usize>) -> (r: Vec<usize>)
    ensures
        r@ == staying(ends@, now, but, ends@.len() as int),
        r@.len() <= ends@.len(),
{
    let mut out: Vec<usize> = Vec::new();
    let mut i: usize = 0;
    while i < ends.len()
        invariant
            i <= ends@.len(),
            out@ == staying(ends@, now, but, i as int),
            out@.len() <= i,
        decreases ends@.len() - i,
    {
        let left_out: bool = match but {
            Some(b) => b == i,
            None => false,
        };
        if ends[i] > now && !left_out {
            out.push(i);
        }
        i += 1;
    }
    out
}

/// The places of the sessions held after a lookup, in their new order. `found`
/// is the place of the session looked up, where it is among them.
pub fn sessions_after_lookup(ends: &[u64], now: u64, found: Option<usize>) -> (r: Vec<usize>)
    ensures
        r@ == after_lookup(ends@, now, found),
{
    let mut out: Vec<usize> = places_that_stay(ends, now, found);
    if let Some(i) = found {
        if i < ends.len() && ends[i] > now {
            out.push(i);
        }
    }
    out
}

/// The places of the sessions that stay, in order, when one more is put behind
/// them. `replaced` is the place of a session with the key of the new one.
pub fn sessions_after_insert(
    ends: &[u64],
    now: u64,
    replaced: Option<usize>,
    capacity: usize,
) -> (r: Vec<usize>)
    ensures
        r@ == after_insert(ends@, now, replaced, capacity),
{
    let places: Vec<usize> = places_that_stay(ends, now, replaced);
    let room: usize = if capacity > 0 {
        capacity - 1
    } else {
        0
    };
    if places.len() <= room {
        return places;
    }
    let first: usize = places.len() - room;
    let mut out: Vec<usize> = Vec::new();
    let mut i: usize = first;
    while i < places.len()
        invariant
            first <= i <= places@.len(),
            out@ == places@.subrange(first as int, i as int),
        decreases places@.len() - i,
    {
        out.push(places[i]);
        i += 1;
    }
    assert(out@ =~= places@.skip(first as int));
    out
}

// --------------------
// Laws
// --------------------

proof fn lemma_staying(ends: Seq<u64>, now: u64, but: Option<usize>, n: int)
    requires
        0 <= n <= ends.len() <= usize::MAX,
    ensures
        staying(ends, now, but, n).len() <= n,
        forall|k: int|
            0 <= k < staying(ends, now, but, n).len() ==> #[trigger] staying(
                ends,
                now,
                but,
                n,
            )[k] < n && stays(ends, now, but, staying(ends, now, but, n)[k] as int),
        forall|j: int, k: int|
            0 <= j < k < staying(ends, now, but, n).len() ==> staying(ends, now, but, n)[j]
                < staying(ends, now, but, n)[k],
    decreases n,
{
    if n > 0 {
        lemma_staying(ends, now, but, n - 1);
    }
}

/// No more sessions are held than there is room for, the new one among them.
pub proof fn law_sessions_keep_to_their_capacity(
    ends: Seq<u64>,
    now: u64,
    replaced: Option<usize>,
    capacity: usize,
)
    requires
        capacity > 0,
    ensures
        after_insert(ends, now, replaced, capacity).len() + 1 <= capacity,
{
}

/// What stays has not ended and is not replaced, and stands behind what was
/// used before it.
pub proof fn law_sessions_that_stay_are_live(
    ends: Seq<u64>,
    now: u64,
    replaced: Option<usize>,
    capacity: usize,
    k: int,
)
    requires
        ends.len() <= usize::MAX,
        0 <= k < after_insert(ends, now, replaced, capacity).len(),
    ensures
        after_insert(ends, now, replaced, capacity)[k] < ends.len(),
        stays(ends, now, replaced, after_insert(ends, now, replaced, capacity)[k] as int),
        forall|j: int|
            0 <= j < k ==> #[trigger] after_insert(ends, now, replaced, capacity)[j]
                < after_insert(ends, now, replaced, capacity)[k],
{
    lemma_staying(ends, now, replaced, ends.len() as int);
}

/// The session used last is the last to make room for another: wherever one
/// beside the new one is held, it is.
pub proof fn law_last_used_session_stays(
    ends: Seq<u64>,
    now: u64,
    replaced: Option<usize>,
    capacity: usize,
)
    requires
        0 < ends.len() <= usize::MAX,
        stays(ends, now, replaced, ends.len() - 1),
        capacity >= 2,
    ensures
        after_insert(ends, now, replaced, capacity).len() > 0,
        after_insert(ends, now, replaced, capacity).last() == ends.len() - 1,
{
    lemma_staying(ends, now, replaced, ends.len() - 1);
}

/// A lookup leaves the session it finds as the one used last.
pub proof fn law_found_session_is_used_last(ends: Seq<u64>, now: u64, found: usize)
    requires
        found < ends.len() <= usize::MAX,
        ends[found as int] > now,
    ensures
        after_lookup(ends, now, Some(found)).len() > 0,
        after_lookup(ends, now, Some(found)).last() == found,
{
}

proof fn lemma_live_is_staying(ends: Seq<u64>, now: u64, but: Option<usize>, n: int, i: int)
    requires
        0 <= i < n <= ends.len() <= usize::MAX,
        stays(ends, now, but, i),
    ensures
        staying(ends, now, but, n).contains(i as usize),
    decreases n,
{
    let before = staying(ends, now, but, n - 1);
    let now_staying = staying(ends, now, but, n);
    if i < n - 1 {
        lemma_live_is_staying(ends, now, but, n - 1, i);
        let k = choose|k: int| 0 <= k < before.len() && before[k] == i as usize;
        assert(now_staying[k] == i as usize);
    } else {
        assert(now_staying[before.len() as int] == i as usize);
    }
}

/// A lookup drops no live session, and keeps none that has ended.
pub proof fn law_live_sessions_stay(ends: Seq<u64>, now: u64, found: Option<usize>, i: usize)
    requires
        i < ends.len() <= usize::MAX,
    ensures
        after_lookup(ends, now, found).contains(i) <==> ends[i as int] > now,
{
    let others = staying(ends, now, found, ends.len() as int);
    lemma_staying(ends, now, found, ends.len() as int);
    let kept = after_lookup(ends, now, found);
    if ends[i as int] > now {
        if found == Some(i) {
            assert(kept.last() == i);
            assert(kept[kept.len() - 1] == i);
        } else {
            lemma_live_is_staying(ends, now, found, ends.len() as int, i as int);
            let k = choose|k: int| 0 <= k < others.len() && others[k] == i;
            assert(kept[k] == i);
        }
    }
    if kept.contains(i) {
        let k = choose|k: int| 0 <= k < kept.len() && kept[k] == i;
        if k < others.len() {
            assert(kept[k] == others[k]);
        }
    }
}

/// An insertion drops a live session only to make room: each live session that
/// is not replaced stays while there is room for it and all those that were used
/// later.
pub proof fn law_live_sessions_stay_while_there_is_room(
    ends: Seq<u64>,
    now: u64,
    replaced: Option<usize>,
    capacity: usize,
    i: usize,
)
    requires
        i < ends.len() <= usize::MAX,
        stays(ends, now, replaced, i as int),
        ends.len() - i + 1 <= capacity,
    ensures
        after_insert(ends, now, replaced, capacity).contains(i),
{
    let n = ends.len() as int;
    let all = staying(ends, now, replaced, n);
    lemma_staying(ends, now, replaced, n);
    lemma_live_is_staying(ends, now, replaced, n, i as int);
    let k = choose|k: int| 0 <= k < all.len() && all[k] == i;
    lemma_places_ahead(all, k, n);
    let kept = after_insert(ends, now, replaced, capacity);
    if all.len() > capacity - 1 {
        let dropped = all.len() - (capacity - 1);
        assert(kept[k - dropped] == i);
    } else {
        assert(kept[k] == i);
    }
}

/// Places in order are no more than there is room for behind one of them.
proof fn lemma_places_ahead(list: Seq<usize>, k: int, n: int)
    requires
        0 <= k < list.len(),
        forall|a: int, b: int| 0 <= a < b < list.len() ==> list[a] < list[b],
        forall|a: int| 0 <= a < list.len() ==> #[trigger] list[a] < n,
    ensures
        list.len() - k <= n - list[k],
    decreases list.len() - k,
{
    if k + 1 < list.len() {
        lemma_places_ahead(list, k + 1, n);
        assert(list[k] < list[k + 1]);
    }
}

} // verus!
