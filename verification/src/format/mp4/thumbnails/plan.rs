//! Decode plans: which samples of a group are decoded, and which of the
//! decoded frames are kept.

use vstd::prelude::*;
use super::{ExactTarget, Gop, JobPlan, MAX_SAMPLES_PER_THUMBNAIL_BATCH};
use crate::decoders::h264::FrameToken;
use crate::errors;
use crate::errors::MediaParserError;
use crate::format::mp4::atoms::sample_timing;
use crate::format::mp4::atoms::sample_timing::PresentationTimeline;
use crate::sort;
use crate::sort::sorted;

verus! {

// --------------------
// Groups
// --------------------

/// The samples of a group.
pub open spec fn gop_len(gop: Gop) -> int {
    gop.end_sample - gop.start_sample + 1
}

/// Whether the samples of a group can be counted.
pub open spec fn countable(gop: Gop) -> bool {
    gop.start_sample <= gop.end_sample && gop_len(gop) <= u32::MAX
}

/// The error of a request for too many samples.
pub open spec fn too_many() -> errors::ErrorView {
    errors::ErrorView::InvalidFormat("too many thumbnail samples"@)
}

fn too_many_thumbnail_samples() -> (r: MediaParserError)
    ensures
        r@ == too_many(),
{
    MediaParserError::invalid("too many thumbnail samples")
}

/// The number of samples of a group.
pub fn gop_sample_count(gop: Gop) -> (r: Result<usize, MediaParserError>)
    ensures
        match r {
            Ok(n) => countable(gop) && n == gop_len(gop),
            Err(e) => !countable(gop) && e@ == too_many(),
        },
{
    if gop.start_sample > gop.end_sample {
        return Err(too_many_thumbnail_samples());
    }
    let span: u32 = gop.end_sample - gop.start_sample;
    if span == u32::MAX {
        return Err(too_many_thumbnail_samples());
    }
    Ok((span + 1) as usize)
}

/// Whether a sample is in a group.
pub open spec fn in_gop(gop: Gop, sample: int) -> bool {
    gop.start_sample <= sample <= gop.end_sample
}

// --------------------
// Positions
// --------------------

/// How many of the `n` samples from `start` on are shown before sample `i`.
pub open spec fn shown_earlier(
    v: sample_timing::TimelineView,
    start: int,
    n: int,
    i: int,
) -> nat
    decreases n,
{
    if n <= 0 {
        0
    } else {
        shown_earlier(v, start, n - 1, i) + if v.shown_before(start + n - 1, i) {
            1nat
        } else {
            0nat
        }
    }
}

/// The presentation position of a sample within a group.
pub open spec fn position(v: sample_timing::TimelineView, gop: Gop, i: int) -> nat {
    shown_earlier(v, gop.start_sample as int, gop_len(gop), i)
}

/// The token of a sample of a group.
pub open spec fn token_of(v: sample_timing::TimelineView, gop: Gop, i: int) -> FrameToken {
    FrameToken(position(v, gop, i) as u64)
}

/// The numbered ticks of the `n` samples from `start` on.
spec fn shown_list(v: sample_timing::TimelineView, start: int, n: int) -> Seq<(i128, u32)> {
    Seq::new(n as nat, |k: int| (v.tick(start + k) as i128, (start + k) as u32))
}

/// The ticks of samples fit 128 bits and their numbers 32.
spec fn listed(v: sample_timing::TimelineView, start: int, n: int) -> bool {
    &&& 1 <= start
    &&& 0 <= n
    &&& start + n - 1 <= u32::MAX
    &&& forall|i: int|
        start <= i < start + n ==> i128::MIN <= #[trigger] v.tick(i) <= i128::MAX
}

proof fn lemma_rank_counts_shown(v: sample_timing::TimelineView, start: int, n: int, i: int)
    requires
        listed(v, start, n),
        1 <= i <= u32::MAX,
        i128::MIN <= v.tick(i) <= i128::MAX,
    ensures
        sort::rank(shown_list(v, start, n), (v.tick(i) as i128, i as u32)) == shown_earlier(
            v,
            start,
            n,
            i,
        ),
    decreases n,
{
    let list = shown_list(v, start, n);
    if n > 0 {
        assert(list.drop_last() =~= shown_list(v, start, n - 1));
        lemma_rank_counts_shown(v, start, n - 1, i);
        assert(list.last() == (v.tick(start + n - 1) as i128, (start + n - 1) as u32));
    }
}

proof fn lemma_shown_list_distinct(v: sample_timing::TimelineView, start: int, n: int)
    requires
        listed(v, start, n),
    ensures
        shown_list(v, start, n).no_duplicates(),
{
    let list = shown_list(v, start, n);
    assert forall|a: int, b: int| 0 <= a < list.len() && 0 <= b < list.len() && a != b implies list[a]
        != list[b] by {
        assert(list[a].1 == start + a);
        assert(list[b].1 == start + b);
    }
}

/// The presentation positions of the samples of a group, in decode order.
fn positions(timeline: &PresentationTimeline, gop: Gop, len: usize) -> (r: Option<Vec<usize>>)
    requires
        countable(gop),
        len == gop_len(gop),
    ensures
        r is Some == (1 <= gop.start_sample && gop.end_sample <= timeline@.count()),
        r matches Some(list) ==> {
            &&& list@.len() == len
            &&& forall|k: int|
                0 <= k < len ==> #[trigger] list@[k] == position(
                    timeline@,
                    gop,
                    gop.start_sample + k,
                )
            &&& forall|k: int| 0 <= k < len ==> #[trigger] list@[k] < len
        },
{
    let ticks: Vec<(u32, i128)> = match timeline.ticks_for_range(gop.start_sample, gop.end_sample) {
        Some(ticks) => ticks,
        None => {
            return None;
        },
    };
    let ghost v = timeline@;
    let ghost start = gop.start_sample as int;
    let ghost n = len as int;
    let mut keyed: Vec<(i128, u32)> = Vec::new();
    let mut i: usize = 0;
    while i < ticks.len()
        invariant
            i <= ticks@.len(),
            keyed@.len() == i,
            forall|k: int|
                0 <= k < i ==> #[trigger] keyed@[k] == (ticks@[k].1, ticks@[k].0),
        decreases ticks@.len() - i,
    {
        keyed.push((ticks[i].1, ticks[i].0));
        i = i + 1;
    }
    let ghost list = shown_list(v, start, n);
    proof {
        assert forall|j: int| start <= j < start + n implies i128::MIN <= #[trigger] v.tick(j)
            <= i128::MAX by {
            assert(ticks@[j - start].1 == v.tick(start + (j - start)));
        }
        assert(keyed@ =~= list);
        lemma_shown_list_distinct(v, start, n);
    }
    let order: Vec<(i128, u32)> = sorted(keyed);
    proof {
        lemma_same_items(order@, list);
    }
    let mut places: Vec<usize> = Vec::new();
    let mut i: usize = 0;
    while i < len
        invariant
            i <= len,
            places@.len() == i,
        decreases len - i,
    {
        places.push(0);
        i = i + 1;
    }
    let mut place: usize = 0;
    while place < order.len()
        invariant
            place <= order@.len(),
            order@.len() == len,
            places@.len() == len,
            start == gop.start_sample,
            n == len,
            countable(gop),
            len == gop_len(gop),
            list == shown_list(v, start, n),
            list.no_duplicates(),
            order@.no_duplicates(),
            listed(v, start, n),
            forall|k: int| 0 <= k < order@.len() ==> list.contains(#[trigger] order@[k]),
            forall|k: int|
                0 <= k < place ==> places@[(#[trigger] order@[k]).1 - start] == k,
        decreases order@.len() - place,
    {
        let sample: u32 = order[place].1;
        proof {
            let k = choose|k: int| 0 <= k < list.len() && list[k] == order@[place as int];
            assert(list.contains(order@[place as int]));
            assert(sample == start + k);
        }
        let ghost before = places@;
        places.set((sample - gop.start_sample) as usize, place);
        proof {
            assert forall|k: int| 0 <= k < place + 1 implies places@[(#[trigger] order@[k]).1
                - start] == k by {
                if k < place {
                    lemma_distinct_samples(v, start, n, order@[k], order@[place as int]);
                    assert(order@[k] != order@[place as int]);
                }
            }
        }
        place = place + 1;
    }
    proof {
        assert forall|k: int| 0 <= k < len implies #[trigger] places@[k] == position(
            v,
            gop,
            start + k,
        ) && places@[k] < len by {
            let x = list[k];
            assert(list.contains(x));
            let m = lemma_found(order@, list, x);
            sort::lemma_rank_is_place(order@, m);
            sort::lemma_rank_of_same_items(order@, list, x);
            lemma_rank_counts_shown(v, start, n, start + k);
            assert(places@[order@[m].1 - start] == m);
        }
    }
    Some(places)
}

/// Two items of the list with the same sample are the same.
proof fn lemma_distinct_samples(
    v: sample_timing::TimelineView,
    start: int,
    n: int,
    a: (i128, u32),
    b: (i128, u32),
)
    requires
        listed(v, start, n),
        shown_list(v, start, n).contains(a),
        shown_list(v, start, n).contains(b),
    ensures
        a.1 == b.1 ==> a == b,
        start <= a.1 < start + n,
{
    let list = shown_list(v, start, n);
    let i = choose|i: int| 0 <= i < list.len() && list[i] == a;
    let j = choose|j: int| 0 <= j < list.len() && list[j] == b;
    assert(a.1 == start + i);
    assert(b.1 == start + j);
}

/// A rearranged list has the same items, none of them twice.
proof fn lemma_same_items(s: Seq<(i128, u32)>, t: Seq<(i128, u32)>)
    requires
        s.to_multiset() == t.to_multiset(),
        t.no_duplicates(),
    ensures
        s.len() == t.len(),
        s.no_duplicates(),
        forall|k: int| 0 <= k < s.len() ==> t.contains(#[trigger] s[k]),
{
    s.to_multiset_ensures();
    t.to_multiset_ensures();
    assert forall|k: int| 0 <= k < s.len() implies t.contains(#[trigger] s[k]) by {
        assert(s.contains(s[k]));
        assert(s.to_multiset().count(s[k]) > 0);
        assert(t.to_multiset().count(s[k]) > 0);
    }
    t.lemma_multiset_has_no_duplicates();
    assert forall|x: (i128, u32)| s.to_multiset().contains(x) implies s.to_multiset().count(x)
        == 1 by {
        assert(t.to_multiset().contains(x));
    }
    s.lemma_multiset_has_no_duplicates_conv();
}

/// Where an item stands after a rearrangement.
proof fn lemma_found(s: Seq<(i128, u32)>, t: Seq<(i128, u32)>, x: (i128, u32)) -> (m: int)
    requires
        s.to_multiset() == t.to_multiset(),
        t.contains(x),
    ensures
        0 <= m < s.len(),
        s[m] == x,
{
    s.to_multiset_ensures();
    t.to_multiset_ensures();
    assert(t.to_multiset().count(x) > 0);
    assert(s.to_multiset().count(x) > 0);
    assert(s.contains(x));
    choose|m: int| 0 <= m < s.len() && s[m] == x
}

// --------------------
// Plans
// --------------------

/// How many of the first targets named lie in a group, up to the first one
/// that does not.
pub open spec fn inside(targets: Seq<ExactTarget>, gop: Gop, indices: Seq<usize>, k: int) -> int
    decreases indices.len() - k,
{
    if k < 0 || k >= indices.len() || !in_gop(gop, targets[indices[k] as int].sample_index as int) {
        k
    } else {
        inside(targets, gop, indices, k + 1)
    }
}

/// The targets with the group and the token written into those named.
pub open spec fn assigned(
    targets: Seq<ExactTarget>,
    v: sample_timing::TimelineView,
    gop: Gop,
    indices: Seq<usize>,
) -> Seq<ExactTarget> {
    Seq::new(
        targets.len(),
        |j: int|
            if indices.contains(j as usize) {
                ExactTarget {
                    gop,
                    sample_index: targets[j].sample_index,
                    presentation_tick: targets[j].presentation_tick,
                    token: token_of(v, gop, targets[j].sample_index as int),
                }
            } else {
                targets[j]
            },
    )
}

/// How many of the targets named are shown at position `p` of a group.
pub open spec fn uses(
    targets: Seq<ExactTarget>,
    v: sample_timing::TimelineView,
    gop: Gop,
    indices: Seq<usize>,
    p: int,
) -> nat
    decreases indices.len(),
{
    if indices.len() == 0 {
        0
    } else {
        uses(targets, v, gop, indices.drop_last(), p) + if position(
            v,
            gop,
            targets[indices.last() as int].sample_index as int,
        ) == p {
            1nat
        } else {
            0nat
        }
    }
}

/// The positions below `n` that targets are shown at, each with the number
/// of its targets.
pub open spec fn wanted_below(
    targets: Seq<ExactTarget>,
    v: sample_timing::TimelineView,
    gop: Gop,
    indices: Seq<usize>,
    n: int,
) -> Seq<(FrameToken, usize)>
    decreases n,
{
    if n <= 0 {
        Seq::empty()
    } else {
        let below = wanted_below(targets, v, gop, indices, n - 1);
        let count = uses(targets, v, gop, indices, n - 1);
        if count > 0 {
            below.push((FrameToken((n - 1) as u64), count as usize))
        } else {
            below
        }
    }
}

/// Whether a group can be planned: its samples are not too many.
pub open spec fn fits_batch(gop: Gop) -> bool {
    countable(gop) && gop_len(gop) <= MAX_SAMPLES_PER_THUMBNAIL_BATCH
}

/// Whether a group lies in a timeline.
pub open spec fn on_timeline(v: sample_timing::TimelineView, gop: Gop) -> bool {
    1 <= gop.start_sample && gop.end_sample <= v.count()
}

proof fn lemma_uses_bound(
    targets: Seq<ExactTarget>,
    v: sample_timing::TimelineView,
    gop: Gop,
    indices: Seq<usize>,
    p: int,
)
    ensures
        uses(targets, v, gop, indices, p) <= indices.len(),
    decreases indices.len(),
{
    if indices.len() > 0 {
        lemma_uses_bound(targets, v, gop, indices.drop_last(), p);
    }
}

proof fn lemma_inside(targets: Seq<ExactTarget>, gop: Gop, indices: Seq<usize>, k: int, j: int)
    requires
        0 <= k <= j <= indices.len(),
        forall|m: int|
            k <= m < j ==> in_gop(gop, targets[#[trigger] indices[m] as int].sample_index as int),
    ensures
        inside(targets, gop, indices, k) == inside(targets, gop, indices, j),
    decreases j - k,
{
    if k < j {
        assert(in_gop(gop, targets[indices[k] as int].sample_index as int));
        lemma_inside(targets, gop, indices, k + 1, j);
    }
}

/// Truncates a group at its last targeted sample and assigns each target its
/// presentation-order position within the truncated range.
///
/// Decoding is causal in decode order, so samples past the last target are
/// not needed to reconstruct any target. The presentation positions are those
/// within the truncated range: trailing B-frames can present before earlier
/// samples, so positions differ from the full-group order.
pub fn plan_gop_job(
    timeline: &PresentationTimeline,
    truncated: Gop,
    target_indices: &[usize],
    targets: &mut Vec<ExactTarget>,
) -> (r: Result<JobPlan, MediaParserError>)
    requires
        forall|k: int|
            0 <= k < target_indices@.len() ==> #[trigger] target_indices@[k] < old(targets)@.len(),
    ensures
        final(targets)@.len() == old(targets)@.len(),
        ({
            let v = timeline@;
            let n = inside(old(targets)@, truncated, target_indices@, 0);
            if !fits_batch(truncated) {
                r matches Err(e) && e@ == too_many() && final(targets)@ == old(targets)@
            } else if !on_timeline(v, truncated) {
                r matches Err(e) && e@ == errors::ErrorView::InvalidFormat(
                    "invalid video timing tables"@,
                ) && final(targets)@ == old(targets)@
            } else if n < target_indices@.len() {
                r matches Err(e) && e@ == errors::ErrorView::InvalidFormat(
                    "selected sample is outside its GOP"@,
                ) && final(targets)@ == assigned(
                    old(targets)@,
                    v,
                    truncated,
                    target_indices@.take(n),
                )
            } else {
                &&& r matches Ok(plan)
                &&& plan.gop == truncated
                &&& plan.tokens@ == Seq::new(
                    gop_len(truncated) as nat,
                    |k: int| token_of(v, truncated, truncated.start_sample + k),
                )
                &&& plan.wanted@ == wanted_below(
                    old(targets)@,
                    v,
                    truncated,
                    target_indices@,
                    gop_len(truncated),
                )
                &&& final(targets)@ == assigned(old(targets)@, v, truncated, target_indices@)
            }
        }),
{
    let len: usize = match gop_sample_count(truncated) {
        Ok(len) => len,
        Err(e) => {
            return Err(e);
        },
    };
    if len > MAX_SAMPLES_PER_THUMBNAIL_BATCH {
        return Err(too_many_thumbnail_samples());
    }
    let places: Vec<usize> = match positions(timeline, truncated, len) {
        Some(places) => places,
        None => {
            return Err(MediaParserError::invalid("invalid video timing tables"));
        },
    };
    let ghost v = timeline@;
    let ghost given = targets@;
    let ghost indices = target_indices@;
    let mut tokens: Vec<FrameToken> = Vec::new();
    let mut counts: Vec<usize> = Vec::new();
    let mut i: usize = 0;
    while i < len
        invariant
            i <= len,
            len == places@.len(),
            len == gop_len(truncated),
            tokens@.len() == i,
            counts@.len() == i,
            forall|k: int|
                0 <= k < len ==> #[trigger] places@[k] == position(
                    v,
                    truncated,
                    truncated.start_sample + k,
                ),
            forall|k: int|
                0 <= k < i ==> #[trigger] tokens@[k] == token_of(
                    v,
                    truncated,
                    truncated.start_sample + k,
                ),
            forall|k: int| 0 <= k < i ==> #[trigger] counts@[k] == 0,
        decreases len - i,
    {
        tokens.push(FrameToken::new(places[i] as u64));
        counts.push(0);
        i = i + 1;
    }
    let named: usize = target_indices.len();
    let target_count: usize = targets.len();
    let mut k: usize = 0;
    assert(indices.take(0) =~= Seq::empty());
    assert(targets@ =~= assigned(given, v, truncated, indices.take(0)));
    while k < named
        invariant
            k <= indices.len(),
            indices == target_indices@,
            indices.len() == named,
            given.len() == target_count,
            targets@.len() == given.len(),
            given == old(targets)@,
            v == timeline@,
            fits_batch(truncated),
            on_timeline(v, truncated),
            len == gop_len(truncated),
            len == places@.len(),
            len == counts@.len(),
            forall|m: int| 0 <= m < indices.len() ==> #[trigger] indices[m] < given.len(),
            forall|m: int|
                0 <= m < len ==> #[trigger] places@[m] == position(
                    v,
                    truncated,
                    truncated.start_sample + m,
                ),
            forall|m: int| 0 <= m < len ==> #[trigger] places@[m] < len,
            forall|m: int|
                0 <= m < k ==> in_gop(
                    truncated,
                    given[#[trigger] indices[m] as int].sample_index as int,
                ),
            forall|p: int|
                0 <= p < len ==> #[trigger] counts@[p] == uses(
                    given,
                    v,
                    truncated,
                    indices.take(k as int),
                    p,
                ),
            targets@ == assigned(given, v, truncated, indices.take(k as int)),
        decreases indices.len() - k,
    {
        let at: usize = target_indices[k];
        let mut target: ExactTarget = targets[at];
        let sample: u32 = target.sample_index;
        let ghost done = indices.take(k as int);
        let ghost next = indices.take(k + 1);
        proof {
            assert(next.drop_last() =~= done);
            assert(sample == given[at as int].sample_index);
        }
        if sample < truncated.start_sample || sample > truncated.end_sample {
            proof {
                lemma_inside(given, truncated, indices, 0, k as int);
            }
            return Err(MediaParserError::invalid("selected sample is outside its GOP"));
        }
        let place: usize = places[(sample - truncated.start_sample) as usize];
        proof {
            assert(place == position(v, truncated, sample as int));
            lemma_uses_bound(given, v, truncated, done, place as int);
        }
        target.gop = truncated;
        target.token = FrameToken::new(place as u64);
        let ghost before = targets@;
        targets.set(at, target);
        let ghost counted = counts@;
        let count: usize = counts[place];
        counts.set(place, count + 1);
        proof {
            assert forall|j: int| 0 <= j < given.len() implies #[trigger] targets@[j] == assigned(
                given,
                v,
                truncated,
                next,
            )[j] by {
                if j == at {
                    assert(next[k as int] == j as usize);
                    assert(next.contains(j as usize));
                } else {
                    assert(next.contains(j as usize) == done.contains(j as usize)) by {
                        if done.contains(j as usize) {
                            let m = choose|m: int| 0 <= m < done.len() && done[m] == j as usize;
                            assert(next[m] == j as usize);
                        }
                        if next.contains(j as usize) {
                            let m = choose|m: int| 0 <= m < next.len() && next[m] == j as usize;
                            assert(done[m] == j as usize);
                        }
                    }
                    assert(before[j] == assigned(given, v, truncated, done)[j]);
                }
            }
            assert(targets@ =~= assigned(given, v, truncated, next));
            assert forall|p: int| 0 <= p < len implies #[trigger] counts@[p] == uses(
                given,
                v,
                truncated,
                next,
                p,
            ) by {
                assert(counted[p] == uses(given, v, truncated, done, p));
            }
        }
        k = k + 1;
    }
    proof {
        lemma_inside(given, truncated, indices, 0, k as int);
        assert(indices.take(k as int) =~= indices);
    }
    let mut wanted: Vec<(FrameToken, usize)> = Vec::new();
    let mut p: usize = 0;
    while p < len
        invariant
            p <= len,
            len == counts@.len(),
            forall|q: int|
                0 <= q < len ==> #[trigger] counts@[q] == uses(given, v, truncated, indices, q),
            wanted@ == wanted_below(given, v, truncated, indices, p as int),
        decreases len - p,
    {
        assert(counts@[p as int] == uses(given, v, truncated, indices, p as int));
        if counts[p] > 0 {
            wanted.push((FrameToken::new(p as u64), counts[p]));
        }
        p = p + 1;
    }
    assert(tokens@ =~= Seq::new(
        gop_len(truncated) as nat,
        |k: int| token_of(v, truncated, truncated.start_sample + k),
    ));
    Ok(JobPlan { gop: truncated, tokens, wanted })
}

/// Different samples of a group have different positions, and each position
/// is below the number of samples.
pub proof fn law_positions_are_distinct(
    v: sample_timing::TimelineView,
    gop: Gop,
    i: int,
    j: int,
)
    requires
        in_gop(gop, i),
        in_gop(gop, j),
        v.shown_before(i, j),
    ensures
        position(v, gop, i) < position(v, gop, j) < gop_len(gop),
{
    let start = gop.start_sample as int;
    lemma_shown_earlier_grows(v, start, gop_len(gop), i, j);
    lemma_shown_earlier_bound(v, start, gop_len(gop), j);
}

proof fn lemma_shown_earlier_grows(
    v: sample_timing::TimelineView,
    start: int,
    n: int,
    i: int,
    j: int,
)
    requires
        0 <= n,
        v.shown_before(i, j),
    ensures
        shown_earlier(v, start, n, i) + (if start <= i < start + n {
            1int
        } else {
            0int
        }) <= shown_earlier(v, start, n, j),
    decreases n,
{
    if n > 0 {
        lemma_shown_earlier_grows(v, start, n - 1, i, j);
        let m = start + n - 1;
        if v.shown_before(m, i) {
            assert(v.shown_before(m, j));
        }
    }
}

proof fn lemma_shown_earlier_bound(v: sample_timing::TimelineView, start: int, n: int, j: int)
    requires
        0 <= n,
    ensures
        shown_earlier(v, start, n, j) + (if start <= j < start + n {
            1int
        } else {
            0int
        }) <= n,
    decreases n,
{
    if n > 0 {
        lemma_shown_earlier_bound(v, start, n - 1, j);
    }
}

/// Whether a token is among those wanted.
pub open spec fn is_named(wanted: Seq<(FrameToken, usize)>, token: FrameToken) -> bool {
    exists|k: int| 0 <= k < wanted.len() && (#[trigger] wanted[k]).0 == token
}

/// The token of each target named is among those wanted of its group.
pub proof fn law_named_targets_are_wanted(
    targets: Seq<ExactTarget>,
    v: sample_timing::TimelineView,
    gop: Gop,
    indices: Seq<usize>,
    m: int,
)
    requires
        0 <= m < indices.len(),
        in_gop(gop, targets[indices[m] as int].sample_index as int),
    ensures
        is_named(
            wanted_below(targets, v, gop, indices, gop_len(gop)),
            token_of(v, gop, targets[indices[m] as int].sample_index as int),
        ),
{
    let i = targets[indices[m] as int].sample_index as int;
    lemma_shown_earlier_bound(v, gop.start_sample as int, gop_len(gop), i);
    lemma_used(targets, v, gop, indices, m);
    lemma_wanted_named(targets, v, gop, indices, gop_len(gop), position(v, gop, i) as int);
}

proof fn lemma_used(
    targets: Seq<ExactTarget>,
    v: sample_timing::TimelineView,
    gop: Gop,
    indices: Seq<usize>,
    m: int,
)
    requires
        0 <= m < indices.len(),
    ensures
        uses(
            targets,
            v,
            gop,
            indices,
            position(v, gop, targets[indices[m] as int].sample_index as int) as int,
        ) > 0,
    decreases indices.len(),
{
    if m < indices.len() - 1 {
        assert(indices.drop_last()[m] == indices[m]);
        lemma_used(targets, v, gop, indices.drop_last(), m);
    }
}

proof fn lemma_wanted_named(
    targets: Seq<ExactTarget>,
    v: sample_timing::TimelineView,
    gop: Gop,
    indices: Seq<usize>,
    n: int,
    p: int,
)
    requires
        0 <= p < n,
        uses(targets, v, gop, indices, p) > 0,
    ensures
        is_named(wanted_below(targets, v, gop, indices, n), FrameToken(p as u64)),
    decreases n,
{
    let below = wanted_below(targets, v, gop, indices, n - 1);
    let all = wanted_below(targets, v, gop, indices, n);
    if p == n - 1 {
        assert(all.last().0 == FrameToken(p as u64));
    } else {
        lemma_wanted_named(targets, v, gop, indices, n - 1, p);
        let k = choose|k: int| 0 <= k < below.len() && (#[trigger] below[k]).0 == FrameToken(
            p as u64,
        );
        assert(all[k] == below[k]);
    }
}

/// Tokens follow the order of presentation, and that of decoding where two samples
/// are shown at the same tick.
pub proof fn law_tokens_follow_presentation(
    v: sample_timing::TimelineView,
    gop: Gop,
    i: int,
    j: int,
)
    requires
        in_gop(gop, i),
        in_gop(gop, j),
    ensures
        v.tick(i) < v.tick(j) ==> token_of(v, gop, i).0 < token_of(v, gop, j).0,
        v.tick(i) == v.tick(j) && i < j ==> token_of(v, gop, i).0 < token_of(v, gop, j).0,
{
    if v.tick(i) < v.tick(j) || (v.tick(i) == v.tick(j) && i < j) {
        assert(v.shown_before(i, j));
        law_positions_are_distinct(v, gop, i, j);
        assert(gop_len(gop) <= u64::MAX);
    }
}

/// The number of targets that are wanted in all.
pub open spec fn wanted_total(wanted: Seq<(FrameToken, usize)>) -> int
    decreases wanted.len(),
{
    if wanted.len() == 0 {
        0
    } else {
        wanted_total(wanted.drop_last()) + wanted.last().1
    }
}

/// Every target named is counted once among those wanted of its group, and tokens
/// are wanted in rising order.
pub proof fn law_every_target_is_counted(
    targets: Seq<ExactTarget>,
    v: sample_timing::TimelineView,
    gop: Gop,
    indices: Seq<usize>,
)
    requires
        indices.len() <= usize::MAX,
        gop_len(gop) <= u64::MAX,
        forall|k: int|
            0 <= k < indices.len() ==> in_gop(
                gop,
                targets[#[trigger] indices[k] as int].sample_index as int,
            ),
    ensures
        ({
            let wanted = wanted_below(targets, v, gop, indices, gop_len(gop));
            &&& wanted_total(wanted) == indices.len()
            &&& forall|a: int, b: int|
                0 <= a < b < wanted.len() ==> (#[trigger] wanted[a]).0.0 < (
                #[trigger] wanted[b]).0.0
            &&& forall|a: int| 0 <= a < wanted.len() ==> (#[trigger] wanted[a]).1 > 0
        }),
{
    let n = gop_len(gop);
    lemma_wanted_total(targets, v, gop, indices, n);
    lemma_counted_all(targets, v, gop, indices, n);
}

/// The number of targets that are shown at the first `n` positions.
spec fn counted(
    targets: Seq<ExactTarget>,
    v: sample_timing::TimelineView,
    gop: Gop,
    indices: Seq<usize>,
    n: int,
) -> int
    decreases n,
{
    if n <= 0 {
        0
    } else {
        counted(targets, v, gop, indices, n - 1) + uses(targets, v, gop, indices, n - 1)
    }
}

proof fn lemma_uses_at_most(
    targets: Seq<ExactTarget>,
    v: sample_timing::TimelineView,
    gop: Gop,
    indices: Seq<usize>,
    p: int,
)
    ensures
        uses(targets, v, gop, indices, p) <= indices.len(),
    decreases indices.len(),
{
    if indices.len() > 0 {
        lemma_uses_at_most(targets, v, gop, indices.drop_last(), p);
    }
}

proof fn lemma_wanted_total(
    targets: Seq<ExactTarget>,
    v: sample_timing::TimelineView,
    gop: Gop,
    indices: Seq<usize>,
    n: int,
)
    requires
        indices.len() <= usize::MAX,
        n <= u64::MAX,
    ensures
        ({
            let wanted = wanted_below(targets, v, gop, indices, n);
            &&& wanted_total(wanted) == counted(targets, v, gop, indices, n)
            &&& forall|a: int| 0 <= a < wanted.len() ==> (#[trigger] wanted[a]).0.0 < n
            &&& forall|a: int, b: int|
                0 <= a < b < wanted.len() ==> (#[trigger] wanted[a]).0.0 < (
                #[trigger] wanted[b]).0.0
            &&& forall|a: int| 0 <= a < wanted.len() ==> (#[trigger] wanted[a]).1 > 0
        }),
    decreases n,
{
    if n > 0 {
        lemma_wanted_total(targets, v, gop, indices, n - 1);
        lemma_uses_at_most(targets, v, gop, indices, n - 1);
        let below = wanted_below(targets, v, gop, indices, n - 1);
        let wanted = wanted_below(targets, v, gop, indices, n);
        if uses(targets, v, gop, indices, n - 1) > 0 {
            assert(wanted.drop_last() =~= below);
        }
    }
}

proof fn lemma_counted(
    targets: Seq<ExactTarget>,
    v: sample_timing::TimelineView,
    gop: Gop,
    indices: Seq<usize>,
    n: int,
)
    requires
        indices.len() > 0,
        0 <= n,
    ensures
        ({
            let p = position(v, gop, targets[indices.last() as int].sample_index as int);
            counted(targets, v, gop, indices, n) == counted(
                targets,
                v,
                gop,
                indices.drop_last(),
                n,
            ) + if p < n {
                1int
            } else {
                0int
            }
        }),
    decreases n,
{
    if n > 0 {
        lemma_counted(targets, v, gop, indices, n - 1);
    }
}

proof fn lemma_counted_none(
    targets: Seq<ExactTarget>,
    v: sample_timing::TimelineView,
    gop: Gop,
    indices: Seq<usize>,
    n: int,
)
    requires
        indices.len() == 0,
    ensures
        counted(targets, v, gop, indices, n) == 0,
    decreases n,
{
    if n > 0 {
        lemma_counted_none(targets, v, gop, indices, n - 1);
    }
}

proof fn lemma_counted_all(
    targets: Seq<ExactTarget>,
    v: sample_timing::TimelineView,
    gop: Gop,
    indices: Seq<usize>,
    n: int,
)
    requires
        n == gop_len(gop),
        forall|k: int|
            0 <= k < indices.len() ==> in_gop(
                gop,
                targets[#[trigger] indices[k] as int].sample_index as int,
            ),
    ensures
        counted(targets, v, gop, indices, n) == indices.len(),
    decreases indices.len(),
{
    if indices.len() == 0 {
        lemma_counted_none(targets, v, gop, indices, n);
    } else {
        let before = indices.drop_last();
        assert forall|k: int| 0 <= k < before.len() implies in_gop(
            gop,
            targets[#[trigger] before[k] as int].sample_index as int,
        ) by {
            assert(before[k] == indices[k]);
        }
        lemma_counted_all(targets, v, gop, before, n);
        let last = targets[indices[indices.len() - 1] as int].sample_index as int;
        assert(in_gop(gop, last));
        lemma_shown_earlier_bound(v, gop.start_sample as int, n, last);
        lemma_counted(targets, v, gop, indices, n);
    }
}

} // verus!
