//! Targets grouped by what is decoded for them.

use vstd::prelude::*;
use super::plan;
use super::plan::gop_sample_count;
use super::{ExactTarget, Gop, JobPlan, MAX_SAMPLES_PER_THUMBNAIL_BATCH};
use crate::decoders::h264::FrameToken;
use crate::errors;
use crate::errors::MediaParserError;

verus! {

// --------------------
// Grouping
// --------------------

/// Whether a group comes before another: by its start, then by its end.
pub open spec fn gop_before(a: Gop, b: Gop) -> bool {
    a.start_sample < b.start_sample || (a.start_sample == b.start_sample && a.end_sample
        < b.end_sample)
}

fn comes_before(a: Gop, b: Gop) -> (r: bool)
    ensures
        r == gop_before(a, b),
{
    a.start_sample < b.start_sample || (a.start_sample == b.start_sample && a.end_sample
        < b.end_sample)
}

/// Those of the first `n` targets that have a group, by their places.
pub open spec fn members(targets: Seq<ExactTarget>, gop: Gop, n: int) -> Seq<usize>
    decreases n,
{
    if n <= 0 {
        Seq::empty()
    } else if targets[n - 1].gop == gop {
        members(targets, gop, n - 1).push((n - 1) as usize)
    } else {
        members(targets, gop, n - 1)
    }
}

/// What grouped targets are.
pub open spec fn groups_view(groups: Seq<(Gop, Vec<usize>)>) -> Seq<(Gop, Seq<usize>)> {
    Seq::new(groups.len(), |i: int| (groups[i].0, groups[i].1@))
}

/// Whether the first `n` targets are grouped: the groups are in order without
/// a repetition, every one holds exactly its members, and every target has
/// its group among them.
pub open spec fn groups_targets(
    groups: Seq<(Gop, Seq<usize>)>,
    targets: Seq<ExactTarget>,
    n: int,
) -> bool {
    &&& forall|a: int, b: int|
        0 <= a < b < groups.len() ==> gop_before(
            (#[trigger] groups[a]).0,
            (#[trigger] groups[b]).0,
        )
    &&& forall|a: int|
        0 <= a < groups.len() ==> (#[trigger] groups[a]).1 == members(targets, groups[a].0, n)
    &&& forall|a: int| 0 <= a < groups.len() ==> (#[trigger] groups[a]).1.len() > 0
    &&& forall|j: int|
        0 <= j < n ==> has_group(groups, (#[trigger] targets[j]).gop)
}

/// Whether a group is among others.
pub open spec fn has_group(groups: Seq<(Gop, Seq<usize>)>, gop: Gop) -> bool {
    exists|a: int| 0 <= a < groups.len() && (#[trigger] groups[a]).0 == gop
}

proof fn lemma_members_absent(targets: Seq<ExactTarget>, gop: Gop, n: int)
    requires
        0 <= n <= targets.len(),
        forall|j: int| 0 <= j < n ==> (#[trigger] targets[j]).gop != gop,
    ensures
        members(targets, gop, n) == Seq::<usize>::empty(),
    decreases n,
{
    if n > 0 {
        lemma_members_absent(targets, gop, n - 1);
    }
}

/// A target is a member of its group.
pub proof fn lemma_is_member(targets: Seq<ExactTarget>, n: int, j: int)
    requires
        0 <= j < n,
    ensures
        members(targets, targets[j].gop, n).contains(j as usize),
    decreases n,
{
    let list = members(targets, targets[j].gop, n);
    if j == n - 1 {
        assert(list.last() == j as usize);
    } else {
        lemma_is_member(targets, n - 1, j);
        let before = members(targets, targets[j].gop, n - 1);
        let k = choose|k: int| 0 <= k < before.len() && before[k] == j as usize;
        assert(list[k] == before[k]);
    }
}

/// The members of a group are places of targets.
pub proof fn lemma_members_in_range(targets: Seq<ExactTarget>, gop: Gop, n: int)
    requires
        0 <= n <= targets.len(),
        targets.len() <= usize::MAX,
    ensures
        forall|k: int|
            0 <= k < members(targets, gop, n).len() ==> 0 <= #[trigger] members(
                targets,
                gop,
                n,
            )[k] < n && targets[members(targets, gop, n)[k] as int].gop == gop,
    decreases n,
{
    if n > 0 {
        lemma_members_in_range(targets, gop, n - 1);
        let list = members(targets, gop, n);
        let shorter = members(targets, gop, n - 1);
        assert forall|k: int| 0 <= k < list.len() implies 0 <= #[trigger] list[k] < n
            && targets[list[k] as int].gop == gop by {
            if k < shorter.len() {
                assert(list[k] == shorter[k]);
            }
        }
    }
}

/// Where a group stands in ordered groups, or where it would be put.
fn place_of(groups: &Vec<(Gop, Vec<usize>)>, gop: Gop) -> (r: usize)
    requires
        forall|a: int, b: int|
            0 <= a < b < groups@.len() ==> gop_before(
                (#[trigger] groups@[a]).0,
                (#[trigger] groups@[b]).0,
            ),
    ensures
        r <= groups@.len(),
        forall|a: int| 0 <= a < r ==> gop_before((#[trigger] groups@[a]).0, gop),
        forall|a: int|
            r <= a < groups@.len() ==> !gop_before((#[trigger] groups@[a]).0, gop),
        forall|a: int|
            r < a < groups@.len() ==> gop_before(gop, (#[trigger] groups@[a]).0),
{
    let mut place: usize = 0;
    while place < groups.len() && comes_before(groups[place].0, gop)
        invariant
            place <= groups@.len(),
            forall|a: int| 0 <= a < place ==> gop_before((#[trigger] groups@[a]).0, gop),
        decreases groups@.len() - place,
    {
        place = place + 1;
    }
    proof {
        assert forall|a: int| place < a < groups@.len() implies gop_before(
            gop,
            (#[trigger] groups@[a]).0,
        ) by {
            assert(gop_before(groups@[place as int].0, groups@[a].0));
        }
    }
    place
}

/// Groups targets by the group that is decoded for them.
pub fn group_targets(targets: &[ExactTarget]) -> (r: Vec<(Gop, Vec<usize>)>)
    ensures
        groups_targets(groups_view(r@), targets@, targets@.len() as int),
{
    let mut groups: Vec<(Gop, Vec<usize>)> = Vec::new();
    let mut i: usize = 0;
    let len: usize = targets.len();
    while i < len
        invariant
            i <= len,
            len == targets@.len(),
            groups_targets(groups_view(groups@), targets@, i as int),
        decreases len - i,
    {
        let gop: Gop = targets[i].gop;
        let ghost before = groups_view(groups@);
        let ghost n = i as int;
        proof {
            assert forall|a: int, b: int| 0 <= a < b < groups@.len() implies gop_before(
                (#[trigger] groups@[a]).0,
                (#[trigger] groups@[b]).0,
            ) by {
                assert(gop_before(before[a].0, before[b].0));
            }
        }
        let place: usize = place_of(&groups, gop);
        if place < groups.len() && groups[place].0.start_sample == gop.start_sample
            && groups[place].0.end_sample == gop.end_sample {
            groups[place].1.push(i);
            proof {
                let after = groups_view(groups@);
                assert(after =~= before.update(
                    place as int,
                    (gop, before[place as int].1.push(i)),
                ));
                lemma_group_joined(before, targets@, n, place as int);
            }
        } else {
            let mut own: Vec<usize> = Vec::new();
            own.push(i);
            let ghost added = own@;
            groups.insert(place, (gop, own));
            proof {
                let after = groups_view(groups@);
                assert(after =~= before.insert(place as int, (gop, added)));
                assert(added =~= seq![i]);
                lemma_group_opened(before, targets@, n, place as int);
            }
        }
        i = i + 1;
    }
    groups
}

proof fn lemma_group_joined(
    groups: Seq<(Gop, Seq<usize>)>,
    targets: Seq<ExactTarget>,
    n: int,
    place: int,
)
    requires
        groups_targets(groups, targets, n),
        0 <= n < targets.len() <= usize::MAX,
        0 <= place < groups.len(),
        groups[place].0 == targets[n].gop,
    ensures
        groups_targets(
            groups.update(place, (groups[place].0, groups[place].1.push(n as usize))),
            targets,
            n + 1,
        ),
{
    let after = groups.update(place, (groups[place].0, groups[place].1.push(n as usize)));
    assert forall|a: int| 0 <= a < after.len() implies (#[trigger] after[a]).1 == members(
        targets,
        after[a].0,
        n + 1,
    ) by {
        assert(groups[a].1 == members(targets, groups[a].0, n));
        if a != place {
            assert(groups[a].0 != groups[place].0) by {
                if a < place {
                    assert(gop_before(groups[a].0, groups[place].0));
                } else {
                    assert(gop_before(groups[place].0, groups[a].0));
                }
            }
        }
    }
    assert forall|j: int| 0 <= j < n + 1 implies has_group(after, (#[trigger] targets[j]).gop) by {
        if j < n {
            assert(has_group(groups, targets[j].gop));
            let a = choose|a: int| 0 <= a < groups.len() && (#[trigger] groups[a]).0
                == targets[j].gop;
            assert(after[a].0 == targets[j].gop);
        } else {
            assert(after[place].0 == targets[j].gop);
        }
    }
}

proof fn lemma_group_opened(
    groups: Seq<(Gop, Seq<usize>)>,
    targets: Seq<ExactTarget>,
    n: int,
    place: int,
)
    requires
        groups_targets(groups, targets, n),
        0 <= n < targets.len() <= usize::MAX,
        0 <= place <= groups.len(),
        forall|a: int| 0 <= a < place ==> gop_before((#[trigger] groups[a]).0, targets[n].gop),
        forall|a: int|
            place <= a < groups.len() ==> gop_before(targets[n].gop, (#[trigger] groups[a]).0),
    ensures
        groups_targets(
            groups.insert(place, (targets[n].gop, seq![n as usize])),
            targets,
            n + 1,
        ),
{
    let gop = targets[n].gop;
    let after = groups.insert(place, (gop, seq![n as usize]));
    assert forall|j: int| 0 <= j < n implies (#[trigger] targets[j]).gop != gop by {
        assert(has_group(groups, targets[j].gop));
    }
    lemma_members_absent(targets, gop, n);
    assert forall|a: int| 0 <= a < after.len() implies (#[trigger] after[a]).1 == members(
        targets,
        after[a].0,
        n + 1,
    ) && after[a].1.len() > 0 by {
        if a == place {
            assert(members(targets, gop, n + 1) =~= seq![n as usize]);
        } else {
            let b = if a < place {
                a
            } else {
                a - 1
            };
            assert(after[a] == groups[b]);
            assert(groups[b].1 == members(targets, groups[b].0, n));
        }
    }
    assert forall|a: int, b: int| 0 <= a < b < after.len() implies gop_before(
        (#[trigger] after[a]).0,
        (#[trigger] after[b]).0,
    ) by {
        let c = if a < place {
            a
        } else {
            a - 1
        };
        let d = if b < place {
            b
        } else {
            b - 1
        };
        if a != place {
            assert(after[a] == groups[c]);
        }
        if b != place {
            assert(after[b] == groups[d]);
        }
    }
    assert forall|j: int| 0 <= j < n + 1 implies has_group(after, (#[trigger] targets[j]).gop) by {
        if j < n {
            assert(has_group(groups, targets[j].gop));
            let a = choose|a: int| 0 <= a < groups.len() && (#[trigger] groups[a]).0
                == targets[j].gop;
            let b = if a < place {
                a
            } else {
                a + 1
            };
            assert(after[b] == groups[a]);
        } else {
            assert(after[place].0 == gop);
        }
    }
}

// --------------------
// Truncation
// --------------------

/// The last sample among the targets named.
pub open spec fn last_sample(targets: Seq<ExactTarget>, indices: Seq<usize>) -> int
    decreases indices.len(),
{
    if indices.len() == 0 {
        0
    } else {
        let before = last_sample(targets, indices.drop_last());
        let sample = targets[indices.last() as int].sample_index as int;
        if sample > before {
            sample
        } else {
            before
        }
    }
}

/// A group cut behind the last sample among the targets named. All of them
/// must be there, and there must be one.
pub open spec fn truncation(gop: Gop, indices: Seq<usize>, targets: Seq<ExactTarget>) -> Result<
    Gop,
    errors::ErrorView,
> {
    if exists|k: int| 0 <= k < indices.len() && #[trigger] indices[k] >= targets.len() {
        Err(errors::ErrorView::InvalidFormat("invalid thumbnail target"@))
    } else if indices.len() == 0 {
        Err(errors::ErrorView::InvalidFormat("thumbnail GOP has no targets"@))
    } else {
        Ok(
            Gop {
                start_sample: gop.start_sample,
                end_sample: last_sample(targets, indices) as u32,
            },
        )
    }
}

/// Cuts a group behind the last sample among the targets named.
pub fn truncated_gop(gop: Gop, target_indices: &[usize], targets: &[ExactTarget]) -> (r: Result<
    Gop,
    MediaParserError,
>)
    ensures
        match r {
            Ok(g) => truncation(gop, target_indices@, targets@) == Ok::<Gop, errors::ErrorView>(g),
            Err(e) => truncation(gop, target_indices@, targets@) == Err::<Gop, errors::ErrorView>(
                e@,
            ),
        },
{
    let ghost indices = target_indices@;
    let mut end_sample: u32 = 0;
    let mut i: usize = 0;
    assert(indices.take(0) =~= Seq::empty());
    while i < target_indices.len()
        invariant
            i <= indices.len(),
            indices == target_indices@,
            end_sample == last_sample(targets@, indices.take(i as int)),
            forall|k: int| 0 <= k < i ==> #[trigger] indices[k] < targets@.len(),
        decreases indices.len() - i,
    {
        let at: usize = target_indices[i];
        if at >= targets.len() {
            assert(indices[i as int] >= targets@.len());
            return Err(MediaParserError::invalid("invalid thumbnail target"));
        }
        assert(indices.take(i + 1).drop_last() =~= indices.take(i as int));
        let sample: u32 = targets[at].sample_index;
        if sample > end_sample {
            end_sample = sample;
        }
        i = i + 1;
    }
    assert(indices.take(i as int) =~= indices);
    if target_indices.len() == 0 {
        return Err(MediaParserError::invalid("thumbnail GOP has no targets"));
    }
    Ok(Gop { start_sample: gop.start_sample, end_sample })
}

/// The first `n` groups cut behind their last targets, and their samples in
/// all, where these are not too many.
pub open spec fn truncations(
    groups: Seq<(Gop, Seq<usize>)>,
    targets: Seq<ExactTarget>,
    n: int,
) -> Result<(Seq<(Gop, Seq<usize>)>, int), errors::ErrorView>
    decreases n,
{
    if n <= 0 {
        Ok((Seq::empty(), 0))
    } else {
        match truncations(groups, targets, n - 1) {
            Ok((list, total)) => match truncation(groups[n - 1].0, groups[n - 1].1, targets) {
                Ok(gop) => if !plan::countable(gop) || total + plan::gop_len(gop)
                    > MAX_SAMPLES_PER_THUMBNAIL_BATCH {
                    Err(plan::too_many())
                } else {
                    Ok((list.push((gop, groups[n - 1].1)), total + plan::gop_len(gop)))
                },
                Err(e) => Err(e),
            },
            Err(e) => Err(e),
        }
    }
}

/// An error among the first groups is the error of all.
proof fn lemma_truncations_fail(
    groups: Seq<(Gop, Seq<usize>)>,
    targets: Seq<ExactTarget>,
    k: int,
    n: int,
)
    requires
        0 <= k <= n,
        truncations(groups, targets, k) is Err,
    ensures
        truncations(groups, targets, n) == truncations(groups, targets, k),
    decreases n,
{
    if k < n {
        lemma_truncations_fail(groups, targets, k, n - 1);
    }
}

/// Cuts groups behind their last targets and counts their samples.
pub fn truncate_and_validate_gops(
    targets_by_gop: Vec<(Gop, Vec<usize>)>,
    targets: &[ExactTarget],
) -> (r: Result<Vec<(Gop, Vec<usize>)>, MediaParserError>)
    ensures
        match r {
            Ok(list) => truncations(
                groups_view(targets_by_gop@),
                targets@,
                targets_by_gop@.len() as int,
            ) matches Ok((cut, _)) && cut == groups_view(list@),
            Err(e) => truncations(
                groups_view(targets_by_gop@),
                targets@,
                targets_by_gop@.len() as int,
            ) == Err::<(Seq<(Gop, Seq<usize>)>, int), errors::ErrorView>(e@),
        },
{
    let ghost given = groups_view(targets_by_gop@);
    let mut groups: Vec<(Gop, Vec<usize>)> = targets_by_gop;
    let mut total: usize = 0;
    let mut i: usize = 0;
    let len: usize = groups.len();
    assert(groups_view(groups@).take(0) =~= Seq::empty());
    while i < len
        invariant
            i <= len,
            len == groups@.len(),
            len == given.len(),
            given == groups_view(targets_by_gop@),
            total <= MAX_SAMPLES_PER_THUMBNAIL_BATCH,
            truncations(given, targets@, i as int) == Ok::<
                (Seq<(Gop, Seq<usize>)>, int),
                errors::ErrorView,
            >((groups_view(groups@).take(i as int), total as int)),
            forall|k: int|
                i <= k < len ==> #[trigger] groups_view(groups@)[k] == given[k],
        decreases len - i,
    {
        let ghost before = groups_view(groups@);
        assert(before[i as int] == given[i as int]);
        let gop: Gop = match truncated_gop(groups[i].0, groups[i].1.as_slice(), targets) {
            Ok(gop) => gop,
            Err(e) => {
                proof {
                    lemma_truncations_fail(given, targets@, i + 1, len as int);
                }
                return Err(e);
            },
        };
        let count: usize = match gop_sample_count(gop) {
            Ok(count) => count,
            Err(e) => {
                proof {
                    lemma_truncations_fail(given, targets@, i + 1, len as int);
                }
                return Err(e);
            },
        };
        if count > MAX_SAMPLES_PER_THUMBNAIL_BATCH - total {
            proof {
                lemma_truncations_fail(given, targets@, i + 1, len as int);
            }
            return Err(MediaParserError::invalid("too many thumbnail samples"));
        }
        total = total + count;
        groups[i].0 = gop;
        proof {
            let after = groups_view(groups@);
            assert(after =~= before.update(i as int, (gop, before[i as int].1)));
            assert(after.take(i + 1) =~= before.take(i as int).push((gop, given[i as int].1)));
        }
        i = i + 1;
    }
    assert(groups_view(groups@).take(len as int) =~= groups_view(groups@));
    Ok(groups)
}

// --------------------
// Samples to read
// --------------------

/// The samples of the first `n` groups, where they can be counted.
pub open spec fn sample_total(gops: Seq<Gop>, n: int) -> Option<int>
    decreases n,
{
    if n <= 0 {
        Some(0)
    } else {
        match sample_total(gops, n - 1) {
            Some(total) => if plan::countable(gops[n - 1]) {
                Some(total + plan::gop_len(gops[n - 1]))
            } else {
                None
            },
            None => None,
        }
    }
}

/// The numbers of the samples of a group.
pub open spec fn gop_samples(gop: Gop) -> Seq<u32> {
    Seq::new(plan::gop_len(gop) as nat, |k: int| (gop.start_sample + k) as u32)
}

/// The numbers of the samples of the first `n` groups.
pub open spec fn all_samples(gops: Seq<Gop>, n: int) -> Seq<u32>
    decreases n,
{
    if n <= 0 {
        Seq::empty()
    } else {
        all_samples(gops, n - 1) + gop_samples(gops[n - 1])
    }
}

proof fn lemma_total_grows(gops: Seq<Gop>, k: int, n: int)
    requires
        0 <= k <= n,
    ensures
        sample_total(gops, k) is None ==> sample_total(gops, n) is None,
        sample_total(gops, n) matches Some(b) ==> sample_total(gops, k) matches Some(a) && 0 <= a
            <= b,
    decreases n,
{
    if k < n {
        lemma_total_grows(gops, k, n - 1);
    } else if n > 0 {
        lemma_total_grows(gops, n - 1, n - 1);
    }
}

/// The samples to read for groups, where they are not too many.
pub fn samples_for_gops(gops: &[Gop]) -> (r: Result<Vec<u32>, MediaParserError>)
    ensures
        ({
            let total = sample_total(gops@, gops@.len() as int);
            match r {
                Ok(samples) => total is Some && total->0 <= MAX_SAMPLES_PER_THUMBNAIL_BATCH
                    && samples@ == all_samples(gops@, gops@.len() as int),
                Err(e) => (total matches Some(n) ==> n > MAX_SAMPLES_PER_THUMBNAIL_BATCH) && e@
                    == plan::too_many(),
            }
        }),
{
    let mut total: usize = 0;
    let mut i: usize = 0;
    while i < gops.len()
        invariant
            i <= gops@.len(),
            total <= MAX_SAMPLES_PER_THUMBNAIL_BATCH,
            sample_total(gops@, i as int) == Some(total as int),
        decreases gops@.len() - i,
    {
        proof {
            lemma_total_grows(gops@, i + 1, gops@.len() as int);
        }
        match gop_sample_count(gops[i]) {
            Ok(count) => {
                if count > MAX_SAMPLES_PER_THUMBNAIL_BATCH - total {
                    return Err(MediaParserError::invalid("too many thumbnail samples"));
                }
                total = total + count;
            },
            Err(e) => {
                return Err(e);
            },
        }
        i = i + 1;
    }
    let mut samples: Vec<u32> = Vec::new();
    let mut i: usize = 0;
    while i < gops.len()
        invariant
            i <= gops@.len(),
            sample_total(gops@, gops@.len() as int) is Some,
            samples@ == all_samples(gops@, i as int),
        decreases gops@.len() - i,
    {
        let gop: Gop = gops[i];
        let ghost before = samples@;
        proof {
            lemma_total_grows(gops@, i + 1, gops@.len() as int);
        }
        let mut next: u32 = gop.start_sample;
        assert(gop_samples(gop).take(0) =~= Seq::empty());
        while next < gop.end_sample
            invariant
                gop.start_sample <= next <= gop.end_sample,
                samples@ == before + gop_samples(gop).take(next - gop.start_sample),
            decreases gop.end_sample - next,
        {
            samples.push(next);
            proof {
                let k = next - gop.start_sample;
                assert(gop_samples(gop).take(k + 1) =~= gop_samples(gop).take(k).push(
                    gop_samples(gop)[k],
                ));
                assert(samples@ =~= before + gop_samples(gop).take(k + 1));
            }
            next = next + 1;
        }
        samples.push(next);
        assert(samples@ =~= before + gop_samples(gop));
        i = i + 1;
    }
    Ok(samples)
}

// --------------------
// Keyframes
// --------------------

/// The groups that plans are made for.
pub open spec fn planned_groups(plans: Seq<JobPlan>, targets: Seq<ExactTarget>) -> Seq<
    (Gop, Seq<usize>),
> {
    Seq::new(
        plans.len(),
        |i: int| (plans[i].gop, members(targets, plans[i].gop, targets.len() as int)),
    )
}

/// The plans for single frames: one plan per group of targets, with one
/// frame that is used for each of them.
pub fn keyframe_plans(targets: &[ExactTarget]) -> (r: Vec<JobPlan>)
    ensures
        groups_targets(planned_groups(r@, targets@), targets@, targets@.len() as int),
        forall|i: int|
            0 <= i < r@.len() ==> (#[trigger] r@[i]).tokens@ == seq![FrameToken(0)] && r@[i].wanted@
                == seq![
                (
                    FrameToken(0),
                    members(targets@, r@[i].gop, targets@.len() as int).len() as usize,
                ),
            ],
{
    let groups: Vec<(Gop, Vec<usize>)> = group_targets(targets);
    let ghost n = targets@.len() as int;
    let ghost grouped = groups_view(groups@);
    let mut plans: Vec<JobPlan> = Vec::new();
    let mut i: usize = 0;
    while i < groups.len()
        invariant
            i <= groups@.len(),
            n == targets@.len(),
            grouped == groups_view(groups@),
            groups_targets(grouped, targets@, n),
            plans@.len() == i,
            forall|k: int|
                0 <= k < i ==> (#[trigger] plans@[k]).gop == grouped[k].0 && plans@[k].tokens@
                    == seq![FrameToken(0)] && plans@[k].wanted@ == seq![
                    (FrameToken(0), grouped[k].1.len() as usize),
                ],
        decreases groups@.len() - i,
    {
        let mut tokens: Vec<FrameToken> = Vec::new();
        tokens.push(FrameToken::new(0));
        let mut wanted: Vec<(FrameToken, usize)> = Vec::new();
        wanted.push((FrameToken::new(0), groups[i].1.len()));
        assert(tokens@ =~= seq![FrameToken(0)]);
        assert(wanted@ =~= seq![(FrameToken(0), grouped[i as int].1.len() as usize)]);
        plans.push(JobPlan { gop: groups[i].0, tokens, wanted });
        i = i + 1;
    }
    proof {
        assert forall|k: int| 0 <= k < grouped.len() implies #[trigger] planned_groups(
            plans@,
            targets@,
        )[k] == grouped[k] by {
            assert(plans@[k].gop == grouped[k].0);
            assert(grouped[k].1 == members(targets@, grouped[k].0, n));
        }
        assert(planned_groups(plans@, targets@) =~= grouped);
    }
    plans
}

/// A group is decoded up to the last sample that is asked for in it, and no
/// further.
pub proof fn law_group_is_cut_behind_its_last_target(
    gop: Gop,
    indices: Seq<usize>,
    targets: Seq<ExactTarget>,
    k: int,
)
    requires
        0 <= k < indices.len(),
        truncation(gop, indices, targets) is Ok,
    ensures
        ({
            let cut = truncation(gop, indices, targets)->Ok_0;
            &&& cut.start_sample == gop.start_sample
            &&& targets[indices[k] as int].sample_index <= cut.end_sample
            &&& exists|m: int|
                0 <= m < indices.len() && targets[(#[trigger] indices[m]) as int].sample_index
                    == cut.end_sample
        }),
{
    lemma_last_sample_is_one(targets, indices);
}

proof fn lemma_last_sample_is_one(targets: Seq<ExactTarget>, indices: Seq<usize>)
    ensures
        0 <= last_sample(targets, indices) <= u32::MAX,
        forall|k: int|
            0 <= k < indices.len() ==> targets[(#[trigger] indices[k]) as int].sample_index
                <= last_sample(targets, indices),
        indices.len() > 0 ==> exists|m: int|
            0 <= m < indices.len() && targets[(#[trigger] indices[m]) as int].sample_index
                == last_sample(targets, indices),
    decreases indices.len(),
{
    if indices.len() > 0 {
        let init = indices.drop_last();
        lemma_last_sample_is_one(targets, init);
        let before = last_sample(targets, init);
        assert forall|k: int| 0 <= k < indices.len() implies targets[(
        #[trigger] indices[k]) as int].sample_index <= last_sample(targets, indices) by {
            if k < init.len() {
                assert(init[k] == indices[k]);
            }
        }
        let sample = targets[indices.last() as int].sample_index as int;
        if sample > before || init.len() == 0 {
            assert(indices[indices.len() - 1] == indices.last());
        } else {
            let m = choose|m: int|
                0 <= m < init.len() && targets[(#[trigger] init[m]) as int].sample_index == before;
            assert(indices[m] == init[m]);
        }
    }
}

/// The samples of groups are as many as are counted, and hold each sample of each group.
pub proof fn law_counted_samples_are_listed(gops: Seq<Gop>, n: int, g: int, sample: u32)
    requires
        0 <= g < n <= gops.len(),
        plan::in_gop(gops[g], sample as int),
    ensures
        sample_total(gops, n) matches Some(total) ==> total == all_samples(gops, n).len(),
        all_samples(gops, n).contains(sample),
{
    lemma_counted_samples(gops, n);
    lemma_sample_listed(gops, n, g, sample);
}

proof fn lemma_counted_samples(gops: Seq<Gop>, n: int)
    requires
        0 <= n <= gops.len(),
    ensures
        sample_total(gops, n) matches Some(total) ==> total == all_samples(gops, n).len(),
    decreases n,
{
    if n > 0 {
        lemma_counted_samples(gops, n - 1);
    }
}

proof fn lemma_sample_listed(gops: Seq<Gop>, n: int, g: int, sample: u32)
    requires
        0 <= g < n <= gops.len(),
        plan::in_gop(gops[g], sample as int),
    ensures
        all_samples(gops, n).contains(sample),
    decreases n,
{
    let before = all_samples(gops, n - 1);
    let all = all_samples(gops, n);
    if g == n - 1 {
        let k = sample - gops[g].start_sample;
        assert(gop_samples(gops[g])[k] == sample);
        assert(all[before.len() + k] == sample);
    } else {
        lemma_sample_listed(gops, n - 1, g, sample);
        let k = choose|k: int| 0 <= k < before.len() && before[k] == sample;
        assert(all[k] == sample);
    }
}

} // verus!
