//! Requests for thumbnails against a parsed index.

use vstd::prelude::*;
use super::groups;
use super::groups::{group_targets, keyframe_plans, truncate_and_validate_gops};
use super::index;
use super::index::{exact_target, find_video_track, keyframe_target, VideoTrack};
use super::plan;
use super::plan::plan_gop_job;
use super::tables;
use super::tables::VideoSampleTables;
use super::{ExactTarget, Gop, JobPlan, MAX_THUMBNAIL_OUTPUTS};
use crate::boxes::{tail, type_at};
use crate::errors;
use crate::errors::MediaParserError;
use crate::format::mp4::atoms::read;
use crate::format::mp4::atoms::sample_timing;
use crate::format::mp4::atoms::sample_timing::PresentationTimeline;
use crate::format::mp4::atoms::samples;
use crate::helpers::runs;
use crate::helpers::Mp4Box;
use crate::text;
use crate::text::{decimal_text, joined};
use crate::time;
use crate::time::{duration_to_ticks, Duration};

verus! {

// --------------------
// The index
// --------------------

/// Parsed MP4 video index that can be reused across thumbnail requests.
#[derive(Debug)]
pub struct ThumbnailIndex {
    track: VideoTrack,
    found: VideoSampleTables,
    timeline: PresentationTimeline,
}

/// What a video index holds.
pub struct IndexView {
    pub track: VideoTrack,
    pub tables: tables::VideoTablesView,
    pub timeline: sample_timing::TimelineView,
}

impl IndexView {
    /// Whether the tables agree with each other and with the timeline.
    pub open spec fn sound(self) -> bool {
        &&& self.tables.agree()
        &&& self.tables.sync_in_order()
        &&& self.timeline.agrees()
        &&& self.timeline.count() == self.tables.sizes.count
    }
}

impl View for ThumbnailIndex {
    type V = IndexView;

    closed spec fn view(&self) -> IndexView {
        IndexView { track: self.track, tables: self.found@, timeline: self.timeline@ }
    }
}

/// The timeline of a track, where its tables stand for all its samples.
pub open spec fn timeline_of(found: index::FoundView) -> Option<sample_timing::TimelineView> {
    let count = found.tables.sizes.count;
    let offsets = sample_timing::effective_offsets(found.tables.offsets, count);
    match sample_timing::stts_runs(found.tables.stts) {
        Some(timing) => if runs::run_total(timing) == count && runs::run_total(offsets) == count {
            Some(
                sample_timing::TimelineView {
                    timing,
                    offsets,
                    shift: found.track.presentation_offset,
                },
            )
        } else {
            None
        },
        None => None,
    }
}

/// The index of a video track of a movie, or the reason why there is none.
pub open spec fn index_of(moov_payload: Seq<u8>, track_id: u32) -> Result<
    IndexView,
    errors::ErrorView,
> {
    match index::video_track_in(read::boxes_in(moov_payload), track_id) {
        Ok(Some(found)) => match timeline_of(found) {
            Some(timeline) => Ok(
                IndexView { track: found.track, tables: found.tables, timeline },
            ),
            None => tables::invalid("invalid video presentation timeline"@),
        },
        Ok(None) => Err(
            errors::ErrorView::TrackNotFound(
                if track_id == 0 {
                    1
                } else {
                    track_id
                },
            ),
        ),
        Err(e) => Err(e),
    }
}

/// What follows the header of a `moov` box, or the data itself where it does
/// not start with one.
pub open spec fn moov_body(data: Seq<u8>) -> Seq<u8> {
    if data.len() >= 8 && data.subrange(4, 8) == Mp4Box::Moov.fourcc() {
        data.skip(8)
    } else {
        data
    }
}

/// What follows the header of a `moov` box.
pub fn parse_moov_payload(data: &[u8]) -> (r: &[u8])
    ensures
        r@ == moov_body(data@),
{
    if data.len() >= 8 && type_at(data, 4, &Mp4Box::Moov.bytes()) {
        tail(data, 8)
    } else {
        data
    }
}

/// What an index that may be missing holds.
pub open spec fn index_view(r: Result<ThumbnailIndex, MediaParserError>) -> Result<
    IndexView,
    errors::ErrorView,
> {
    match r {
        Ok(found) => Ok(found@),
        Err(e) => Err(e@),
    }
}

impl ThumbnailIndex {
    #[verifier::type_invariant]
    closed spec fn holds_together(self) -> bool {
        self@.sound()
    }

    /// Parses the index of a video track from a `moov` box.
    pub fn from_moov(moov: &[u8], track_id: u32) -> (r: Result<Self, MediaParserError>)
        ensures
            index_view(r) == index_of(moov_body(moov@), track_id),
    {
        ThumbnailIndex::from_moov_payload(parse_moov_payload(moov), track_id)
    }

    /// Parses the index of a video track from the payload of a `moov` box.
    pub fn from_moov_payload(moov_payload: &[u8], track_id: u32) -> (r: Result<
        Self,
        MediaParserError,
    >)
        ensures
            index_view(r) == index_of(moov_payload@, track_id),
    {
        let (track, found): (VideoTrack, VideoSampleTables) = match find_video_track(
            moov_payload,
            track_id,
        ) {
            Ok(Some(pair)) => pair,
            Ok(None) => {
                return Err(
                    MediaParserError::TrackNotFound(
                        if track_id == 0 {
                            1
                        } else {
                            track_id
                        },
                    ),
                );
            },
            Err(e) => {
                return Err(e);
            },
        };
        let offsets: Option<&[sample_timing::CompositionOffset]> = match &found.composition_offsets {
            Some(list) => Some(list.as_slice()),
            None => None,
        };
        let count: u32 = found.sizes.sample_count();
        let timeline: PresentationTimeline = match PresentationTimeline::new(
            found.stts.as_slice(),
            offsets,
            track.presentation_offset,
            count,
        ) {
            Some(timeline) => timeline,
            None => {
                return Err(MediaParserError::invalid("invalid video presentation timeline"));
            },
        };
        Ok(ThumbnailIndex { track, found, timeline })
    }

    /// Returns the concrete MP4 track selected by this index.
    pub fn track_id(&self) -> (r: u32)
        ensures
            r == self@.track.id,
    {
        self.track.id
    }

    /// The track of this index.
    pub fn track(&self) -> (r: &VideoTrack)
        ensures
            *r == self@.track,
    {
        &self.track
    }

    /// The sample tables of this index.
    pub fn tables(&self) -> (r: &VideoSampleTables)
        ensures
            r@ == self@.tables,
    {
        &self.found
    }
}

// --------------------
// Timestamps
// --------------------

/// Whether a time lies behind the end of a track.
pub open spec fn is_outside(track: VideoTrack, nanos: nat) -> bool {
    track.duration != 0 && time::ticks_in(nanos, track.timescale) >= track.duration
}

/// The error of a time behind the end of a track.
pub open spec fn outside_error(nanos: nat) -> errors::ErrorView {
    errors::ErrorView::InvalidFormat(
        "thumbnail timestamp "@ + time::span_text(nanos)
            + " is outside the video track duration"@,
    )
}

/// The first of the times from `k` on that lies behind the end of a track.
pub open spec fn first_outside(track: VideoTrack, times: Seq<Duration>, k: int) -> Option<Duration>
    decreases times.len() - k,
{
    if k < 0 || k >= times.len() {
        None
    } else if is_outside(track, times[k].nanos()) {
        Some(times[k])
    } else {
        first_outside(track, times, k + 1)
    }
}

/// Why a list of times cannot be asked for: it is too long, or one of them
/// lies behind the end of the track.
pub open spec fn times_error(track: VideoTrack, times: Seq<Duration>) -> Option<errors::ErrorView> {
    if times.len() > MAX_THUMBNAIL_OUTPUTS {
        Some(
            errors::ErrorView::InvalidFormat(
                "too many thumbnail timestamps: "@ + text::decimal(times.len()),
            ),
        )
    } else {
        match first_outside(track, times, 0) {
            Some(t) => Some(outside_error(t.nanos())),
            None => None,
        }
    }
}

impl ThumbnailIndex {
    /// Checks a list of times against the track.
    pub fn validate_timestamps(&self, timestamps: &[Duration]) -> (r: Result<(), MediaParserError>)
        ensures
            match r {
                Ok(_) => times_error(self@.track, timestamps@) is None,
                Err(e) => times_error(self@.track, timestamps@) == Some(e@),
            },
    {
        if timestamps.len() > MAX_THUMBNAIL_OUTPUTS {
            return Err(
                MediaParserError::InvalidFormat(
                    joined(
                        "too many thumbnail timestamps: ",
                        decimal_text(timestamps.len() as u64).as_str(),
                    ),
                ),
            );
        }
        let ghost track = self@.track;
        let mut i: usize = 0;
        while i < timestamps.len()
            invariant
                i <= timestamps@.len() <= MAX_THUMBNAIL_OUTPUTS,
                track == self@.track,
                first_outside(track, timestamps@, 0) == first_outside(
                    track,
                    timestamps@,
                    i as int,
                ),
            decreases timestamps@.len() - i,
        {
            let timestamp: Duration = timestamps[i];
            if self.track.duration != 0 && duration_to_ticks(timestamp, self.track.timescale)
                >= self.track.duration {
                let start: String = joined("thumbnail timestamp ", timestamp.to_text().as_str());
                return Err(
                    MediaParserError::InvalidFormat(
                        joined(start.as_str(), " is outside the video track duration"),
                    ),
                );
            }
            i = i + 1;
        }
        Ok(())
    }
}

// --------------------
// Frames
// --------------------

/// Whether targets are those of a list of times.
pub open spec fn exact_targets(
    ix: IndexView,
    times: Seq<Duration>,
    targets: Seq<ExactTarget>,
) -> bool {
    &&& targets.len() == times.len()
    &&& forall|k: int|
        0 <= k < times.len() ==> index::is_exact_target(
            ix.track,
            ix.tables,
            ix.timeline,
            (#[trigger] times[k]).nanos(),
            targets[k],
        )
}

/// The targets with the groups and tokens of the first `n` groups written in.
pub open spec fn settled(
    v: sample_timing::TimelineView,
    targets: Seq<ExactTarget>,
    cut: Seq<(Gop, Seq<usize>)>,
    n: int,
) -> Seq<ExactTarget>
    decreases n,
{
    if n <= 0 {
        targets
    } else {
        plan::assigned(settled(v, targets, cut, n - 1), v, cut[n - 1].0, cut[n - 1].1)
    }
}

/// Whether a plan is that of a group of targets.
pub open spec fn is_plan(
    v: sample_timing::TimelineView,
    targets: Seq<ExactTarget>,
    group: (Gop, Seq<usize>),
    job: JobPlan,
) -> bool {
    &&& job.gop == group.0
    &&& job.tokens@ == Seq::new(
        plan::gop_len(group.0) as nat,
        |k: int| plan::token_of(v, group.0, group.0.start_sample + k),
    )
    &&& job.wanted@ == plan::wanted_below(targets, v, group.0, group.1, plan::gop_len(group.0))
}

/// Whether targets and plans serve a list of times: the targets of the times
/// are grouped, the groups are cut behind their last targets, and each group
/// has its plan.
pub open spec fn serve(
    ix: IndexView,
    times: Seq<Duration>,
    picked: Seq<ExactTarget>,
    grouped: Seq<(Gop, Seq<usize>)>,
    cut: Seq<(Gop, Seq<usize>)>,
    targets: Seq<ExactTarget>,
    plans: Seq<JobPlan>,
) -> bool {
    &&& exact_targets(ix, times, picked)
    &&& groups::groups_targets(grouped, picked, picked.len() as int)
    &&& groups::truncations(grouped, picked, grouped.len() as int) matches Ok((list, _)) && list
        == cut
    &&& targets == settled(ix.timeline, picked, cut, cut.len() as int)
    &&& plans.len() == cut.len()
    &&& forall|g: int|
        0 <= g < cut.len() ==> is_plan(ix.timeline, picked, cut[g], #[trigger] plans[g])
}

/// Whether the groups of the targets of a list of times have too many samples.
pub open spec fn overfull(
    ix: IndexView,
    times: Seq<Duration>,
    picked: Seq<ExactTarget>,
    grouped: Seq<(Gop, Seq<usize>)>,
) -> bool {
    &&& exact_targets(ix, times, picked)
    &&& groups::groups_targets(grouped, picked, picked.len() as int)
    &&& groups::truncations(grouped, picked, grouped.len() as int) is Err
}

/// Whether targets and plans serve a list of times, see `serve`.
pub open spec fn are_served(
    ix: IndexView,
    times: Seq<Duration>,
    targets: Seq<ExactTarget>,
    plans: Seq<JobPlan>,
) -> bool {
    exists|
        picked: Seq<ExactTarget>,
        grouped: Seq<(Gop, Seq<usize>)>,
        cut: Seq<(Gop, Seq<usize>)>,
    | #[trigger]
        serve(ix, times, picked, grouped, cut, targets, plans)
}

/// Whether a list of times asks for too many samples, see `overfull`.
pub open spec fn are_overfull(ix: IndexView, times: Seq<Duration>) -> bool {
    exists|picked: Seq<ExactTarget>, grouped: Seq<(Gop, Seq<usize>)>| #[trigger]
        overfull(ix, times, picked, grouped)
}

proof fn lemma_truncation_ok(grouped: Seq<(Gop, Seq<usize>)>, picked: Seq<ExactTarget>, g: int)
    requires
        groups::groups_targets(grouped, picked, picked.len() as int),
        picked.len() <= usize::MAX,
        0 <= g < grouped.len(),
    ensures
        groups::truncation(grouped[g].0, grouped[g].1, picked) is Ok,
        forall|k: int|
            0 <= k < grouped[g].1.len() ==> (#[trigger] grouped[g].1[k]) < picked.len() && picked[
                grouped[g].1[k] as int].gop == grouped[g].0,
        grouped[g].1.len() > 0,
{
    groups::lemma_members_in_range(picked, grouped[g].0, picked.len() as int);
    assert(grouped[g].1 == groups::members(picked, grouped[g].0, picked.len() as int));
}

proof fn lemma_truncations_shape(
    grouped: Seq<(Gop, Seq<usize>)>,
    picked: Seq<ExactTarget>,
    n: int,
)
    requires
        groups::groups_targets(grouped, picked, picked.len() as int),
        picked.len() <= usize::MAX,
        0 <= n <= grouped.len(),
    ensures
        match groups::truncations(grouped, picked, n) {
            Ok((cut, total)) => {
                &&& cut.len() == n
                &&& 0 <= total
                &&& forall|g: int|
                    0 <= g < n ==> (#[trigger] cut[g]).1 == grouped[g].1 && groups::truncation(
                        grouped[g].0,
                        grouped[g].1,
                        picked,
                    ) == Ok::<Gop, errors::ErrorView>(cut[g].0) && plan::fits_batch(cut[g].0)
            },
            Err(e) => e == plan::too_many(),
        },
    decreases n,
{
    if n > 0 {
        lemma_truncations_shape(grouped, picked, n - 1);
        lemma_truncation_ok(grouped, picked, n - 1);
    }
}

proof fn lemma_last_sample(picked: Seq<ExactTarget>, indices: Seq<usize>, count: int)
    requires
        0 <= count,
        forall|k: int|
            0 <= k < indices.len() ==> (#[trigger] indices[k]) < picked.len()
                && picked[indices[k] as int].sample_index <= count,
    ensures
        0 <= groups::last_sample(picked, indices) <= count,
        forall|k: int|
            0 <= k < indices.len() ==> picked[(#[trigger] indices[k]) as int].sample_index
                <= groups::last_sample(picked, indices),
    decreases indices.len(),
{
    if indices.len() > 0 {
        let shorter = indices.drop_last();
        assert forall|k: int| 0 <= k < shorter.len() implies (#[trigger] shorter[k]) < picked.len()
            && picked[shorter[k] as int].sample_index <= count by {
            assert(shorter[k] == indices[k]);
        }
        lemma_last_sample(picked, shorter, count);
        let last = indices.len() - 1;
        assert(indices[last] < picked.len());
        assert forall|k: int| 0 <= k < indices.len() implies picked[(#[trigger] indices[k])
            as int].sample_index <= groups::last_sample(picked, indices) by {
            if k < last {
                assert(shorter[k] == indices[k]);
            }
        }
    }
}

/// A target's sample is one of the track, and its group starts at or before it.
proof fn lemma_target_in_group(ix: IndexView, nanos: nat, t: ExactTarget)
    requires
        ix.sound(),
        index::is_exact_target(ix.track, ix.tables, ix.timeline, nanos, t),
    ensures
        1 <= t.gop.start_sample <= t.sample_index <= ix.timeline.count(),
{
    let count = ix.tables.sizes.count;
    match ix.tables.sync {
        Some(list) => {
            samples::law_sample_lies_in_its_group(list, t.sample_index, count);
            let s = samples::nearest_sync(t.sample_index, Some(list));
            let k = choose|k: int| 0 <= k < list.len() && list[k] == s;
            assert(1 <= list[k]);
        },
        None => {},
    }
}

/// The keyframe for a time is a sync sample: the one that starts the group of
/// the exact frame for that time, and the last one at or before that frame in
/// decoding order.
pub proof fn law_keyframe_starts_the_group_of_the_frame(
    ix: IndexView,
    nanos: nat,
    exact: ExactTarget,
    key: ExactTarget,
)
    requires
        ix.sound(),
        index::is_exact_target(ix.track, ix.tables, ix.timeline, nanos, exact),
        index::is_keyframe_target(ix.track, ix.tables, ix.timeline, nanos, key),
    ensures
        key.sample_index == exact.gop.start_sample,
        key.sample_index <= exact.sample_index <= exact.gop.end_sample,
        match ix.tables.sync {
            Some(list) => list.contains(key.sample_index) && forall|k: int|
                0 <= k < list.len() && #[trigger] list[k] <= exact.sample_index ==> list[k]
                    <= key.sample_index,
            None => key.sample_index == exact.sample_index,
        },
{
    let tick = time::ticks_in(nanos, ix.track.timescale);
    let i = choose|i: u32| #[trigger]
        index::is_picked(ix.timeline, tick, i) && key.sample_index == samples::nearest_sync(
            i,
            ix.tables.sync,
        );
    sample_timing::law_selection_is_unique(
        ix.timeline,
        tick as int,
        i as int,
        exact.sample_index as int,
    );
    lemma_target_in_group(ix, nanos, exact);
    if let Some(list) = ix.tables.sync {
        samples::law_sample_lies_in_its_group(list, i, ix.tables.sizes.count);
    }
}

proof fn lemma_settled(
    v: sample_timing::TimelineView,
    targets: Seq<ExactTarget>,
    cut: Seq<(Gop, Seq<usize>)>,
    n: int,
)
    ensures
        settled(v, targets, cut, n).len() == targets.len(),
        forall|j: int|
            0 <= j < targets.len() ==> (#[trigger] settled(v, targets, cut, n)[j]).sample_index
                == targets[j].sample_index,
    decreases n,
{
    if n > 0 {
        lemma_settled(v, targets, cut, n - 1);
        assert forall|j: int| 0 <= j < targets.len() implies (#[trigger] settled(
            v,
            targets,
            cut,
            n,
        )[j]).sample_index == targets[j].sample_index by {
            assert(settled(v, targets, cut, n - 1)[j].sample_index == targets[j].sample_index);
        }
    }
}

/// What is wanted depends on the samples of the targets alone.
proof fn lemma_wanted_by_samples(
    a: Seq<ExactTarget>,
    b: Seq<ExactTarget>,
    v: sample_timing::TimelineView,
    gop: Gop,
    indices: Seq<usize>,
    n: int,
)
    requires
        forall|k: int|
            0 <= k < indices.len() ==> a[(#[trigger] indices[k]) as int].sample_index == b[
                indices[k] as int].sample_index,
    ensures
        plan::wanted_below(a, v, gop, indices, n) == plan::wanted_below(b, v, gop, indices, n),
    decreases n,
{
    if n > 0 {
        lemma_wanted_by_samples(a, b, v, gop, indices, n - 1);
        lemma_uses_by_samples(a, b, v, gop, indices, n - 1);
    }
}

proof fn lemma_uses_by_samples(
    a: Seq<ExactTarget>,
    b: Seq<ExactTarget>,
    v: sample_timing::TimelineView,
    gop: Gop,
    indices: Seq<usize>,
    p: int,
)
    requires
        forall|k: int|
            0 <= k < indices.len() ==> a[(#[trigger] indices[k]) as int].sample_index == b[
                indices[k] as int].sample_index,
    ensures
        plan::uses(a, v, gop, indices, p) == plan::uses(b, v, gop, indices, p),
    decreases indices.len(),
{
    if indices.len() > 0 {
        let shorter = indices.drop_last();
        assert forall|k: int| 0 <= k < shorter.len() implies a[(#[trigger] shorter[k])
            as int].sample_index == b[shorter[k] as int].sample_index by {
            assert(shorter[k] == indices[k]);
        }
        lemma_uses_by_samples(a, b, v, gop, shorter, p);
        assert(indices[indices.len() - 1] == indices.last());
    }
}

/// All the targets of a group lie in it from `k` on.
proof fn lemma_all_inside(targets: Seq<ExactTarget>, gop: Gop, indices: Seq<usize>, k: int)
    requires
        0 <= k <= indices.len(),
        forall|m: int|
            0 <= m < indices.len() ==> plan::in_gop(
                gop,
                targets[(#[trigger] indices[m]) as int].sample_index as int,
            ),
    ensures
        plan::inside(targets, gop, indices, k) == indices.len(),
    decreases indices.len() - k,
{
    if k < indices.len() {
        assert(plan::in_gop(gop, targets[indices[k] as int].sample_index as int));
        lemma_all_inside(targets, gop, indices, k + 1);
    }
}

/// A cut group can be planned.
proof fn lemma_group_plannable(
    ix: IndexView,
    times: Seq<Duration>,
    picked: Seq<ExactTarget>,
    grouped: Seq<(Gop, Seq<usize>)>,
    g: int,
    gop: Gop,
)
    requires
        ix.sound(),
        exact_targets(ix, times, picked),
        groups::groups_targets(grouped, picked, picked.len() as int),
        picked.len() <= usize::MAX,
        0 <= g < grouped.len(),
        groups::truncation(grouped[g].0, grouped[g].1, picked) == Ok::<Gop, errors::ErrorView>(gop),
    ensures
        plan::on_timeline(ix.timeline, gop),
        forall|m: int|
            0 <= m < grouped[g].1.len() ==> (#[trigger] grouped[g].1[m]) < picked.len()
                && plan::in_gop(gop, picked[grouped[g].1[m] as int].sample_index as int),
{
    let indices = grouped[g].1;
    lemma_truncation_ok(grouped, picked, g);
    assert forall|m: int| 0 <= m < indices.len() implies {
        let t = picked[(#[trigger] indices[m]) as int];
        1 <= t.gop.start_sample <= t.sample_index <= ix.timeline.count()
    } by {
        let j = indices[m] as int;
        assert(times[j].nanos() == times[j].nanos());
        lemma_target_in_group(ix, times[j].nanos(), picked[j]);
    }
    lemma_last_sample(picked, indices, ix.timeline.count());
    assert(1 <= picked[indices[0] as int].gop.start_sample);
}

/// Where a target ends up: with the group and the token of the cut group `a`
/// that holds it, once that group is settled.
proof fn lemma_settled_target(
    v: sample_timing::TimelineView,
    picked: Seq<ExactTarget>,
    cut: Seq<(Gop, Seq<usize>)>,
    n: int,
    a: int,
    j: int,
)
    requires
        0 <= j < picked.len() <= usize::MAX,
        0 <= a < cut.len(),
        0 <= n <= cut.len(),
        forall|b: int|
            0 <= b < cut.len() ==> (#[trigger] cut[b]).1.contains(j as usize) == (b == a),
    ensures
        settled(v, picked, cut, n).len() == picked.len(),
        settled(v, picked, cut, n)[j].sample_index == picked[j].sample_index,
        n > a ==> settled(v, picked, cut, n)[j].gop == cut[a].0 && settled(
            v,
            picked,
            cut,
            n,
        )[j].token == plan::token_of(v, cut[a].0, picked[j].sample_index as int),
    decreases n,
{
    if n > 0 {
        lemma_settled_target(v, picked, cut, n - 1, a, j);
        assert(cut[n - 1].1.contains(j as usize) == (n - 1 == a));
    }
}

/// Whether a plan has a target's frame decoded: it is of the target's group,
/// and the target's token is among those it wants.
pub open spec fn decodes(job: JobPlan, target: ExactTarget) -> bool {
    job.gop == target.gop && plan::is_named(job.wanted@, target.token)
}

/// Every frame asked for is decoded: each target of a served request finds its
/// group and its token in a plan.
pub proof fn law_every_target_is_decoded(
    ix: IndexView,
    times: Seq<Duration>,
    targets: Seq<ExactTarget>,
    plans: Seq<JobPlan>,
    j: int,
)
    requires
        ix.sound(),
        are_served(ix, times, targets, plans),
        0 <= j < times.len() <= usize::MAX,
    ensures
        targets.len() == times.len(),
        exists|g: int| 0 <= g < plans.len() && decodes(#[trigger] plans[g], targets[j]),
{
    let (picked, grouped, cut) = choose|
        picked: Seq<ExactTarget>,
        grouped: Seq<(Gop, Seq<usize>)>,
        cut: Seq<(Gop, Seq<usize>)>,
    | #[trigger]
        serve(ix, times, picked, grouped, cut, targets, plans);
    let n = picked.len() as int;
    lemma_truncations_shape(grouped, picked, grouped.len() as int);
    assert(groups::has_group(grouped, picked[j].gop));
    let a = choose|a: int| 0 <= a < grouped.len() && (#[trigger] grouped[a]).0 == picked[j].gop;
    groups::lemma_is_member(picked, n, j);
    assert forall|b: int| 0 <= b < cut.len() implies (#[trigger] cut[b]).1.contains(j as usize) == (b
        == a) by {
        assert(cut[b].1 == grouped[b].1);
        groups::lemma_members_in_range(picked, grouped[b].0, n);
        if cut[b].1.contains(j as usize) && b != a {
            let k = choose|k: int| 0 <= k < cut[b].1.len() && cut[b].1[k] == j as usize;
            assert(picked[groups::members(picked, grouped[b].0, n)[k] as int].gop == grouped[b].0);
            if a < b {
                assert(groups::gop_before(grouped[a].0, grouped[b].0));
            } else {
                assert(groups::gop_before(grouped[b].0, grouped[a].0));
            }
        }
    }
    lemma_settled_target(ix.timeline, picked, cut, cut.len() as int, a, j);
    lemma_group_plannable(ix, times, picked, grouped, a, cut[a].0);
    let m = choose|k: int| 0 <= k < cut[a].1.len() && cut[a].1[k] == j as usize;
    assert(cut[a].1.contains(j as usize));
    assert(grouped[a].1[m] == j as usize);
    plan::law_named_targets_are_wanted(picked, ix.timeline, cut[a].0, cut[a].1, m);
    assert(is_plan(ix.timeline, picked, cut[a], plans[a]));
    assert(decodes(plans[a], targets[j]));
}

/// Every keyframe asked for is decoded: where plans of single frames are made
/// for targets whose tokens are the first, each target finds its group and its
/// token in a plan.
pub proof fn law_every_keyframe_is_decoded(
    targets: Seq<ExactTarget>,
    plans: Seq<JobPlan>,
    j: int,
)
    requires
        groups::groups_targets(
            groups::planned_groups(plans, targets),
            targets,
            targets.len() as int,
        ),
        forall|i: int|
            0 <= i < plans.len() ==> (#[trigger] plans[i]).wanted@.len() == 1
                && plans[i].wanted@[0].0 == crate::decoders::h264::FrameToken(0),
        0 <= j < targets.len(),
        targets[j].token == crate::decoders::h264::FrameToken(0),
    ensures
        exists|g: int| 0 <= g < plans.len() && decodes(#[trigger] plans[g], targets[j]),
{
    let grouped = groups::planned_groups(plans, targets);
    assert(groups::has_group(grouped, targets[j].gop));
    let g = choose|a: int| 0 <= a < grouped.len() && (#[trigger] grouped[a]).0 == targets[j].gop;
    assert(plans[g].wanted@[0].0 == targets[j].token);
    assert(decodes(plans[g], targets[j]));
}

impl ThumbnailIndex {
    /// The targets of times, where each has one.
    fn targets_for(&self, timestamps: &[Duration]) -> (r: Result<
        Vec<ExactTarget>,
        MediaParserError,
    >)
        ensures
            match r {
                Ok(targets) => exact_targets(self@, timestamps@, targets@),
                Err(e) => timestamps@.len() > 0 && index::never_shown(self@.timeline) && e@
                    == errors::ErrorView::InvalidFormat("could not select video sample"@),
            },
    {
        proof {
            use_type_invariant(self);
        }
        let mut targets: Vec<ExactTarget> = Vec::new();
        let mut i: usize = 0;
        while i < timestamps.len()
            invariant
                i <= timestamps@.len(),
                self@.sound(),
                targets@.len() == i,
                forall|k: int|
                    0 <= k < i ==> index::is_exact_target(
                        self@.track,
                        self@.tables,
                        self@.timeline,
                        (#[trigger] timestamps@[k]).nanos(),
                        targets@[k],
                    ),
            decreases timestamps@.len() - i,
        {
            match exact_target(&self.track, &self.found, &self.timeline, timestamps[i]) {
                Ok(target) => {
                    targets.push(target);
                },
                Err(e) => {
                    return Err(e);
                },
            }
            i = i + 1;
        }
        Ok(targets)
    }

    /// Plans the extraction of the exact frames of times: the targets in
    /// request order, and the decode jobs that serve them.
    pub fn plan_frames(&self, timestamps: &[Duration]) -> (r: Result<
        (Vec<ExactTarget>, Vec<JobPlan>),
        MediaParserError,
    >)
        ensures
            match (times_error(self@.track, timestamps@), r) {
                (Some(error), Err(e)) => e@ == error,
                (Some(_), Ok(_)) => false,
                (None, Ok((targets, plans))) => are_served(
                    self@,
                    timestamps@,
                    targets@,
                    plans@,
                ),
                (None, Err(e)) => {
                    ||| timestamps@.len() > 0 && index::never_shown(self@.timeline) && e@
                        == errors::ErrorView::InvalidFormat("could not select video sample"@)
                    ||| e@ == plan::too_many() && are_overfull(self@, timestamps@)
                },
            },
    {
        proof {
            use_type_invariant(self);
        }
        if let Err(e) = self.validate_timestamps(timestamps) {
            return Err(e);
        }
        let mut targets: Vec<ExactTarget> = match self.targets_for(timestamps) {
            Ok(targets) => targets,
            Err(e) => {
                return Err(e);
            },
        };
        let target_count: usize = targets.len();
        let ghost picked = targets@;
        let ghost v = self@.timeline;
        let by_gop: Vec<(Gop, Vec<usize>)> = group_targets(targets.as_slice());
        let ghost grouped = groups::groups_view(by_gop@);
        proof {
            lemma_truncations_shape(grouped, picked, grouped.len() as int);
        }
        let cut_groups: Vec<(Gop, Vec<usize>)> = match truncate_and_validate_gops(
            by_gop,
            targets.as_slice(),
        ) {
            Ok(list) => list,
            Err(e) => {
                assert(overfull(self@, timestamps@, picked, grouped));
                return Err(e);
            },
        };
        let ghost cut = groups::groups_view(cut_groups@);
        let mut plans: Vec<JobPlan> = Vec::new();
        let mut g: usize = 0;
        while g < cut_groups.len()
            invariant
                g <= cut_groups@.len(),
                cut == groups::groups_view(cut_groups@),
                cut.len() == grouped.len(),
                self@.sound(),
                v == self@.timeline,
                picked.len() == target_count,
                exact_targets(self@, timestamps@, picked),
                groups::groups_targets(grouped, picked, picked.len() as int),
                forall|k: int|
                    0 <= k < cut.len() ==> (#[trigger] cut[k]).1 == grouped[k].1
                        && groups::truncation(grouped[k].0, grouped[k].1, picked) == Ok::<
                        Gop,
                        errors::ErrorView,
                    >(cut[k].0) && plan::fits_batch(cut[k].0),
                targets@ == settled(v, picked, cut, g as int),
                plans@.len() == g,
                forall|k: int|
                    0 <= k < g ==> is_plan(v, picked, cut[k], #[trigger] plans@[k]),
            decreases cut_groups@.len() - g,
        {
            let ghost gop = cut[g as int].0;
            let ghost indices = cut[g as int].1;
            let ghost before = targets@;
            proof {
                assert(cut[g as int].1 == grouped[g as int].1);
                lemma_group_plannable(self@, timestamps@, picked, grouped, g as int, gop);
                lemma_settled(v, picked, cut, g as int);
                assert forall|m: int| 0 <= m < indices.len() implies plan::in_gop(
                    gop,
                    before[(#[trigger] indices[m]) as int].sample_index as int,
                ) by {
                    assert(before[indices[m] as int].sample_index == picked[indices[m]
                        as int].sample_index);
                }
                lemma_all_inside(before, gop, indices, 0);
                lemma_wanted_by_samples(before, picked, v, gop, indices, plan::gop_len(gop));
            }
            match plan_gop_job(
                &self.timeline,
                cut_groups[g].0,
                cut_groups[g].1.as_slice(),
                &mut targets,
            ) {
                Ok(job) => {
                    assert(is_plan(v, picked, cut[g as int], job));
                    plans.push(job);
                },
                Err(e) => {
                    assert(false);
                    return Err(e);
                },
            }
            g = g + 1;
        }
        assert(serve(self@, timestamps@, picked, grouped, cut, targets@, plans@));
        Ok((targets, plans))
    }

    /// Plans the extraction of the keyframes before times: the targets in
    /// request order, and one decode job for each different keyframe.
    pub fn plan_keyframes(&self, timestamps: &[Duration]) -> (r: Result<
        (Vec<ExactTarget>, Vec<JobPlan>),
        MediaParserError,
    >)
        ensures
            match (times_error(self@.track, timestamps@), r) {
                (Some(error), Err(e)) => e@ == error,
                (Some(_), Ok(_)) => false,
                (None, Ok((targets, plans))) => {
                    let n = targets@.len() as int;
                    &&& n == timestamps@.len()
                    &&& forall|k: int|
                        0 <= k < n ==> index::is_keyframe_target(
                            self@.track,
                            self@.tables,
                            self@.timeline,
                            (#[trigger] timestamps@[k]).nanos(),
                            targets@[k],
                        )
                    &&& groups::groups_targets(
                        groups::planned_groups(plans@, targets@),
                        targets@,
                        n,
                    )
                    &&& forall|i: int|
                        0 <= i < plans@.len() ==> (#[trigger] plans@[i]).tokens@ == seq![
                            crate::decoders::h264::FrameToken(0),
                        ] && plans@[i].wanted@ == seq![
                            (
                                crate::decoders::h264::FrameToken(0),
                                groups::members(targets@, plans@[i].gop, n).len() as usize,
                            ),
                        ]
                },
                (None, Err(e)) => {
                    ||| timestamps@.len() > 0 && index::never_shown(self@.timeline) && e@
                        == errors::ErrorView::InvalidFormat("could not select video sample"@)
                    ||| e@ == errors::ErrorView::InvalidFormat("invalid video timing tables"@)
                        && exists|k: int|
                        0 <= k < timestamps@.len() && index::keyframe_untimed(
                            self@.track,
                            self@.tables,
                            self@.timeline,
                            (#[trigger] timestamps@[k]).nanos(),
                        )
                },
            },
    {
        proof {
            use_type_invariant(self);
        }
        if let Err(e) = self.validate_timestamps(timestamps) {
            return Err(e);
        }
        let mut targets: Vec<ExactTarget> = Vec::new();
        let mut i: usize = 0;
        while i < timestamps.len()
            invariant
                i <= timestamps@.len(),
                self@.sound(),
                times_error(self@.track, timestamps@) is None,
                targets@.len() == i,
                forall|k: int|
                    0 <= k < i ==> index::is_keyframe_target(
                        self@.track,
                        self@.tables,
                        self@.timeline,
                        (#[trigger] timestamps@[k]).nanos(),
                        targets@[k],
                    ),
            decreases timestamps@.len() - i,
        {
            match keyframe_target(&self.track, &self.found, &self.timeline, timestamps[i]) {
                Ok(target) => {
                    targets.push(target);
                },
                Err(e) => {
                    assert(timestamps@[i as int].nanos() == timestamps@[i as int].nanos());
                    return Err(e);
                },
            }
            i = i + 1;
        }
        let plans: Vec<JobPlan> = keyframe_plans(targets.as_slice());
        Ok((targets, plans))
    }
}

/// A list of times can be asked for where it has at most 4096 of them and none lies
/// behind the end of the track. A track without a duration has no end.
pub proof fn law_times_inside_are_accepted(track: VideoTrack, times: Seq<Duration>)
    ensures
        times_error(track, times) is None <==> times.len() <= 4096 && forall|i: int|
            0 <= i < times.len() ==> !is_outside(track, (#[trigger] times[i]).nanos()),
{
    lemma_outside(track, times, 0);
}

proof fn lemma_outside(track: VideoTrack, times: Seq<Duration>, k: int)
    requires
        0 <= k <= times.len(),
    ensures
        first_outside(track, times, k) is None <==> forall|i: int|
            k <= i < times.len() ==> !is_outside(track, (#[trigger] times[i]).nanos()),
    decreases times.len() - k,
{
    if k < times.len() {
        lemma_outside(track, times, k + 1);
    }
}

/// A time lies behind the end of a track where the track ends no later.
pub proof fn law_time_behind_the_end(track: VideoTrack, nanos: nat)
    ensures
        is_outside(track, nanos) <==> track.duration != 0 && nanos * track.timescale
            >= track.duration * 1_000_000_000,
{
    let n = nanos * track.timescale;
    assert(n >= 0) by (nonlinear_arith)
        requires
            n == nanos * track.timescale,
    ;
    vstd::arithmetic::div_mod::lemma_fundamental_div_mod(n, 1_000_000_000);
}

} // verus!
