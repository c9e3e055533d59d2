//! The parsed index of a video track, and the samples picked for times.

use vstd::prelude::*;
use super::tables;
use super::tables::{parse_elst_media_time, parse_video_sample_tables, VideoSampleTables};
use super::{ExactTarget, Gop};
use crate::boxes::same_type;
use crate::decoders::h264;
use crate::decoders::h264::{AvcConfig, FrameToken};
use crate::errors;
use crate::errors::MediaParserError;
use crate::format::mp4::atoms::media;
use crate::format::mp4::atoms::media::{parse_hdlr, parse_mdhd, parse_tkhd, MediaHeader, TrackHeader};
use crate::format::mp4::atoms::read;
use crate::format::mp4::atoms::read::{find_box_ref, find_in_ref, iter_boxes, BoxIter};
use crate::format::mp4::atoms::sample_timing;
use crate::format::mp4::atoms::sample_timing::{
    stts_duration_ticks, PresentationTimeline, SampleSelection,
};
use crate::format::mp4::atoms::samples;
use crate::format::mp4::atoms::samples::{
    nearest_sync_sample, next_sync_sample, range_uses_description_index, sample_description_index,
};
use crate::helpers::Mp4Box;
use crate::tags::Tag;
use crate::time;
use crate::time::{duration_to_ticks, Duration};
use std::sync::Arc;

verus! {

// --------------------
// The track
// --------------------

/// A video track.
#[derive(Debug, Clone, Copy, PartialEq, Eq, Structural)]
pub struct VideoTrack {
    pub id: u32,
    pub timescale: u32,
    pub duration: u64,
    pub presentation_offset: i64,
}

/// A video track with its sample tables.
pub struct FoundView {
    pub track: VideoTrack,
    pub tables: tables::VideoTablesView,
}

/// The header of a `trak`.
pub open spec fn trak_header(trak: Seq<u8>) -> Option<media::TrackHeader> {
    match read::child(trak, Mp4Box::Tkhd.fourcc()) {
        Some(tkhd) => media::track_header(tkhd),
        None => None,
    }
}

/// The header of the media of a `trak`.
pub open spec fn trak_media(trak: Seq<u8>) -> Option<media::MediaHeaderView> {
    match read::child_in(read::child(trak, Mp4Box::Mdia.fourcc()), Mp4Box::Mdhd.fourcc()) {
        Some(mdhd) => media::media_header(mdhd),
        None => None,
    }
}

/// The handler type of a `trak`.
pub open spec fn trak_handler(trak: Seq<u8>) -> Option<Seq<u8>> {
    match read::child_in(read::child(trak, Mp4Box::Mdia.fourcc()), Mp4Box::Hdlr.fourcc()) {
        Some(hdlr) => media::handler_type(hdlr),
        None => None,
    }
}

/// The sample table of a `trak`.
pub open spec fn trak_stbl(trak: Seq<u8>) -> Option<Seq<u8>> {
    read::child_in(
        read::child_in(read::child(trak, Mp4Box::Mdia.fourcc()), Mp4Box::Minf.fourcc()),
        Mp4Box::Stbl.fourcc(),
    )
}

/// The edit list of a `trak`.
pub open spec fn trak_edits(trak: Seq<u8>) -> Option<Seq<u8>> {
    read::child_in(read::child(trak, Tag::Edts.code()), Tag::Elst.code())
}

/// What a `trak` gives for a request: nothing where it is another track or
/// no video track, else the track or the reason why it cannot be used. Where
/// the media header tells no duration, that of the samples counts.
pub open spec fn video_trak(trak: Seq<u8>, id: u32) -> Option<Result<FoundView, errors::ErrorView>> {
    match (trak_header(trak), trak_media(trak), trak_stbl(trak)) {
        (Some(header), Some(mdhd), Some(stbl)) => if (id != 0 && header.id != id) || trak_handler(
            trak,
        ) != Some(Tag::Vide.code()) {
            None
        } else if trak_edits(trak) is Some && tables::edit_media_time(trak_edits(trak)->0) is None {
            Some(tables::invalid("video track uses an unsupported MP4 edit list"@))
        } else {
            match tables::video_tables(stbl) {
                Ok(found) => Some(
                    Ok(
                        FoundView {
                            track: VideoTrack {
                                id: header.id,
                                timescale: mdhd.timescale,
                                duration: if mdhd.duration == 0 {
                                    match sample_timing::stts_ticks(found.stts) {
                                        Some(ticks) => ticks,
                                        None => 0,
                                    }
                                } else {
                                    mdhd.duration
                                },
                                presentation_offset: match trak_edits(trak) {
                                    Some(elst) => tables::edit_media_time(elst)->0,
                                    None => 0,
                                },
                            },
                            tables: found,
                        },
                    ),
                ),
                Err(e) => Some(Err(e)),
            }
        },
        _ => None,
    }
}

/// What the first matching `trak` of a list of boxes gives.
pub open spec fn video_track_in(list: Seq<(Seq<u8>, Seq<u8>)>, id: u32) -> Result<
    Option<FoundView>,
    errors::ErrorView,
>
    decreases list.len(),
{
    if list.len() == 0 {
        Ok(None)
    } else if list[0].0 == Mp4Box::Trak.fourcc() && video_trak(list[0].1, id) is Some {
        match video_trak(list[0].1, id)->0 {
            Ok(found) => Ok(Some(found)),
            Err(e) => Err(e),
        }
    } else {
        video_track_in(list.skip(1), id)
    }
}

/// What an optional track with its tables holds.
pub open spec fn found_view(
    r: Result<Option<(VideoTrack, VideoSampleTables)>, MediaParserError>,
) -> Result<Option<FoundView>, errors::ErrorView> {
    match r {
        Ok(Some((track, found))) => Ok(Some(FoundView { track, tables: found@ })),
        Ok(None) => Ok(None),
        Err(e) => Err(e@),
    }
}

/// What a `trak` gives for a request.
fn read_video_trak(trak: &[u8], id: u32) -> (r: Result<
    Option<(VideoTrack, VideoSampleTables)>,
    MediaParserError,
>)
    ensures
        match video_trak(trak@, id) {
            Some(Ok(found)) => found_view(r) == Ok::<Option<FoundView>, errors::ErrorView>(
                Some(found),
            ),
            Some(Err(e)) => found_view(r) == Err::<Option<FoundView>, errors::ErrorView>(e),
            None => found_view(r) == Ok::<Option<FoundView>, errors::ErrorView>(None),
        },
        r matches Ok(Some((_, found))) ==> found@.agree() && found@.sync_in_order(),
{
    let header: TrackHeader = match find_box_ref(trak, &Mp4Box::Tkhd.bytes()) {
        Some(tkhd) => match parse_tkhd(tkhd) {
            Some(header) => header,
            None => {
                return Ok(None);
            },
        },
        None => {
            return Ok(None);
        },
    };
    let mdia: Option<&[u8]> = find_box_ref(trak, &Mp4Box::Mdia.bytes());
    let is_video: bool = match find_in_ref(mdia, &Mp4Box::Hdlr.bytes()) {
        Some(hdlr) => match parse_hdlr(hdlr) {
            Some(handler) => same_type(&handler, &Tag::Vide.bytes()),
            None => false,
        },
        None => false,
    };
    let mdhd: Option<MediaHeader> = match find_in_ref(mdia, &Mp4Box::Mdhd.bytes()) {
        Some(mdhd) => parse_mdhd(mdhd),
        None => None,
    };
    let stbl: Option<&[u8]> = find_in_ref(
        find_in_ref(mdia, &Mp4Box::Minf.bytes()),
        &Mp4Box::Stbl.bytes(),
    );
    if (id != 0 && header.id != id) || !is_video {
        return Ok(None);
    }
    match (mdhd, stbl) {
        (Some(mdhd), Some(stbl)) => {
            let presentation_offset: i64 = match find_in_ref(
                find_box_ref(trak, &Tag::Edts.bytes()),
                &Tag::Elst.bytes(),
            ) {
                Some(elst) => match parse_elst_media_time(elst) {
                    Some(time) => time,
                    None => {
                        return Err(
                            MediaParserError::invalid(
                                "video track uses an unsupported MP4 edit list",
                            ),
                        );
                    },
                },
                None => 0,
            };
            let found: VideoSampleTables = match parse_video_sample_tables(stbl) {
                Ok(found) => found,
                Err(e) => {
                    return Err(e);
                },
            };
            let duration: u64 = if mdhd.duration == 0 {
                match stts_duration_ticks(found.stts.as_slice()) {
                    Some(ticks) => ticks,
                    None => 0,
                }
            } else {
                mdhd.duration
            };
            Ok(
                Some(
                    (
                        VideoTrack {
                            id: header.id,
                            timescale: mdhd.timescale,
                            duration,
                            presentation_offset,
                        },
                        found,
                    ),
                ),
            )
        },
        _ => Ok(None),
    }
}

/// The video track of a movie with a track number, or the first one where
/// the number is 0.
pub fn find_video_track(moov_payload: &[u8], requested_track_id: u32) -> (r: Result<
    Option<(VideoTrack, VideoSampleTables)>,
    MediaParserError,
>)
    ensures
        found_view(r) == video_track_in(read::boxes_in(moov_payload@), requested_track_id),
        r matches Ok(Some((_, found))) ==> found@.agree() && found@.sync_in_order(),
{
    let mut it: BoxIter = iter_boxes(moov_payload);
    loop
        invariant
            video_track_in(read::boxes_in(moov_payload@), requested_track_id) == video_track_in(
                it@,
                requested_track_id,
            ),
        decreases it@.len(),
    {
        match it.next() {
            Some((fourcc, trak)) => {
                if same_type(&fourcc, &Mp4Box::Trak.bytes()) {
                    match read_video_trak(trak, requested_track_id) {
                        Ok(Some(found)) => {
                            return Ok(Some(found));
                        },
                        Ok(None) => {},
                        Err(e) => {
                            return Err(e);
                        },
                    }
                }
            },
            None => {
                return Ok(None);
            },
        }
    }
}

// --------------------
// Targets
// --------------------

/// The group of pictures of a sample: from the sync sample that it is
/// decoded from up to the next one.
pub open spec fn gop_of(found: tables::VideoTablesView, i: u32) -> Gop {
    let start = samples::nearest_sync(i, found.sync);
    Gop {
        start_sample: start,
        end_sample: match samples::next_sync(start, found.sync, found.sizes.count) {
            Some(next) => if next > 0 {
                (next - 1) as u32
            } else {
                found.sizes.count
            },
            None => found.sizes.count,
        },
    }
}

/// Whether sample `i` is the one picked for a tick.
pub open spec fn is_picked(v: sample_timing::TimelineView, tick: u64, i: u32) -> bool {
    v.is_last_shown(tick as int, i as int) || v.is_first_shown(tick as int, i as int)
}

/// Whether no sample can be picked: all are shown later than 64 bits tell.
pub open spec fn never_shown(v: sample_timing::TimelineView) -> bool {
    forall|i: int| 1 <= i <= v.count() ==> #[trigger] v.tick(i) > u64::MAX
}

/// Whether a target is that of a time: the sample shown then, with its group.
pub open spec fn is_exact_target(
    track: VideoTrack,
    found: tables::VideoTablesView,
    v: sample_timing::TimelineView,
    nanos: nat,
    t: ExactTarget,
) -> bool {
    &&& is_picked(v, time::ticks_in(nanos, track.timescale), t.sample_index)
    &&& t.gop == gop_of(found, t.sample_index)
    &&& t.presentation_tick == (if v.tick(t.sample_index as int) < 0 {
        0
    } else {
        v.tick(t.sample_index as int)
    })
    &&& t.token == FrameToken(0)
}

/// The target of a time.
pub fn exact_target(
    track: &VideoTrack,
    found: &VideoSampleTables,
    timeline: &PresentationTimeline,
    timestamp: Duration,
) -> (r: Result<ExactTarget, MediaParserError>)
    requires
        found@.sync_in_order(),
    ensures
        match r {
            Ok(t) => is_exact_target(*track, found@, timeline@, timestamp.nanos(), t),
            Err(e) => never_shown(timeline@) && e@ == errors::ErrorView::InvalidFormat(
                "could not select video sample"@,
            ),
        },
{
    let target_tick: u64 = duration_to_ticks(timestamp, track.timescale);
    let selection: SampleSelection = match timeline.select(target_tick) {
        Some(selection) => selection,
        None => {
            return Err(MediaParserError::invalid("could not select video sample"));
        },
    };
    let sync: Option<&[u32]> = match &found.sync_samples {
        Some(list) => Some(list.as_slice()),
        None => None,
    };
    let start_sample: u32 = nearest_sync_sample(selection.sample_index, sync);
    let count: u32 = found.sizes.sample_count();
    let end_sample: u32 = match next_sync_sample(start_sample, sync, count) {
        Some(next) => if next > 0 {
            next - 1
        } else {
            count
        },
        None => count,
    };
    Ok(
        ExactTarget {
            gop: Gop { start_sample, end_sample },
            sample_index: selection.sample_index,
            presentation_tick: selection.presentation_tick,
            token: FrameToken::new(0),
        },
    )
}

/// Whether a target is that of the keyframe before a time: the sync sample
/// that the sample shown then is decoded from, alone.
pub open spec fn is_keyframe_target(
    track: VideoTrack,
    found: tables::VideoTablesView,
    v: sample_timing::TimelineView,
    nanos: nat,
    t: ExactTarget,
) -> bool {
    &&& exists|i: u32| #[trigger]
        is_picked(v, time::ticks_in(nanos, track.timescale), i) && t.sample_index
            == samples::nearest_sync(i, found.sync)
    &&& t.gop == (Gop { start_sample: t.sample_index, end_sample: t.sample_index })
    &&& 1 <= t.sample_index <= v.count()
    &&& t.presentation_tick == v.tick(t.sample_index as int)
    &&& t.token == FrameToken(0)
}

/// Whether the keyframe before a time has no tick of 64 bits.
pub open spec fn keyframe_untimed(
    track: VideoTrack,
    found: tables::VideoTablesView,
    v: sample_timing::TimelineView,
    nanos: nat,
) -> bool {
    exists|i: u32| #[trigger]
        is_picked(v, time::ticks_in(nanos, track.timescale), i) && {
            let sync = samples::nearest_sync(i, found.sync) as int;
            sync < 1 || sync > v.count() || v.tick(sync) < 0 || v.tick(sync) > u64::MAX
        }
}

/// The target of the keyframe before a time.
pub fn keyframe_target(
    track: &VideoTrack,
    found: &VideoSampleTables,
    timeline: &PresentationTimeline,
    timestamp: Duration,
) -> (r: Result<ExactTarget, MediaParserError>)
    requires
        found@.sync_in_order(),
    ensures
        match r {
            Ok(t) => is_keyframe_target(*track, found@, timeline@, timestamp.nanos(), t),
            Err(e) => {
                ||| never_shown(timeline@) && e@ == errors::ErrorView::InvalidFormat(
                    "could not select video sample"@,
                )
                ||| keyframe_untimed(*track, found@, timeline@, timestamp.nanos()) && e@
                    == errors::ErrorView::InvalidFormat("invalid video timing tables"@)
            },
        },
{
    let target_tick: u64 = duration_to_ticks(timestamp, track.timescale);
    let selection: SampleSelection = match timeline.select(target_tick) {
        Some(selection) => selection,
        None => {
            return Err(MediaParserError::invalid("could not select video sample"));
        },
    };
    assert(is_picked(timeline@, target_tick, selection.sample_index));
    let sync: Option<&[u32]> = match &found.sync_samples {
        Some(list) => Some(list.as_slice()),
        None => None,
    };
    let sync_sample: u32 = nearest_sync_sample(selection.sample_index, sync);
    let tick: i128 = match timeline.tick(sync_sample) {
        Some(tick) => tick,
        None => -1,
    };
    if tick < 0 || tick > u64::MAX as i128 {
        return Err(MediaParserError::invalid("invalid video timing tables"));
    }
    Ok(
        ExactTarget {
            gop: Gop { start_sample: sync_sample, end_sample: sync_sample },
            sample_index: sync_sample,
            presentation_tick: tick as u64,
            token: FrameToken::new(0),
        },
    )
}

// --------------------
// Descriptions
// --------------------

/// The AVC configuration of a range of samples, which must all use the same
/// sample description.
pub open spec fn config_for(found: tables::VideoTablesView, start: u32, end: u32) -> Result<
    h264::AvcConfigView,
    errors::ErrorView,
> {
    let chunk_count = found.chunks.len() as int;
    match samples::description_of(start, found.sizes.count, found.stsc, chunk_count) {
        Some(index) => if !samples::range_uses(start, end, index, found.stsc, chunk_count) {
            Err(
                errors::ErrorView::UnsupportedCodec(
                    "a thumbnail GOP uses multiple sample descriptions"@,
                ),
            )
        } else if 1 <= index <= found.configs.len() && found.configs[index - 1] is Some {
            Ok(found.configs[index - 1]->0)
        } else {
            Err(errors::ErrorView::UnsupportedCodec("video track is not H.264/AVC"@))
        },
        None => tables::invalid("could not resolve sample description"@),
    }
}

/// The AVC configuration of a range of samples.
pub fn avc_config_for_range(
    found: &VideoSampleTables,
    start_sample: u32,
    end_sample: u32,
) -> (r: Result<&Arc<AvcConfig>, MediaParserError>)
    ensures
        match r {
            Ok(config) => config_for(found@, start_sample, end_sample) == Ok::<
                h264::AvcConfigView,
                errors::ErrorView,
            >((**config)@),
            Err(e) => config_for(found@, start_sample, end_sample) == Err::<
                h264::AvcConfigView,
                errors::ErrorView,
            >(e@),
        },
{
    let index: u32 = match sample_description_index(
        start_sample,
        &found.sizes,
        found.stsc.as_slice(),
        found.chunk_offsets.as_slice(),
    ) {
        Some(index) => index,
        None => {
            return Err(MediaParserError::invalid("could not resolve sample description"));
        },
    };
    if !range_uses_description_index(
        start_sample,
        end_sample,
        index,
        found.stsc.as_slice(),
        found.chunk_offsets.as_slice(),
    ) {
        return Err(
            MediaParserError::unsupported("a thumbnail GOP uses multiple sample descriptions"),
        );
    }
    if index == 0 || (index as u64) > found.avc_configs.len() as u64 {
        return Err(MediaParserError::unsupported("video track is not H.264/AVC"));
    }
    match &found.avc_configs[(index - 1) as usize] {
        Some(config) => {
            assert(found@.configs[index - 1] == Some((**config)@));
            Ok(config)
        },
        None => {
            assert(found@.configs[index - 1] is None);
            Err(MediaParserError::unsupported("video track is not H.264/AVC"))
        },
    }
}

/// The group of a sample starts with the last sync sample that is not behind it
/// and ends before the next one, or with the last sample. Without sync samples
/// it is the sample alone.
pub proof fn law_group_ends_before_the_next_sync(found: tables::VideoTablesView, i: u32)
    requires
        1 <= i <= found.sizes.count,
        found.sync matches Some(list) ==> samples::is_increasing(list) && list.len() > 0 && list[0]
            == 1 && list.last() <= found.sizes.count,
    ensures
        ({
            let gop = gop_of(found, i);
            &&& gop.start_sample <= i <= gop.end_sample <= found.sizes.count
            &&& found.sync is None ==> gop.start_sample == i && gop.end_sample == i
            &&& found.sync matches Some(list) ==> {
                &&& list.contains(gop.start_sample)
                &&& forall|k: int|
                    0 <= k < list.len() ==> #[trigger] list[k] <= gop.start_sample || list[k]
                        > gop.end_sample
                &&& gop.end_sample == found.sizes.count || list.contains(
                    (gop.end_sample + 1) as u32,
                )
            }
        }),
{
    if let Some(list) = found.sync {
        samples::law_sample_lies_in_its_group(list, i, found.sizes.count);
        let start = samples::nearest_sync(i, found.sync);
        lemma_next_of(list, start);
        assert forall|k: int| 0 <= k < list.len() implies #[trigger] list[k]
            <= found.sizes.count by {
            assert(list[k] <= list[list.len() - 1]);
        }
    }
}

proof fn lemma_next_of(list: Seq<u32>, x: u32)
    ensures
        match samples::first_after(list, x) {
            Some(n) => n > x && list.contains(n) && (samples::is_increasing(list) ==> forall|k: int|
                0 <= k < list.len() && #[trigger] list[k] > x ==> list[k] >= n),
            None => forall|k: int| 0 <= k < list.len() ==> #[trigger] list[k] <= x,
        },
    decreases list.len(),
{
    if list.len() > 0 {
        let rest = list.skip(1);
        lemma_next_of(rest, x);
        assert(forall|k: int| 0 <= k < rest.len() ==> #[trigger] rest[k] == list[k + 1]);
        if list[0] > x {
            assert(list.contains(list[0]));
            if samples::is_increasing(list) {
                assert forall|k: int| 0 <= k < list.len() && #[trigger] list[k] > x implies list[k]
                    >= list[0] by {
                    if k > 0 {
                        assert(list[0] < list[k]);
                    }
                }
            }
        } else {
            if let Some(n) = samples::first_after(rest, x) {
                let m = choose|m: int| 0 <= m < rest.len() && rest[m] == n;
                assert(list[m + 1] == n);
                if samples::is_increasing(list) {
                    assert(samples::is_increasing(rest)) by {
                        assert forall|a: int, b: int| 0 <= a < b < rest.len() implies
                            #[trigger] rest[a] < #[trigger] rest[b] by {
                            assert(rest[a] == list[a + 1] && rest[b] == list[b + 1]);
                            assert(list[a + 1] < list[b + 1]);
                        }
                    }
                    assert forall|k: int| 0 <= k < list.len() && #[trigger] list[k] > x implies
                        list[k] >= n by {
                        assert(rest[k - 1] == list[k]);
                    }
                }
            } else {
                assert forall|k: int| 0 <= k < list.len() implies #[trigger] list[k] <= x by {
                    if k > 0 {
                        assert(rest[k - 1] == list[k]);
                    }
                }
            }
        }
    }
}

/// The samples of a group are decoded with the configuration that all of them
/// are described by.
pub proof fn law_group_is_decoded_as_described(
    found: tables::VideoTablesView,
    start: u32,
    end: u32,
    s: u32,
)
    requires
        samples::starts_at_first_chunk(found.stsc, found.chunks.len() as int),
        1 <= start <= s <= end <= found.sizes.count,
        config_for(found, start, end) is Ok,
    ensures
        samples::description_of(
            s,
            found.sizes.count,
            found.stsc,
            found.chunks.len() as int,
        ) matches Some(index) && 1 <= index <= found.configs.len() && found.configs[index - 1]
            == Some(config_for(found, start, end)->Ok_0),
{
    let chunk_count = found.chunks.len() as int;
    let index = samples::description_of(start, found.sizes.count, found.stsc, chunk_count)->0;
    samples::law_range_uses_when_each_sample_does(
        found.stsc,
        chunk_count,
        found.sizes.count,
        start,
        end,
        index,
    );
}

} // verus!
