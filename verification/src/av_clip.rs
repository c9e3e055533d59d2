//! Cutting the same stretch out of a video and an audio track of a movie.

use vstd::prelude::*;
use crate::boxes;
use crate::boxes::{find_child, iter_boxes, same_type};
use crate::clip;
use crate::clip::{clip_sync_samples, slice_composition};
use crate::helpers::entries;
use crate::helpers::entries::{extract_avc_from_trak, extract_mp4a_from_trak, language_of_trak};
use crate::helpers::runs;
use crate::helpers::runs::slice_stts_pairs;
use crate::helpers::tables;
use crate::helpers::tables::{
    extract_sync_samples, extract_track_tables, moov_payload, track_id_from_tkhd, TrackTables,
};
use crate::helpers::Mp4Box;

verus! {

/// What a clip of a video and an audio track is written from.
#[derive(Debug, Clone)]
pub struct AvClipCore {
    pub v_track_id: u32,
    pub a_track_id: u32,
    pub v_timescale: u32,
    pub a_timescale: u32,
    pub v_sizes: Vec<u32>,
    pub a_sizes: Vec<u32>,
    pub v_stts: Vec<(u32, u32)>,
    pub a_stts: Vec<(u32, u32)>,
    pub v_ctts: Option<Vec<(u32, i32)>>,
    pub a_ctts: Option<Vec<(u32, i32)>>,
    pub v_sync_rel_1based: Vec<u32>,
    pub width: u16,
    pub height: u16,
    pub v_language: String,
    pub a_language: String,
    pub avcc_payload: Vec<u8>,
    pub esds_payload: Vec<u8>,
    pub channels: u16,
    pub sample_rate: u32,
}

/// Why no clip can be cut.
#[derive(Debug, Clone, Copy, PartialEq, Eq, Structural)]
pub enum PlanError {
    TrackNotFound,
    InvalidTables,
    MissingCodec,
}

/// The samples of one track of a clip.
pub struct PartView {
    pub timescale: u32,
    pub sizes: Seq<u32>,
    pub stts: Seq<(u32, u32)>,
    pub ctts: Option<Seq<(u32, i32)>>,
    pub language: Seq<char>,
}

/// What a clip of a video and an audio track holds.
pub struct AvClipView {
    pub v_track_id: u32,
    pub a_track_id: u32,
    pub video: PartView,
    pub audio: PartView,
    pub sync: Seq<u32>,
    pub width: u16,
    pub height: u16,
    pub avcc: Seq<u8>,
    pub esds: Seq<u8>,
    pub channels: u16,
    pub sample_rate: u32,
}

impl View for AvClipCore {
    type V = AvClipView;

    open spec fn view(&self) -> AvClipView {
        AvClipView {
            v_track_id: self.v_track_id,
            a_track_id: self.a_track_id,
            video: PartView {
                timescale: self.v_timescale,
                sizes: self.v_sizes@,
                stts: self.v_stts@,
                ctts: tables::vec_view(self.v_ctts),
                language: self.v_language@,
            },
            audio: PartView {
                timescale: self.a_timescale,
                sizes: self.a_sizes@,
                stts: self.a_stts@,
                ctts: tables::vec_view(self.a_ctts),
                language: self.a_language@,
            },
            sync: self.v_sync_rel_1based@,
            width: self.width,
            height: self.height,
            avcc: self.avcc_payload@,
            esds: self.esds_payload@,
            channels: self.channels,
            sample_rate: self.sample_rate,
        }
    }
}

/// Whether a listed box is a `trak` with the given track ID.
pub open spec fn is_trak_with_id(item: (Seq<u8>, Seq<u8>), id: u32) -> bool {
    item.0 == Mp4Box::Trak.fourcc() && match boxes::find_box(item.1, Mp4Box::Tkhd.fourcc()) {
        Some(tkhd) => tables::tkhd_track_id(tkhd) == Some(id),
        None => false,
    }
}

/// The last `trak` of a list that has the given track ID.
pub open spec fn last_with_id(list: Seq<(Seq<u8>, Seq<u8>)>, id: u32) -> Option<Seq<u8>>
    decreases list.len(),
{
    if list.len() == 0 {
        None
    } else if is_trak_with_id(list.last(), id) {
        Some(list.last().1)
    } else {
        last_with_id(list.drop_last(), id)
    }
}

/// The samples `start..end` of a track.
pub open spec fn part_of(trak: Seq<u8>, t: tables::TablesView, start: int, end: int) -> PartView {
    PartView {
        timescale: t.timescale,
        sizes: t.sizes.subrange(start, end),
        stts: runs::slice_runs(t.timing, start, end),
        ctts: clip::sliced(t.ctts, start, end),
        language: entries::trak_language(trak),
    }
}

/// The clip of the samples `v_start..v_end` of one track and `a_start..a_end` of another.
pub open spec fn av_plan(
    moov: Seq<u8>,
    v_track_id: u32,
    v_start: int,
    v_end: int,
    a_track_id: u32,
    a_start: int,
    a_end: int,
) -> Result<AvClipView, PlanError> {
    let list = boxes::box_list(tables::moov_contents(moov));
    match (last_with_id(list, v_track_id), last_with_id(list, a_track_id)) {
        (Some(v_trak), Some(a_trak)) => match (
            tables::trak_tables(v_trak),
            tables::trak_tables(a_trak),
        ) {
            (Some(v), Some(a)) => if v_start >= v_end || a_start >= a_end || v_end > v.sizes.len()
                || a_end > a.sizes.len() {
                Err(PlanError::InvalidTables)
            } else {
                match (entries::trak_avc(v_trak), entries::trak_mp4a(a_trak)) {
                    (Some(avc), Some(mp4a)) => Ok(
                        AvClipView {
                            v_track_id,
                            a_track_id,
                            video: part_of(v_trak, v, v_start, v_end),
                            audio: part_of(a_trak, a, a_start, a_end),
                            sync: clip::relative_sync(
                                tables::trak_sync_samples(v_trak),
                                v_start,
                                v_end,
                            ),
                            width: avc.width,
                            height: avc.height,
                            avcc: avc.avcc_payload,
                            esds: mp4a.esds_payload,
                            channels: mp4a.channels,
                            sample_rate: mp4a.sample_rate,
                        },
                    ),
                    _ => Err(PlanError::MissingCodec),
                }
            },
            _ => Err(PlanError::InvalidTables),
        },
        _ => Err(PlanError::TrackNotFound),
    }
}

fn has_id(payload: &[u8], id: u32) -> (r: bool)
    ensures
        r == is_trak_with_id((Mp4Box::Trak.fourcc(), payload@), id),
{
    match find_child(payload, &Mp4Box::Tkhd.bytes()) {
        Some(tkhd) => match track_id_from_tkhd(tkhd) {
            Some(found) => found == id,
            None => false,
        },
        None => false,
    }
}

/// The last `trak` of a movie that has the given track ID.
pub fn find_trak_by_id(moov_pl: &[u8], id: u32) -> (r: Option<&[u8]>)
    ensures
        boxes::slice_view(r) == last_with_id(boxes::box_list(moov_pl@), id),
{
    let ghost list = boxes::box_list(moov_pl@);
    let mut it = iter_boxes(moov_pl);
    let mut found: Option<&[u8]> = None;
    let ghost mut seen: int = 0;
    assert(list.skip(0) =~= list);
    assert(list.take(0) =~= Seq::empty());
    loop
        invariant
            0 <= seen <= list.len(),
            it@ == list.skip(seen),
            list == boxes::box_list(moov_pl@),
            boxes::slice_view(found) == last_with_id(list.take(seen), id),
        decreases it@.len(),
    {
        match it.next() {
            Some((typ, payload)) => {
                proof {
                    assert(list.skip(seen).skip(1) =~= list.skip(seen + 1));
                    assert(list.take(seen + 1).drop_last() =~= list.take(seen));
                    assert(list.take(seen + 1).last() == list.skip(seen)[0]);
                    seen = seen + 1;
                }
                if same_type(&typ, &Mp4Box::Trak.bytes()) && has_id(payload, id) {
                    found = Some(payload);
                }
            },
            None => {
                assert(list.take(seen) =~= list);
                return found;
            },
        }
    }
}

fn copied(sizes: &Vec<u32>, start: usize, end: usize) -> (r: Vec<u32>)
    requires
        start <= end <= sizes@.len(),
    ensures
        r@ == sizes@.subrange(start as int, end as int),
{
    let mut out: Vec<u32> = Vec::new();
    out.extend_from_slice(&sizes.as_slice()[start..end]);
    assert(out@ =~= sizes@.subrange(start as int, end as int));
    out
}

/// Build an AV clip plan (video+audio) by slicing tables from a `moov` blob
/// for the provided track IDs and sample index ranges [start, end).
pub fn plan_av_clip_from_moov(
    moov_bytes: &[u8],
    v_track_id: u32,
    v_start: usize,
    v_end: usize,
    a_track_id: u32,
    a_start: usize,
    a_end: usize,
) -> (r: Result<AvClipCore, PlanError>)
    ensures
        match r {
            Ok(core) => av_plan(
                moov_bytes@,
                v_track_id,
                v_start as int,
                v_end as int,
                a_track_id,
                a_start as int,
                a_end as int,
            ) == Ok::<_, PlanError>(core@),
            Err(e) => av_plan(
                moov_bytes@,
                v_track_id,
                v_start as int,
                v_end as int,
                a_track_id,
                a_start as int,
                a_end as int,
            ) == Err::<AvClipView, _>(e),
        },
{
    let moov_pl: &[u8] = moov_payload(moov_bytes);
    let v_trak: &[u8] = match find_trak_by_id(moov_pl, v_track_id) {
        Some(trak) => trak,
        None => {
            return Err(PlanError::TrackNotFound);
        },
    };
    let a_trak: &[u8] = match find_trak_by_id(moov_pl, a_track_id) {
        Some(trak) => trak,
        None => {
            return Err(PlanError::TrackNotFound);
        },
    };
    let v: TrackTables = match extract_track_tables(v_trak) {
        Some(t) => t,
        None => {
            return Err(PlanError::InvalidTables);
        },
    };
    let a: TrackTables = match extract_track_tables(a_trak) {
        Some(t) => t,
        None => {
            return Err(PlanError::InvalidTables);
        },
    };
    if v_start >= v_end || a_start >= a_end {
        return Err(PlanError::InvalidTables);
    }
    if v_end > v.sizes.len() || a_end > a.sizes.len() {
        return Err(PlanError::InvalidTables);
    }
    let v_sync_abs: Vec<u32> = extract_sync_samples(v_trak);
    let avc: entries::AvcInfo = match extract_avc_from_trak(v_trak) {
        Some(info) => info,
        None => {
            return Err(PlanError::MissingCodec);
        },
    };
    let mp4a: entries::Mp4aInfo = match extract_mp4a_from_trak(a_trak) {
        Some(info) => info,
        None => {
            return Err(PlanError::MissingCodec);
        },
    };
    Ok(
        AvClipCore {
            v_track_id,
            a_track_id,
            v_timescale: v.timescale,
            a_timescale: a.timescale,
            v_sizes: copied(&v.sizes, v_start, v_end),
            a_sizes: copied(&a.sizes, a_start, a_end),
            v_stts: slice_stts_pairs(v.timing.as_slice(), v_start, v_end),
            a_stts: slice_stts_pairs(a.timing.as_slice(), a_start, a_end),
            v_ctts: slice_composition(&v.ctts, v_start, v_end),
            a_ctts: slice_composition(&a.ctts, a_start, a_end),
            v_sync_rel_1based: clip_sync_samples(v_sync_abs.as_slice(), v_start, v_end),
            width: avc.width,
            height: avc.height,
            v_language: language_of_trak(v_trak),
            a_language: language_of_trak(a_trak),
            avcc_payload: avc.avcc_payload,
            esds_payload: mp4a.esds_payload,
            channels: mp4a.channels,
            sample_rate: mp4a.sample_rate,
        },
    )
}

} // verus!
