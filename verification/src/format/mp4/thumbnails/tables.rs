//! The video track that thumbnails are taken from, and its sample tables.

use vstd::prelude::*;
use crate::boxes::{same_type, tail};
use crate::bytes;
use crate::bytes::{copy_range, read_u32_be, read_u64_be};
use crate::decoders::h264;
use crate::decoders::h264::{AvcConfig, MAX_AVC_PARAMETER_SET_BYTES};
use crate::errors;
use crate::errors::MediaParserError;
use crate::format::mp4::atoms::avc;
use crate::format::mp4::atoms::avc::parse_avc_config_checked;
use crate::format::mp4::atoms::read;
use crate::format::mp4::atoms::read::{find_box_ref, iter_boxes, BoxIter};
use crate::format::mp4::atoms::sample_timing;
use crate::format::mp4::atoms::sample_timing::{parse_ctts, CompositionOffset};
use crate::format::mp4::atoms::samples;
use crate::format::mp4::atoms::samples::{
    parse_chunk_offsets, parse_sample_sizes, parse_stsc, parse_stss, table_entries, SampleSizes,
    StscEntry,
};
use crate::format::mp4::atoms::validate;
use crate::format::mp4::atoms::validate::validate_sample_tables;
use crate::helpers::tables;
use crate::helpers::tables::to_signed32;
use crate::helpers::Mp4Box;
use crate::tags::Tag;
use std::sync::Arc;

verus! {

// --------------------
// Edit list
// --------------------

/// A 64-bit word read as a two's complement integer.
pub open spec fn signed64(v: u64) -> i64 {
    if v < 0x8000_0000_0000_0000 {
        v as i64
    } else {
        (v - 0x1_0000_0000_0000_0000) as i64
    }
}

/// A 64-bit word read as a two's complement integer.
pub fn to_signed64(v: u64) -> (r: i64)
    ensures
        r == signed64(v),
{
    if v < 0x8000_0000_0000_0000 {
        v as i64
    } else {
        -((0xffff_ffff_ffff_ffff - v) as i64) - 1
    }
}

/// The media time at which the presentation starts, as an edit list of one
/// ordinary edit gives it. An empty edit (media time -1) only delays the
/// presentation, so it maps to no offset.
pub open spec fn edit_media_time(elst: Seq<u8>) -> Option<i64> {
    if elst.len() == 0 || elst[0] > 1 || samples::counted(
        elst,
        if elst[0] == 0 {
            12
        } else {
            20
        },
    ) != Some(1nat) {
        None
    } else {
        let (duration, media_time, rate) = if elst[0] == 0 {
            (
                bytes::be32(elst, 8) as u64,
                tables::signed32(bytes::be32(elst, 12)) as i64,
                bytes::be32(elst, 16),
            )
        } else {
            (bytes::be64(elst, 8), signed64(bytes::be64(elst, 16)), bytes::be32(elst, 24))
        };
        if duration == 0 || rate != 0x0001_0000 || media_time < -1 {
            None
        } else if media_time < 0 {
            Some(0)
        } else {
            Some(media_time)
        }
    }
}

/// Reads the media time at which the presentation starts.
pub fn parse_elst_media_time(elst: &[u8]) -> (r: Option<i64>)
    ensures
        r == edit_media_time(elst@),
{
    if elst.len() == 0 || elst[0] > 1 {
        return None;
    }
    let entry_size: usize = if elst[0] == 0 {
        12
    } else {
        20
    };
    match table_entries(elst, entry_size) {
        Some(n) => {
            if n != 1 {
                return None;
            }
        },
        None => {
            return None;
        },
    }
    proof {
        samples::lemma_counted_in_bounds(elst@, entry_size as int, 0);
    }
    let (duration, media_time, rate): (u64, i64, u32) = if elst[0] == 0 {
        match (read_u32_be(elst, 8), read_u32_be(elst, 12), read_u32_be(elst, 16)) {
            (Some(duration), Some(time), Some(rate)) => (
                duration as u64,
                to_signed32(time) as i64,
                rate,
            ),
            _ => {
                return None;
            },
        }
    } else {
        match (read_u64_be(elst, 8), read_u64_be(elst, 16), read_u32_be(elst, 24)) {
            (Some(duration), Some(time), Some(rate)) => (duration, to_signed64(time), rate),
            _ => {
                return None;
            },
        }
    };
    if duration == 0 || rate != 0x0001_0000 || media_time < -1 {
        None
    } else if media_time < 0 {
        Some(0)
    } else {
        Some(media_time)
    }
}

// --------------------
// Sample descriptions
// --------------------

/// Whether a sample description is an AVC one.
pub open spec fn is_avc(fourcc: Seq<u8>) -> bool {
    fourcc == Tag::Avc1.code() || fourcc == Tag::Avc3.code()
}

/// The configuration in a sample description, where it is an AVC one.
pub open spec fn description_config(entry: (Seq<u8>, Seq<u8>)) -> Option<h264::AvcConfigView> {
    if is_avc(entry.0) {
        avc::config_of(entry.1)
    } else {
        None
    }
}

/// Whether the parameter sets of a sample description take too many bytes.
pub open spec fn oversized(entry: (Seq<u8>, Seq<u8>)) -> bool {
    description_config(entry) matches Some(c) && avc::set_bytes(c.sps) + avc::set_bytes(c.pps)
        > MAX_AVC_PARAMETER_SET_BYTES
}

/// The error of parameter sets that take too many bytes.
pub open spec fn oversized_error() -> errors::ErrorView {
    errors::ErrorView::ResourceLimit("AVC parameter sets exceed the resource limit"@)
}

/// The declared sample descriptions of an `stsd`, as far as they fit.
pub open spec fn described(stsd: Seq<u8>, n: nat) -> Seq<(Seq<u8>, Seq<u8>)> {
    let list = read::boxes_in(stsd.skip(8));
    if list.len() < n {
        list
    } else {
        list.take(n as int)
    }
}

/// The AVC configurations of the sample descriptions of an `stsd`, none
/// where a description is of another codec. All the declared descriptions
/// must be there, and at least one.
pub open spec fn avc_descriptions(stsd: Seq<u8>) -> Result<
    Option<Seq<Option<h264::AvcConfigView>>>,
    errors::ErrorView,
> {
    match samples::counted(stsd, 8) {
        Some(n) => {
            let list = described(stsd, n);
            if n == 0 {
                Ok(None)
            } else if exists|k: int| 0 <= k < list.len() && oversized(#[trigger] list[k]) {
                Err(oversized_error())
            } else if list.len() == n {
                Ok(Some(Seq::new(n, |k: int| description_config(list[k]))))
            } else {
                Ok(None)
            }
        },
        None => Ok(None),
    }
}

/// What a list of configurations holds.
pub open spec fn configs_view(configs: Seq<Option<Arc<AvcConfig>>>) -> Seq<
    Option<h264::AvcConfigView>,
> {
    Seq::new(
        configs.len(),
        |k: int|
            match configs[k] {
                Some(c) => Some((*c)@),
                None => None,
            },
    )
}

/// What a parse of sample descriptions gives.
pub open spec fn descriptions_view(
    r: Result<Option<Vec<Option<Arc<AvcConfig>>>>, MediaParserError>,
) -> Result<Option<Seq<Option<h264::AvcConfigView>>>, errors::ErrorView> {
    match r {
        Ok(Some(list)) => Ok(Some(configs_view(list@))),
        Ok(None) => Ok(None),
        Err(e) => Err(e@),
    }
}

/// Reads the AVC configurations of the sample descriptions of an `stsd`.
pub fn parse_avc_descriptions(stsd: &[u8]) -> (r: Result<
    Option<Vec<Option<Arc<AvcConfig>>>>,
    MediaParserError,
>)
    ensures
        descriptions_view(r) == avc_descriptions(stsd@),
{
    let count: usize = match table_entries(stsd, 8) {
        Some(n) => n,
        None => {
            return Ok(None);
        },
    };
    if count == 0 {
        return Ok(None);
    }
    let entries: &[u8] = tail(stsd, 8);
    let ghost all = read::boxes_in(entries@);
    let ghost list = described(stsd@, count as nat);
    let mut out: Vec<Option<Arc<AvcConfig>>> = Vec::new();
    let mut it: BoxIter = iter_boxes(entries);
    assert(all.skip(0) =~= all);
    while out.len() < count
        invariant_except_break
            out@.len() <= all.len(),
        invariant
            all == read::boxes_in(stsd@.skip(8)),
            list == described(stsd@, count as nat),
            samples::counted(stsd@, 8) == Some(count as nat),
            count > 0,
            out@.len() <= count,
            out@.len() <= all.len(),
            it@ == all.skip(out@.len() as int),
            forall|k: int| 0 <= k < out@.len() ==> !oversized(#[trigger] list[k]),
            configs_view(out@) == Seq::new(
                out@.len(),
                |k: int| description_config(list[k]),
            ),
        ensures
            out@.len() == count || out@.len() == all.len(),
        decreases count - out@.len(),
    {
        let ghost n = out@.len() as int;
        let ghost before = configs_view(out@);
        match it.next() {
            Some((fourcc, payload)) => {
                proof {
                    assert(all.skip(n)[0] == all[n]);
                    assert(all.skip(n).skip(1) =~= all.skip(n + 1));
                    assert(list[n] == all[n]);
                }
                let config: Option<Arc<AvcConfig>> = if same_type(&fourcc, &Tag::Avc1.bytes())
                    || same_type(&fourcc, &Tag::Avc3.bytes()) {
                    match parse_avc_config_checked(payload) {
                        Ok(Some(config)) => Some(Arc::new(config)),
                        Ok(None) => None,
                        Err(_) => {
                            assert(oversized(list[n]));
                            return Err(
                                MediaParserError::resource_limit(
                                    "AVC parameter sets exceed the resource limit",
                                ),
                            );
                        },
                    }
                } else {
                    None
                };
                out.push(config);
                assert(configs_view(out@) =~= before.push(description_config(list[n])));
                assert(configs_view(out@) =~= Seq::new(
                    out@.len(),
                    |k: int| description_config(list[k]),
                ));
            },
            None => {
                break;
            },
        }
    }
    if out.len() == count {
        Ok(Some(out))
    } else {
        Ok(None)
    }
}

// --------------------
// Sample tables
// --------------------

/// The sample tables of a video track.
#[derive(Debug)]
pub struct VideoSampleTables {
    pub stts: Vec<u8>,
    pub composition_offsets: Option<Vec<CompositionOffset>>,
    pub sizes: SampleSizes,
    pub stsc: Vec<StscEntry>,
    pub chunk_offsets: Vec<u64>,
    pub sync_samples: Option<Vec<u32>>,
    pub avc_configs: Vec<Option<Arc<AvcConfig>>>,
}

/// What the sample tables of a video track hold.
pub struct VideoTablesView {
    pub stts: Seq<u8>,
    pub offsets: Option<Seq<CompositionOffset>>,
    pub sizes: samples::SizesView,
    pub stsc: Seq<StscEntry>,
    pub chunks: Seq<u64>,
    pub sync: Option<Seq<u32>>,
    pub configs: Seq<Option<h264::AvcConfigView>>,
}

impl View for VideoSampleTables {
    type V = VideoTablesView;

    open spec fn view(&self) -> VideoTablesView {
        VideoTablesView {
            stts: self.stts@,
            offsets: tables::vec_view(self.composition_offsets),
            sizes: self.sizes@,
            stsc: self.stsc@,
            chunks: self.chunk_offsets@,
            sync: tables::vec_view(self.sync_samples),
            configs: configs_view(self.avc_configs@),
        }
    }
}

impl VideoTablesView {
    /// Whether the tables agree with each other.
    pub open spec fn agree(self) -> bool {
        validate::tables_agree(
            self.stts,
            self.offsets,
            self.sizes.count,
            self.stsc,
            self.chunks.len() as int,
            self.sync,
            self.configs.len() as int,
        )
    }

    /// Whether the listed sync samples are increasing.
    pub open spec fn sync_in_order(self) -> bool {
        self.sync matches Some(list) ==> samples::is_increasing(list)
    }
}

/// The payload of a box of a sample table.
pub open spec fn part(stbl: Seq<u8>, which: Mp4Box) -> Option<Seq<u8>> {
    read::child(stbl, which.fourcc())
}

/// A list that must be readable where its box is there.
pub open spec fn present_sync(stbl: Seq<u8>) -> Option<Option<Seq<u32>>> {
    match part(stbl, Mp4Box::Stss) {
        Some(stss) => match samples::sync_samples_of(stss) {
            Some(list) => if list.len() > 0 {
                Some(Some(list))
            } else {
                None
            },
            None => None,
        },
        None => Some(None),
    }
}

/// Composition offsets that must be readable where their box is there.
pub open spec fn present_offsets(stbl: Seq<u8>) -> Option<Option<Seq<CompositionOffset>>> {
    match part(stbl, Mp4Box::Ctts) {
        Some(ctts) => match sample_timing::ctts_offsets(ctts) {
            Some(list) => Some(Some(list)),
            None => None,
        },
        None => Some(None),
    }
}

/// An unusable movie, with the reason.
pub open spec fn invalid<T>(reason: Seq<char>) -> Result<T, errors::ErrorView> {
    Err(errors::ErrorView::InvalidFormat(reason))
}

/// The sample tables in an `stbl`: all of them readable and in agreement, or
/// the first reason why they cannot be used.
pub open spec fn video_tables(stbl: Seq<u8>) -> Result<VideoTablesView, errors::ErrorView> {
    let sizes = match part(stbl, Mp4Box::Stsz) {
        Some(stsz) => samples::stsz_sizes(stsz),
        None => None,
    };
    let stsc = match part(stbl, Mp4Box::Stsc) {
        Some(stsc) => samples::stsc_entries(stsc),
        None => None,
    };
    if part(stbl, Mp4Box::Stts) is None {
        invalid("video track missing stts"@)
    } else if sizes is None {
        invalid("video track missing stsz"@)
    } else if stsc is None {
        invalid("video track missing stsc"@)
    } else if samples::chunk_offsets_of(stbl) is None {
        invalid("video track missing stco/co64"@)
    } else if present_sync(stbl) is None {
        invalid("invalid video stss"@)
    } else if present_offsets(stbl) is None {
        invalid("invalid video ctts"@)
    } else {
        match part(stbl, Mp4Box::Stsd) {
            Some(stsd) => match avc_descriptions(stsd) {
                Ok(Some(configs)) => {
                    let found = VideoTablesView {
                        stts: part(stbl, Mp4Box::Stts)->0,
                        offsets: present_offsets(stbl)->0,
                        sizes: sizes->0,
                        stsc: stsc->0,
                        chunks: samples::chunk_offsets_of(stbl)->0,
                        sync: present_sync(stbl)->0,
                        configs,
                    };
                    if found.agree() {
                        Ok(found)
                    } else {
                        invalid("inconsistent video sample tables"@)
                    }
                },
                Ok(None) => invalid("video track missing stsd"@),
                Err(e) => Err(e),
            },
            None => invalid("video track missing stsd"@),
        }
    }
}

/// What a parse of sample tables gives.
pub open spec fn tables_result(r: Result<VideoSampleTables, MediaParserError>) -> Result<
    VideoTablesView,
    errors::ErrorView,
> {
    match r {
        Ok(t) => Ok(t@),
        Err(e) => Err(e@),
    }
}

fn read_sync(stbl: &[u8]) -> (r: Option<Option<Vec<u32>>>)
    ensures
        match r {
            Some(list) => present_sync(stbl@) == Some(tables::vec_view(list)),
            None => present_sync(stbl@) is None,
        },
{
    match find_box_ref(stbl, &Mp4Box::Stss.bytes()) {
        Some(stss) => match parse_stss(stss) {
            Some(list) => if list.len() > 0 {
                Some(Some(list))
            } else {
                None
            },
            None => None,
        },
        None => Some(None),
    }
}

fn read_offsets(stbl: &[u8]) -> (r: Option<Option<Vec<CompositionOffset>>>)
    ensures
        match r {
            Some(list) => present_offsets(stbl@) == Some(tables::vec_view(list)),
            None => present_offsets(stbl@) is None,
        },
{
    match find_box_ref(stbl, &Mp4Box::Ctts.bytes()) {
        Some(ctts) => match parse_ctts(ctts) {
            Some(list) => Some(Some(list)),
            None => None,
        },
        None => Some(None),
    }
}

/// The slice of an optional list.
fn slice_of<T>(list: &Option<Vec<T>>) -> (r: Option<&[T]>)
    ensures
        match r {
            Some(s) => list matches Some(v) && s@ == v@,
            None => list is None,
        },
{
    match list {
        Some(v) => Some(v.as_slice()),
        None => None,
    }
}

/// Reads the sample tables in an `stbl`.
pub fn parse_video_sample_tables(stbl: &[u8]) -> (r: Result<VideoSampleTables, MediaParserError>)
    ensures
        tables_result(r) == video_tables(stbl@),
        r matches Ok(t) ==> t@.agree() && t@.sync_in_order(),
{
    let stts: &[u8] = match find_box_ref(stbl, &Mp4Box::Stts.bytes()) {
        Some(stts) => stts,
        None => {
            return Err(MediaParserError::invalid("video track missing stts"));
        },
    };
    let sizes: Option<SampleSizes> = match find_box_ref(stbl, &Mp4Box::Stsz.bytes()) {
        Some(stsz) => parse_sample_sizes(stsz),
        None => None,
    };
    let sizes: SampleSizes = match sizes {
        Some(sizes) => sizes,
        None => {
            return Err(MediaParserError::invalid("video track missing stsz"));
        },
    };
    let stsc: Option<Vec<StscEntry>> = match find_box_ref(stbl, &Mp4Box::Stsc.bytes()) {
        Some(stsc) => parse_stsc(stsc),
        None => None,
    };
    let stsc: Vec<StscEntry> = match stsc {
        Some(stsc) => stsc,
        None => {
            return Err(MediaParserError::invalid("video track missing stsc"));
        },
    };
    let chunk_offsets: Vec<u64> = match parse_chunk_offsets(stbl) {
        Some(offsets) => offsets,
        None => {
            return Err(MediaParserError::invalid("video track missing stco/co64"));
        },
    };
    let sync_samples: Option<Vec<u32>> = match read_sync(stbl) {
        Some(list) => list,
        None => {
            return Err(MediaParserError::invalid("invalid video stss"));
        },
    };
    let composition_offsets: Option<Vec<CompositionOffset>> = match read_offsets(stbl) {
        Some(list) => list,
        None => {
            return Err(MediaParserError::invalid("invalid video ctts"));
        },
    };
    let stsd: &[u8] = match find_box_ref(stbl, &Mp4Box::Stsd.bytes()) {
        Some(stsd) => stsd,
        None => {
            return Err(MediaParserError::invalid("video track missing stsd"));
        },
    };
    let avc_configs: Vec<Option<Arc<AvcConfig>>> = match parse_avc_descriptions(stsd) {
        Ok(Some(configs)) => configs,
        Ok(None) => {
            return Err(MediaParserError::invalid("video track missing stsd"));
        },
        Err(e) => {
            return Err(e);
        },
    };
    let agreed: Option<()> = validate_sample_tables(
        stts,
        slice_of(&composition_offsets),
        &sizes,
        stsc.as_slice(),
        chunk_offsets.as_slice(),
        slice_of(&sync_samples),
        avc_configs.len(),
    );
    if agreed.is_none() {
        return Err(MediaParserError::invalid("inconsistent video sample tables"));
    }
    let stts: Vec<u8> = copy_range(stts, 0, stts.len());
    assert(stts@ =~= part(stbl@, Mp4Box::Stts)->0);
    Ok(
        VideoSampleTables {
            stts,
            composition_offsets,
            sizes,
            stsc,
            chunk_offsets,
            sync_samples,
            avc_configs,
        },
    )
}

} // verus!
