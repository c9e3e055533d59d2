//! Track selection and codec sample entries.

use vstd::prelude::*;
use crate::boxes;
use crate::boxes::{find_child, iter_boxes, same_type, tail, type_at};
use crate::bytes;
use crate::bytes::{copy_range, read_u16_be, read_u32_be};
use crate::helpers::tables;
use crate::helpers::tables::{
    language_from_mdhd, mdia_child, stbl_child, stsd_entry_types, track_id_from_tkhd,
};
use crate::helpers::Mp4Box;
use crate::tags::Tag;
use crate::text;
use crate::text::{lowercase, trim, utf8_strict, Trim};

verus! {

/// The payload of the first `trak` of a box list that a predicate accepts.
pub open spec fn first_trak(
    list: Seq<(Seq<u8>, Seq<u8>)>,
    accepts: spec_fn(Seq<u8>) -> bool,
) -> Option<Seq<u8>>
    decreases list.len(),
{
    if list.len() == 0 {
        None
    } else if list[0].0 == Mp4Box::Trak.fourcc() && accepts(list[0].1) {
        Some(list[0].1)
    } else {
        first_trak(list.skip(1), accepts)
    }
}

/// The payload of the first box of a list that has the given type.
pub open spec fn first_of(list: Seq<(Seq<u8>, Seq<u8>)>, fourcc: Seq<u8>) -> Option<Seq<u8>>
    decreases list.len(),
{
    if list.len() == 0 {
        None
    } else if list[0].0 == fourcc {
        Some(list[0].1)
    } else {
        first_of(list.skip(1), fourcc)
    }
}

/// The first box of a given type among the well-formed boxes of `data`.
pub fn first_child<'a>(data: &'a [u8], fourcc: &[u8; 4]) -> (r: Option<&'a [u8]>)
    ensures
        boxes::slice_view(r) == first_of(boxes::box_list(data@), fourcc@),
{
    let mut it = iter_boxes(data);
    loop
        invariant
            first_of(boxes::box_list(data@), fourcc@) == first_of(it@, fourcc@),
        decreases it@.len(),
    {
        match it.next() {
            Some((typ, payload)) => {
                if same_type(&typ, fourcc) {
                    return Some(payload);
                }
            },
            None => {
                return None;
            },
        }
    }
}

/// Whether a handler payload names the given handler.
pub open spec fn handler_is(hdlr: Option<Seq<u8>>, handler: Tag) -> bool {
    match hdlr {
        Some(h) => h.len() >= 12 && h.subrange(8, 12) == handler.code(),
        None => false,
    }
}

/// Whether a `trak` is a video track.
pub open spec fn is_video(trak: Seq<u8>) -> bool {
    handler_is(tables::mdia_box(trak, Mp4Box::Hdlr), Tag::Vide)
}

/// Whether the handler of a `trak` is the given one.
pub fn has_handler(trak: &[u8], handler: Tag) -> (r: bool)
    ensures
        r == handler_is(tables::mdia_box(trak@, Mp4Box::Hdlr), handler),
{
    match mdia_child(trak, Mp4Box::Hdlr) {
        Some(h) => h.len() >= 12 && type_at(h, 8, &handler.bytes()),
        None => false,
    }
}

/// The track ID of a `trak`, zero where it has none.
pub open spec fn trak_id(trak: Seq<u8>) -> u32 {
    match boxes::find_box(trak, Mp4Box::Tkhd.fourcc()) {
        Some(tkhd) => match tables::tkhd_track_id(tkhd) {
            Some(id) => id,
            None => 0,
        },
        None => 0,
    }
}

/// The track ID of a `trak`, zero where it has none.
pub fn id_of_trak(trak: &[u8]) -> (r: u32)
    ensures
        r == trak_id(trak@),
{
    match find_child(trak, &Mp4Box::Tkhd.bytes()) {
        Some(tkhd) => match track_id_from_tkhd(tkhd) {
            Some(id) => id,
            None => 0,
        },
        None => 0,
    }
}

/// Find the first video `trak` payload inside a `moov` payload.
/// The input slice should be the payload of the `moov` box (use `moov_payload`).
pub fn find_first_video_trak(moov_pl: &[u8]) -> (r: Option<&[u8]>)
    ensures
        boxes::slice_view(r) == first_trak(
            boxes::box_list(moov_pl@),
            |trak: Seq<u8>| is_video(trak),
        ),
{
    let ghost accepts = |trak: Seq<u8>| is_video(trak);
    let mut it = iter_boxes(moov_pl);
    loop
        invariant
            accepts == (|trak: Seq<u8>| is_video(trak)),
            first_trak(boxes::box_list(moov_pl@), accepts) == first_trak(it@, accepts),
        decreases it@.len(),
    {
        match it.next() {
            Some((typ, payload)) => {
                if same_type(&typ, &Mp4Box::Trak.bytes()) && has_handler(payload, Tag::Vide) {
                    return Some(payload);
                }
            },
            None => {
                return None;
            },
        }
    }
}

/// Find the video `trak` with a specific `track_id` inside a `moov` payload.
pub fn find_video_trak_by_id(moov_pl: &[u8], track_id: u32) -> (r: Option<&[u8]>)
    ensures
        boxes::slice_view(r) == first_trak(
            boxes::box_list(moov_pl@),
            |trak: Seq<u8>| trak_id(trak) == track_id && is_video(trak),
        ),
{
    let ghost accepts = |trak: Seq<u8>| trak_id(trak) == track_id && is_video(trak);
    let mut it = iter_boxes(moov_pl);
    loop
        invariant
            accepts == (|trak: Seq<u8>| trak_id(trak) == track_id && is_video(trak)),
            first_trak(boxes::box_list(moov_pl@), accepts) == first_trak(it@, accepts),
        decreases it@.len(),
    {
        match it.next() {
            Some((typ, payload)) => {
                if same_type(&typ, &Mp4Box::Trak.bytes()) && id_of_trak(payload) == track_id
                    && has_handler(payload, Tag::Vide) {
                    return Some(payload);
                }
            },
            None => {
                return None;
            },
        }
    }
}

/// Information extracted from an H.264 avc1/avc3 entry.
pub struct AvcInfo {
    pub avcc_payload: Vec<u8>,
    pub sps: Vec<u8>,
    pub pps: Vec<u8>,
    pub width: u16,
    pub height: u16,
}

/// What an H.264 sample entry holds.
pub struct AvcView {
    pub avcc_payload: Seq<u8>,
    pub sps: Seq<u8>,
    pub pps: Seq<u8>,
    pub width: u16,
    pub height: u16,
}

impl View for AvcInfo {
    type V = AvcView;

    open spec fn view(&self) -> AvcView {
        AvcView {
            avcc_payload: self.avcc_payload@,
            sps: self.sps@,
            pps: self.pps@,
            width: self.width,
            height: self.height,
        }
    }
}

/// The length-prefixed parameter set at `pos`, where it lies inside the data.
pub open spec fn parameter_set(data: Seq<u8>, pos: int) -> Option<Seq<u8>> {
    if pos + 2 <= data.len() && pos + 2 + bytes::be16(data, pos) <= data.len() {
        Some(data.subrange(pos + 2, pos + 2 + bytes::be16(data, pos)))
    } else {
        None
    }
}

/// The first sequence and picture parameter sets of an `avcC` payload. The
/// picture set is read directly behind the first sequence set.
pub open spec fn first_sps_pps(data: Seq<u8>) -> Option<(Seq<u8>, Seq<u8>)> {
    if data.len() < 7 || data[5] % 32 == 0 {
        None
    } else {
        match parameter_set(data, 6) {
            Some(sps) => {
                let pos = 8 + sps.len();
                if pos >= data.len() || data[pos as int] == 0 {
                    None
                } else {
                    match parameter_set(data, pos as int + 1) {
                        Some(pps) => Some((sps, pps)),
                        None => None,
                    }
                }
            },
            None => None,
        }
    }
}

/// The length-prefixed parameter set at `pos`, see `parameter_set`.
pub(crate) fn set_at(data: &[u8], pos: usize) -> (r: Option<Vec<u8>>)
    requires
        pos <= data@.len(),
    ensures
        tables::vec_view(r) == parameter_set(data@, pos as int),
{
    match read_u16_be(data, pos) {
        Some(len) => {
            let len: usize = len as usize;
            if len <= data.len() - (pos + 2) {
                Some(copy_range(data, pos + 2, pos + 2 + len))
            } else {
                None
            }
        },
        None => None,
    }
}

/// The first sequence and picture parameter sets of an `avcC` payload.
pub fn parse_avcc_sps_pps(data: &[u8]) -> (r: Option<(Vec<u8>, Vec<u8>)>)
    ensures
        match r {
            Some((sps, pps)) => first_sps_pps(data@) == Some((sps@, pps@)),
            None => first_sps_pps(data@) is None,
        },
{
    if data.len() < 7 || data[5] % 32 == 0 {
        return None;
    }
    let sps: Vec<u8> = match set_at(data, 6) {
        Some(v) => v,
        None => {
            return None;
        },
    };
    let pos: usize = 8 + sps.len();
    if pos >= data.len() || data[pos] == 0 {
        return None;
    }
    match set_at(data, pos + 1) {
        Some(pps) => Some((sps, pps)),
        None => None,
    }
}

/// The payload of the first entry of an `stsd`, where that entry has one of
/// two types and lies inside the box.
pub open spec fn first_entry(stsd: Seq<u8>, a: Tag, b: Tag) -> Option<Seq<u8>> {
    if stsd.len() < 16 || (stsd.subrange(12, 16) != a.code() && stsd.subrange(12, 16) != b.code())
        || bytes::be32(stsd, 8) < 8 || 8 + bytes::be32(stsd, 8) > stsd.len() {
        None
    } else {
        Some(stsd.subrange(16, 8 + bytes::be32(stsd, 8)))
    }
}

fn entry_payload(stsd: &[u8], a: Tag, b: Tag) -> (r: Option<&[u8]>)
    ensures
        boxes::slice_view(r) == first_entry(stsd@, a, b),
{
    if stsd.len() < 16 {
        return None;
    }
    if !type_at(stsd, 12, &a.bytes()) && !type_at(stsd, 12, &b.bytes()) {
        return None;
    }
    let size: usize = match read_u32_be(stsd, 8) {
        Some(v) => v as usize,
        None => 0,
    };
    if size < 8 || size > stsd.len() - 8 {
        return None;
    }
    Some(&stsd[16..8 + size])
}

/// The H.264 entry of a `trak`: its size, its `avcC` and the first parameter
/// sets of it, which are empty where the `avcC` cannot be read.
pub open spec fn trak_avc(trak: Seq<u8>) -> Option<AvcView> {
    match tables::stbl_box(trak, Mp4Box::Stsd) {
        Some(stsd) => match first_entry(stsd, Tag::Avc1, Tag::Avc3) {
            Some(entry) => if entry.len() < 78 {
                None
            } else {
                match first_of(boxes::box_list(entry.skip(78)), Tag::AvcC.code()) {
                    Some(avcc) => {
                        let sets = match first_sps_pps(avcc) {
                            Some(pair) => pair,
                            None => (Seq::empty(), Seq::empty()),
                        };
                        Some(
                            AvcView {
                                avcc_payload: avcc,
                                sps: sets.0,
                                pps: sets.1,
                                width: bytes::be16(entry, 24),
                                height: bytes::be16(entry, 26),
                            },
                        )
                    },
                    None => None,
                }
            },
            None => None,
        },
        None => None,
    }
}

/// Extract the `avcC` payload, the parameter sets and the dimensions of a video `trak`.
/// An entry that does not lie inside its `stsd` counts as absent.
pub fn extract_avc_from_trak(trak: &[u8]) -> (r: Option<AvcInfo>)
    ensures
        match r {
            Some(info) => trak_avc(trak@) == Some(info@),
            None => trak_avc(trak@) is None,
        },
{
    let stsd: &[u8] = match stbl_child(trak, Mp4Box::Stsd) {
        Some(data) => data,
        None => {
            return None;
        },
    };
    let entry: &[u8] = match entry_payload(stsd, Tag::Avc1, Tag::Avc3) {
        Some(data) => data,
        None => {
            return None;
        },
    };
    if entry.len() < 78 {
        return None;
    }
    let width: u16 = match read_u16_be(entry, 24) {
        Some(v) => v,
        None => 0,
    };
    let height: u16 = match read_u16_be(entry, 26) {
        Some(v) => v,
        None => 0,
    };
    match first_child(tail(entry, 78), &Tag::AvcC.bytes()) {
        Some(avcc) => {
            let (sps, pps): (Vec<u8>, Vec<u8>) = match parse_avcc_sps_pps(avcc) {
                Some(pair) => pair,
                None => (Vec::new(), Vec::new()),
            };
            let avcc_payload: Vec<u8> = copy_range(avcc, 0, avcc.len());
            assert(avcc_payload@ =~= avcc@);
            assert(first_sps_pps(avcc@) is None ==> sps@ =~= Seq::empty() && pps@ =~= Seq::empty());
            Some(AvcInfo { avcc_payload, sps, pps, width, height })
        },
        None => None,
    }
}

/// Information extracted from an MPEG-4 AAC (`mp4a`) entry.
pub struct Mp4aInfo {
    pub esds_payload: Vec<u8>,
    pub channels: u16,
    pub sample_rate: u32,
}

/// What an `mp4a` sample entry holds.
pub struct Mp4aView {
    pub esds_payload: Seq<u8>,
    pub channels: u16,
    pub sample_rate: u32,
}

impl View for Mp4aInfo {
    type V = Mp4aView;

    open spec fn view(&self) -> Mp4aView {
        Mp4aView {
            esds_payload: self.esds_payload@,
            channels: self.channels,
            sample_rate: self.sample_rate,
        }
    }
}

/// The `mp4a` entry of a `trak`: channel count, integral sample rate, `esds` payload.
pub open spec fn trak_mp4a(trak: Seq<u8>) -> Option<Mp4aView> {
    match tables::stbl_box(trak, Mp4Box::Stsd) {
        Some(stsd) => match first_entry(stsd, Tag::Mp4a, Tag::Mp4a) {
            Some(entry) => if entry.len() < 28 {
                None
            } else {
                match first_of(boxes::box_list(entry.skip(28)), Tag::Esds.code()) {
                    Some(esds) => Some(
                        Mp4aView {
                            esds_payload: esds,
                            channels: bytes::be16(entry, 16),
                            sample_rate: bytes::be32(entry, 24) / 0x1_0000,
                        },
                    ),
                    None => None,
                }
            },
            None => None,
        },
        None => None,
    }
}

/// Extract the `mp4a` sample entry details (channels, sample rate) and the `esds` payload.
/// An entry that does not lie inside its `stsd` counts as absent.
pub fn extract_mp4a_from_trak(trak: &[u8]) -> (r: Option<Mp4aInfo>)
    ensures
        match r {
            Some(info) => trak_mp4a(trak@) == Some(info@),
            None => trak_mp4a(trak@) is None,
        },
{
    let stsd: &[u8] = match stbl_child(trak, Mp4Box::Stsd) {
        Some(data) => data,
        None => {
            return None;
        },
    };
    let entry: &[u8] = match entry_payload(stsd, Tag::Mp4a, Tag::Mp4a) {
        Some(data) => data,
        None => {
            return None;
        },
    };
    if entry.len() < 28 {
        return None;
    }
    let channels: u16 = match read_u16_be(entry, 16) {
        Some(v) => v,
        None => 0,
    };
    let fixed: u32 = match read_u32_be(entry, 24) {
        Some(v) => v,
        None => 0,
    };
    match first_child(tail(entry, 28), &Tag::Esds.bytes()) {
        Some(esds) => {
            let esds_payload: Vec<u8> = copy_range(esds, 0, esds.len());
            assert(esds_payload@ =~= esds@);
            Some(Mp4aInfo { esds_payload, channels, sample_rate: fixed / 0x1_0000 })
        },
        None => None,
    }
}

/// Strategy to select a video track inside a `moov` payload.
#[derive(Debug, Clone)]
pub enum TrackSelector {
    FirstVideo,
    ById(u32),
    ByCodec(String),
    ByLanguage(String),
}

/// The codec name of a `trak`: the type of its first sample entry, where that
/// is text, without padding and in lower case.
pub open spec fn codec_name(trak: Seq<u8>) -> Option<Seq<char>> {
    match tables::stbl_box(trak, Mp4Box::Stsd) {
        Some(stsd) => {
            let types = tables::entry_types(stsd);
            if types.len() > 0 && vstd::utf8::valid_utf8(types[0]) {
                Some(
                    text::unicode_lowercase(
                        text::trimmed(vstd::utf8::decode_utf8(types[0]), Trim::Only('\0')),
                    ),
                )
            } else {
                None
            }
        },
        None => None,
    }
}

/// The language of a `trak`, `und` where it has none that can be read.
pub open spec fn trak_language(trak: Seq<u8>) -> Seq<char> {
    match tables::mdia_box(trak, Mp4Box::Mdhd) {
        Some(mdhd) => match tables::mdhd_language(mdhd) {
            Some(language) => language,
            None => "und"@,
        },
        None => "und"@,
    }
}

/// Whether a selector takes a `trak`.
pub open spec fn selects(selector: TrackSelector, trak: Seq<u8>) -> bool {
    match selector {
        TrackSelector::FirstVideo => is_video(trak),
        TrackSelector::ById(id) => trak_id(trak) == id && is_video(trak),
        TrackSelector::ByCodec(want) => is_video(trak) && codec_name(trak) == Some(
            text::unicode_lowercase(want@),
        ),
        TrackSelector::ByLanguage(lang) => is_video(trak) && text::unicode_lowercase(
            trak_language(trak),
        ) == text::unicode_lowercase(lang@),
    }
}

/// The codec name of a `trak`, see `codec_name`.
fn codec_of_trak(trak: &[u8]) -> (r: Option<String>)
    ensures
        text::text_view(r) == codec_name(trak@),
{
    let stsd: &[u8] = match stbl_child(trak, Mp4Box::Stsd) {
        Some(data) => data,
        None => {
            return None;
        },
    };
    let types: Vec<[u8; 4]> = stsd_entry_types(stsd);
    assert(boxes::path_view(types@).len() == types@.len());
    if types.len() == 0 {
        return None;
    }
    assert(boxes::path_view(types@)[0] == types@[0]@);
    let first: &[u8] = &types[0];
    match utf8_strict(first) {
        Some(code) => {
            let bare: String = trim(code.as_str(), Trim::Only('\0'));
            Some(lowercase(bare.as_str()))
        },
        None => None,
    }
}

/// The language of a `trak`, `und` where it has none that can be read.
pub fn language_of_trak(trak: &[u8]) -> (r: String)
    ensures
        r@ == trak_language(trak@),
{
    match mdia_child(trak, Mp4Box::Mdhd) {
        Some(mdhd) => match language_from_mdhd(mdhd) {
            Some(language) => language,
            None => "und".to_string(),
        },
        None => "und".to_string(),
    }
}

/// Select a video `trak` from the `moov` payload based on the selector.
pub fn select_video_trak<'a>(moov_pl: &'a [u8], selector: &TrackSelector) -> (r: Option<&'a [u8]>)
    ensures
        boxes::slice_view(r) == first_trak(
            boxes::box_list(moov_pl@),
            |trak: Seq<u8>| selects(*selector, trak),
        ),
{
    let ghost accepts = |trak: Seq<u8>| selects(*selector, trak);
    let want: String = match selector {
        TrackSelector::ByCodec(want) => lowercase(want.as_str()),
        TrackSelector::ByLanguage(lang) => lowercase(lang.as_str()),
        _ => String::new(),
    };
    let mut it = iter_boxes(moov_pl);
    loop
        invariant
            accepts == (|trak: Seq<u8>| selects(*selector, trak)),
            first_trak(boxes::box_list(moov_pl@), accepts) == first_trak(it@, accepts),
            selector matches TrackSelector::ByCodec(w) ==> want@ == text::unicode_lowercase(w@),
            selector matches TrackSelector::ByLanguage(w) ==> want@ == text::unicode_lowercase(w@),
        decreases it@.len(),
    {
        match it.next() {
            Some((typ, payload)) => {
                if same_type(&typ, &Mp4Box::Trak.bytes()) {
                    let video: bool = has_handler(payload, Tag::Vide);
                    let taken: bool = match selector {
                        TrackSelector::FirstVideo => video,
                        TrackSelector::ById(id) => video && id_of_trak(payload) == *id,
                        TrackSelector::ByCodec(_) => video && (match codec_of_trak(payload) {
                            Some(code) => code == want,
                            None => false,
                        }),
                        TrackSelector::ByLanguage(_) => {
                            let language: String = language_of_trak(payload);
                            video && lowercase(language.as_str()) == want
                        },
                    };
                    assert(taken == selects(*selector, payload@));
                    if taken {
                        return Some(payload);
                    }
                }
            },
            None => {
                return None;
            },
        }
    }
}

/// Only video tracks are taken. The first one takes any of them, a number the ones
/// that have it, and a codec or a language is compared without regard to case.
pub proof fn law_selectors(selector: TrackSelector, trak: Seq<u8>, id: u32)
    ensures
        selects(selector, trak) ==> is_video(trak),
        is_video(trak) ==> selects(TrackSelector::FirstVideo, trak),
        is_video(trak) ==> (selects(TrackSelector::ById(id), trak) <==> trak_id(trak) == id),
        selector matches TrackSelector::ByLanguage(lang) ==> is_video(trak) && lang@
            == trak_language(trak) ==> selects(selector, trak),
        selector matches TrackSelector::ByLanguage(lang) ==> text::unicode_lowercase(lang@)
            != text::unicode_lowercase(trak_language(trak)) ==> !selects(selector, trak),
        selector matches TrackSelector::ByCodec(want) ==> codec_name(trak) != Some(
            text::unicode_lowercase(want@),
        ) ==> !selects(selector, trak),
        selector matches TrackSelector::ByCodec(want) ==> is_video(trak) && codec_name(trak)
            == Some(text::unicode_lowercase(want@)) ==> selects(selector, trak),
{
}

} // verus!
