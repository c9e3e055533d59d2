//! The tracks of a movie.

use vstd::prelude::*;
use crate::boxes;
use crate::boxes::{find_child, iter_boxes, same_type, type_at};
use crate::bytes;
use crate::bytes::read_u16_be;
use crate::helpers::tables;
use crate::helpers::tables::{
    language_from_mdhd, mdia_child, moov_payload, stbl_child, stsd_entry_types, track_id_from_tkhd,
};
use crate::helpers::Mp4Box;
use crate::tags::Tag;
use crate::text;
use crate::text::{trim, utf8_strict, Trim};

verus! {

/// MP4 track category based on `hdlr` handler type.
#[derive(Debug, Clone, Copy, PartialEq, Eq, Structural)]
pub enum TrackType {
    Video,
    Audio,
    Subtitle,
}

/// High-level description of a track parsed from a `trak` atom.
#[derive(Debug, Clone)]
pub struct Track {
    pub id: u32,
    pub kind: TrackType,
    pub codec: String,
    pub language: Option<String>,
    pub frame_width: Option<u32>,
    pub frame_height: Option<u32>,
}

/// What a track description holds.
pub struct TrackView {
    pub id: u32,
    pub kind: TrackType,
    pub codec: Seq<char>,
    pub language: Option<Seq<char>>,
    pub frame_width: Option<u32>,
    pub frame_height: Option<u32>,
}

impl View for Track {
    type V = TrackView;

    open spec fn view(&self) -> TrackView {
        TrackView {
            id: self.id,
            kind: self.kind,
            codec: self.codec@,
            language: text::text_view(self.language),
            frame_width: self.frame_width,
            frame_height: self.frame_height,
        }
    }
}

/// The category that a handler type stands for.
pub open spec fn type_of_handler(code: Seq<u8>) -> Option<TrackType> {
    if code == Tag::Vide.code() {
        Some(TrackType::Video)
    } else if code == Tag::Soun.code() {
        Some(TrackType::Audio)
    } else if code == Tag::Sbtl.code() || code == Tag::Subt.code() || code == Tag::Text.code() {
        Some(TrackType::Subtitle)
    } else {
        None
    }
}

/// The codec of a sample description: the type of its first entry without
/// null padding, `unknown` where there is none that is text.
pub open spec fn codec_of(stsd: Seq<u8>) -> Seq<char> {
    let types = tables::entry_types(stsd);
    text::trimmed(
        if types.len() > 0 && vstd::utf8::valid_utf8(types[0]) {
            vstd::utf8::decode_utf8(types[0])
        } else {
            "unknown"@
        },
        Trim::Only('\0'),
    )
}

/// A 16-bit size in the first entry of the sample description of a video track.
pub open spec fn frame_side(stsd: Seq<u8>, kind: TrackType, at: int) -> Option<u32> {
    if kind == TrackType::Video && stsd.len() >= 52 {
        Some(bytes::be16(stsd, at) as u32)
    } else {
        None
    }
}

/// The language of a `trak`, where it has one that can be read.
pub open spec fn track_language(trak: Seq<u8>) -> Option<Seq<char>> {
    match tables::mdia_box(trak, Mp4Box::Mdhd) {
        Some(mdhd) => tables::mdhd_language(mdhd),
        None => None,
    }
}

/// The description of a `trak` that has an ID, a known handler and a sample description.
pub open spec fn track_of(trak: Seq<u8>) -> Option<TrackView> {
    match (
        boxes::find_box(trak, Mp4Box::Tkhd.fourcc()),
        tables::mdia_box(trak, Mp4Box::Hdlr),
        tables::stbl_box(trak, Mp4Box::Stsd),
    ) {
        (Some(tkhd), Some(hdlr), Some(stsd)) => {
            if hdlr.len() < 12 {
                None
            } else {
                match (tables::tkhd_track_id(tkhd), type_of_handler(hdlr.subrange(8, 12))) {
                    (Some(id), Some(kind)) => Some(
                        TrackView {
                            id,
                            kind,
                            codec: codec_of(stsd),
                            language: track_language(trak),
                            frame_width: frame_side(stsd, kind, 40),
                            frame_height: frame_side(stsd, kind, 42),
                        },
                    ),
                    _ => None,
                }
            }
        },
        _ => None,
    }
}

/// The descriptions of the tracks among the boxes of a movie.
pub open spec fn tracks_of(list: Seq<(Seq<u8>, Seq<u8>)>) -> Seq<TrackView>
    decreases list.len(),
{
    if list.len() == 0 {
        Seq::empty()
    } else {
        let before = tracks_of(list.drop_last());
        if list.last().0 == Mp4Box::Trak.fourcc() {
            match track_of(list.last().1) {
                Some(track) => before.push(track),
                None => before,
            }
        } else {
            before
        }
    }
}

/// What the descriptions of a list hold.
pub open spec fn tracks_view(tracks: Seq<Track>) -> Seq<TrackView> {
    Seq::new(tracks.len(), |i: int| tracks[i]@)
}

/// What an optional description holds.
pub open spec fn track_view(t: Option<Track>) -> Option<TrackView> {
    match t {
        Some(track) => Some(track@),
        None => None,
    }
}

fn handler_type(hdlr: &[u8]) -> (r: Option<TrackType>)
    requires
        hdlr@.len() >= 12,
    ensures
        r == type_of_handler(hdlr@.subrange(8, 12)),
{
    if type_at(hdlr, 8, &Tag::Vide.bytes()) {
        Some(TrackType::Video)
    } else if type_at(hdlr, 8, &Tag::Soun.bytes()) {
        Some(TrackType::Audio)
    } else if type_at(hdlr, 8, &Tag::Sbtl.bytes()) || type_at(hdlr, 8, &Tag::Subt.bytes())
        || type_at(hdlr, 8, &Tag::Text.bytes()) {
        Some(TrackType::Subtitle)
    } else {
        None
    }
}

fn codec_text(stsd: &[u8]) -> (r: String)
    ensures
        r@ == codec_of(stsd@),
{
    let types: Vec<[u8; 4]> = stsd_entry_types(stsd);
    assert(boxes::path_view(types@).len() == types@.len());
    if types.len() == 0 {
        return trim("unknown", Trim::Only('\0'));
    }
    assert(boxes::path_view(types@)[0] == types@[0]@);
    match utf8_strict(&types[0]) {
        Some(s) => trim(s.as_str(), Trim::Only('\0')),
        None => trim("unknown", Trim::Only('\0')),
    }
}

fn side_at(stsd: &[u8], kind: TrackType, at: usize) -> (r: Option<u32>)
    requires
        at <= 50,
    ensures
        r == frame_side(stsd@, kind, at as int),
{
    if kind == TrackType::Video && stsd.len() >= 52 {
        match read_u16_be(stsd, at) {
            Some(v) => Some(v as u32),
            None => None,
        }
    } else {
        None
    }
}

/// Describes a `trak`; one without an ID, a known handler or a sample
/// description is left out.
pub fn parse_trak(trak: &[u8]) -> (r: Option<Track>)
    ensures
        track_view(r) == track_of(trak@),
{
    let tkhd: &[u8] = match find_child(trak, &Mp4Box::Tkhd.bytes()) {
        Some(tkhd) => tkhd,
        None => {
            return None;
        },
    };
    let id: u32 = match track_id_from_tkhd(tkhd) {
        Some(id) => id,
        None => {
            return None;
        },
    };
    let hdlr: &[u8] = match mdia_child(trak, Mp4Box::Hdlr) {
        Some(hdlr) => hdlr,
        None => {
            return None;
        },
    };
    if hdlr.len() < 12 {
        return None;
    }
    let kind: TrackType = match handler_type(hdlr) {
        Some(kind) => kind,
        None => {
            return None;
        },
    };
    let language: Option<String> = match mdia_child(trak, Mp4Box::Mdhd) {
        Some(mdhd) => language_from_mdhd(mdhd),
        None => None,
    };
    let stsd: &[u8] = match stbl_child(trak, Mp4Box::Stsd) {
        Some(stsd) => stsd,
        None => {
            return None;
        },
    };
    Some(
        Track {
            id,
            kind,
            codec: codec_text(stsd),
            language,
            frame_width: side_at(stsd, kind, 40),
            frame_height: side_at(stsd, kind, 42),
        },
    )
}

/// Describes the tracks of a movie, in order, from the bytes of its `moov` box.
pub fn tracks_from_moov(moov: &[u8]) -> (r: Vec<Track>)
    ensures
        tracks_view(r@) == tracks_of(boxes::box_list(tables::moov_contents(moov@))),
{
    let payload: &[u8] = moov_payload(moov);
    let ghost list = boxes::box_list(payload@);
    let mut it = iter_boxes(payload);
    let mut out: Vec<Track> = Vec::new();
    let ghost mut seen: int = 0;
    assert(list.skip(0) =~= list);
    assert(list.take(0) =~= Seq::empty());
    assert(tracks_view(out@) =~= tracks_of(list.take(0)));
    loop
        invariant
            0 <= seen <= list.len(),
            it@ == list.skip(seen),
            list == boxes::box_list(payload@),
            payload@ == tables::moov_contents(moov@),
            tracks_view(out@) == tracks_of(list.take(seen)),
        decreases it@.len(),
    {
        match it.next() {
            Some((typ, trak)) => {
                proof {
                    assert(list.skip(seen).skip(1) =~= list.skip(seen + 1));
                    assert(list.take(seen + 1).drop_last() =~= list.take(seen));
                    assert(list.take(seen + 1).last() == list.skip(seen)[0]);
                    seen = seen + 1;
                }
                let ghost before = out@;
                if same_type(&typ, &Mp4Box::Trak.bytes()) {
                    match parse_trak(trak) {
                        Some(track) => {
                            out.push(track);
                            assert(tracks_view(out@) =~= tracks_view(before).push(track@));
                        },
                        None => {},
                    }
                }
            },
            None => {
                assert(list.take(seen) =~= list);
                return out;
            },
        }
    }
}

} // verus!
