//! Subtitle cues of a movie.

use vstd::prelude::*;
use crate::boxes;
use crate::boxes::{iter_boxes, same_type, type_at};
use crate::bytes;
use crate::helpers::entries;
use crate::helpers::entries::id_of_trak;
use crate::helpers::tables;
use crate::helpers::tables::{
    extract_track_tables, language_from_mdhd, mdia_child, moov_payload, stbl_child, TrackTables,
};
use crate::helpers::timing;
use crate::helpers::timing::{enumerate_samples, SampleInfo};
use crate::helpers::Mp4Box;
use crate::tags::Tag;
use crate::text;
use crate::text::{
    chars_of, from_utf16, same_text, starts_with, trim, utf16_units, utf8_lossy, utf8_strict,
    Endian, Trim,
};
use crate::tracks;

verus! {

/// How the cues of a subtitle track are coded.
#[derive(Debug, Clone, Copy, PartialEq, Eq, Structural)]
pub enum SubCodec {
    Tx3g,
    Wvtt,
    Stpp,
    Generic,
}

/// Whether one of the entries of a sample description has a type.
pub open spec fn has_entry(stsd: Seq<u8>, tag: Tag) -> bool {
    exists|i: int|
        0 <= i < tables::entry_types(stsd).len() && #[trigger] tables::entry_types(stsd)[i]
            == tag.code()
}

/// The coding that a sample description tells.
pub open spec fn codec_of(stsd: Option<Seq<u8>>) -> SubCodec {
    match stsd {
        Some(data) => if has_entry(data, Tag::Tx3g) {
            SubCodec::Tx3g
        } else if has_entry(data, Tag::Wvtt) {
            SubCodec::Wvtt
        } else if has_entry(data, Tag::Stpp) {
            SubCodec::Stpp
        } else {
            SubCodec::Generic
        },
        None => SubCodec::Generic,
    }
}

fn lists_entry(types: &Vec<[u8; 4]>, tag: Tag) -> (r: bool)
    ensures
        r == exists|i: int|
            0 <= i < types@.len() && #[trigger] boxes::path_view(types@)[i] == tag.code(),
{
    let code: [u8; 4] = tag.bytes();
    let mut i: usize = 0;
    while i < types.len()
        invariant
            i <= types@.len(),
            code@ == tag.code(),
            forall|j: int| 0 <= j < i ==> #[trigger] boxes::path_view(types@)[j] != tag.code(),
        decreases types@.len() - i,
    {
        assert(boxes::path_view(types@)[i as int] == types@[i as int]@);
        if same_type(&types[i], &code) {
            return true;
        }
        i = i + 1;
    }
    false
}

fn codec_from_stsd(stsd: Option<&[u8]>) -> (r: SubCodec)
    ensures
        r == codec_of(boxes::slice_view(stsd)),
{
    match stsd {
        Some(data) => {
            let types: Vec<[u8; 4]> = tables::stsd_entry_types(data);
            assert(boxes::path_view(types@).len() == types@.len());
            if lists_entry(&types, Tag::Tx3g) {
                SubCodec::Tx3g
            } else if lists_entry(&types, Tag::Wvtt) {
                SubCodec::Wvtt
            } else if lists_entry(&types, Tag::Stpp) {
                SubCodec::Stpp
            } else {
                SubCodec::Generic
            }
        },
        None => SubCodec::Generic,
    }
}

/// A text without its tags: what stands between `<` and `>` is dropped, and so are those.
pub open spec fn without_tags(s: Seq<char>, in_tag: bool) -> Seq<char>
    decreases s.len(),
{
    if s.len() == 0 {
        Seq::empty()
    } else if s[0] == '<' {
        without_tags(s.skip(1), true)
    } else if s[0] == '>' {
        without_tags(s.skip(1), false)
    } else if in_tag {
        without_tags(s.skip(1), true)
    } else {
        seq![s[0]] + without_tags(s.skip(1), false)
    }
}

fn strip_tags(s: &str) -> (r: String)
    ensures
        r@ == without_tags(s@, false),
{
    let chars: Vec<char> = chars_of(s);
    let mut out: String = String::new();
    let mut in_tag: bool = false;
    let mut i: usize = 0;
    assert(s@.skip(0) =~= s@);
    assert(out@ + without_tags(s@, false) =~= without_tags(s@, false));
    while i < chars.len()
        invariant
            i <= chars@.len(),
            chars@ == s@,
            without_tags(s@, false) == out@ + without_tags(s@.skip(i as int), in_tag),
        decreases chars@.len() - i,
    {
        let c: char = chars[i];
        let ghost before = out@;
        assert(s@.skip(i as int).skip(1) =~= s@.skip(i + 1));
        if c == '<' {
            in_tag = true;
        } else if c == '>' {
            in_tag = false;
        } else if !in_tag {
            out.push(c);
            assert(before + (seq![c] + without_tags(s@.skip(i + 1), false)) =~= out@
                + without_tags(s@.skip(i + 1), false));
        }
        i = i + 1;
    }
    assert(out@ + Seq::<char>::empty() =~= out@);
    out
}

/// A text without white space around it, nothing where that is empty.
pub open spec fn nonempty_trimmed(s: Option<Seq<char>>) -> Option<Seq<char>> {
    match s {
        Some(t) => if text::trimmed(t, Trim::White).len() == 0 {
            None
        } else {
            Some(text::trimmed(t, Trim::White))
        },
        None => None,
    }
}

fn trim_nonempty(s: &str) -> (r: Option<String>)
    ensures
        text::text_view(r) == nonempty_trimmed(Some(s@)),
{
    let t: String = trim(s, Trim::White);
    proof {
        reveal_strlit("");
        if t@.len() == 0 {
            assert(t@ =~= ""@);
        }
    }
    if same_text(t.as_str(), "") {
        None
    } else {
        Some(t)
    }
}

/// The text of valid UTF-8.
pub open spec fn strict_text(data: Seq<u8>) -> Option<Seq<char>> {
    if vstd::utf8::valid_utf8(data) {
        Some(vstd::utf8::decode_utf8(data))
    } else {
        None
    }
}

/// The text of a cue.
///
/// - Tx3g: a 16-bit length and that many bytes of UTF-8.
/// - Wvtt: the whole sample, unless it is a `WEBVTT` header.
/// - Stpp: the whole sample without its tags.
/// - Generic: the whole sample as UTF-8, else as big-endian UTF-16.
pub open spec fn cue_text(data: Seq<u8>, codec: SubCodec) -> Option<Seq<char>> {
    match codec {
        SubCodec::Tx3g => if data.len() < 2 || bytes::be16(data, 0) == 0 || data.len() < 2
            + bytes::be16(data, 0) {
            None
        } else {
            nonempty_trimmed(
                Some(text::lossy_utf8(data.subrange(2, 2 + bytes::be16(data, 0)))),
            )
        },
        SubCodec::Wvtt => match nonempty_trimmed(strict_text(data)) {
            Some(t) => if text::begins_with(t, "WEBVTT"@) {
                None
            } else {
                Some(t)
            },
            None => None,
        },
        SubCodec::Stpp => match strict_text(data) {
            Some(t) => nonempty_trimmed(Some(without_tags(t, false))),
            None => None,
        },
        SubCodec::Generic => match strict_text(data) {
            Some(t) => nonempty_trimmed(Some(t)),
            None => if data.len() >= 2 && data.len() % 2 == 0 {
                nonempty_trimmed(text::utf16_text(text::units_of(data, Endian::Big)))
            } else {
                None
            },
        },
    }
}

/// The text of a cue, none for an empty sample.
pub open spec fn parsed_cue(data: Seq<u8>, codec: SubCodec) -> Option<Seq<char>> {
    if data.len() == 0 {
        None
    } else {
        cue_text(data, codec)
    }
}

/// Reads the text of a cue out of a sample.
pub fn parse(data: &[u8], codec: SubCodec) -> (r: Option<String>)
    ensures
        text::text_view(r) == parsed_cue(data@, codec),
{
    if data.len() == 0 {
        return None;
    }
    match codec {
        SubCodec::Tx3g => {
            let len: usize = match bytes::read_u16_be(data, 0) {
                Some(v) => v as usize,
                None => {
                    return None;
                },
            };
            if len == 0 || data.len() - 2 < len {
                return None;
            }
            let s: String = utf8_lossy(&data[2..2 + len]);
            trim_nonempty(s.as_str())
        },
        SubCodec::Wvtt => match utf8_strict(data) {
            Some(s) => match trim_nonempty(s.as_str()) {
                Some(t) => if starts_with(t.as_str(), "WEBVTT") {
                    None
                } else {
                    Some(t)
                },
                None => None,
            },
            None => None,
        },
        SubCodec::Stpp => match utf8_strict(data) {
            Some(s) => {
                let plain: String = strip_tags(s.as_str());
                trim_nonempty(plain.as_str())
            },
            None => None,
        },
        SubCodec::Generic => match utf8_strict(data) {
            Some(s) => trim_nonempty(s.as_str()),
            None => if data.len() >= 2 && data.len() % 2 == 0 {
                let units: Vec<u16> = utf16_units(data, Endian::Big);
                match from_utf16(units.as_slice()) {
                    Some(s) => trim_nonempty(s.as_str()),
                    None => None,
                }
            } else {
                None
            },
        },
    }
}

/// A parsed subtitle cue from a selected subtitle track. Times are counted in
/// ticks of the track's timescale.
#[derive(Debug, Clone)]
pub struct Subtitle {
    /// Sequential subtitle identifier (starts at 1)
    pub id: u32,
    /// Track ID from the MP4 `trak` atom
    pub track_id: u32,
    pub start_time: u64,
    pub end_time: u128,
    pub text: String,
}

/// What a subtitle cue holds.
pub struct SubtitleView {
    pub id: u32,
    pub track_id: u32,
    pub start_time: u64,
    pub end_time: u128,
    pub text: Seq<char>,
}

impl View for Subtitle {
    type V = SubtitleView;

    open spec fn view(&self) -> SubtitleView {
        SubtitleView {
            id: self.id,
            track_id: self.track_id,
            start_time: self.start_time,
            end_time: self.end_time,
            text: self.text@,
        }
    }
}

/// Selection query for choosing a subtitle track.
#[derive(Debug, Clone)]
pub enum SubtitleQuery {
    /// Pick the track with the given `trak` ID.
    TrackId(u32),
    /// Pick the first track with a matching ISO-639 language code.
    Language(String),
    /// Pick the first subtitle track found.
    First,
}

/// Whether a `trak` holds subtitles.
pub open spec fn is_subtitle(trak: Seq<u8>) -> bool {
    let hdlr = tables::mdia_box(trak, Mp4Box::Hdlr);
    entries::handler_is(hdlr, Tag::Sbtl) || entries::handler_is(hdlr, Tag::Subt)
        || entries::handler_is(hdlr, Tag::Text)
}

/// Whether a query asks for a `trak`.
pub open spec fn asks_for(query: SubtitleQuery, trak: Seq<u8>) -> bool {
    match query {
        SubtitleQuery::TrackId(id) => entries::trak_id(trak) == id,
        SubtitleQuery::Language(lang) => tracks::track_language(trak) == Some(lang@),
        SubtitleQuery::First => true,
    }
}

/// Whether a `trak` is a subtitle track with readable tables that a query asks for.
pub open spec fn is_wanted(query: SubtitleQuery, trak: Seq<u8>) -> bool {
    is_subtitle(trak) && tables::trak_tables(trak) is Some && asks_for(query, trak)
}

/// A chosen subtitle track.
pub struct SubtitleTrack {
    pub id: u32,
    pub tables: TrackTables,
    pub codec: SubCodec,
}

/// The subtitle track that a query picks: the first one that it asks for.
pub open spec fn picked(moov: Seq<u8>, query: SubtitleQuery) -> Option<Seq<u8>> {
    entries::first_trak(
        boxes::box_list(tables::moov_contents(moov)),
        |trak: Seq<u8>| is_wanted(query, trak),
    )
}

fn holds_subtitles(trak: &[u8]) -> (r: bool)
    ensures
        r == is_subtitle(trak@),
{
    match mdia_child(trak, Mp4Box::Hdlr) {
        Some(hdlr) => hdlr.len() >= 12 && (type_at(hdlr, 8, &Tag::Sbtl.bytes()) || type_at(
            hdlr,
            8,
            &Tag::Subt.bytes(),
        ) || type_at(hdlr, 8, &Tag::Text.bytes())),
        None => false,
    }
}

fn query_matches(query: &SubtitleQuery, trak: &[u8]) -> (r: bool)
    ensures
        r == asks_for(*query, trak@),
{
    match query {
        SubtitleQuery::TrackId(id) => id_of_trak(trak) == *id,
        SubtitleQuery::Language(lang) => match mdia_child(trak, Mp4Box::Mdhd) {
            Some(mdhd) => match language_from_mdhd(mdhd) {
                Some(found) => same_text(found.as_str(), lang.as_str()),
                None => false,
            },
            None => false,
        },
        SubtitleQuery::First => true,
    }
}

/// Picks the subtitle track of a movie that a query asks for.
pub fn select_subtitle_track(moov: &[u8], query: &SubtitleQuery) -> (r: Option<SubtitleTrack>)
    ensures
        match r {
            Some(track) => picked(moov@, *query) matches Some(trak) && track.id
                == entries::trak_id(trak) && tables::trak_tables(trak) == Some(track.tables@)
                && track.codec == codec_of(tables::stbl_box(trak, Mp4Box::Stsd)),
            None => picked(moov@, *query) is None,
        },
{
    let payload: &[u8] = moov_payload(moov);
    let ghost accepts = |trak: Seq<u8>| is_wanted(*query, trak);
    let mut it = iter_boxes(payload);
    loop
        invariant
            accepts == (|trak: Seq<u8>| is_wanted(*query, trak)),
            picked(moov@, *query) == entries::first_trak(it@, accepts),
        decreases it@.len(),
    {
        match it.next() {
            Some((typ, trak)) => {
                if same_type(&typ, &Mp4Box::Trak.bytes()) && holds_subtitles(trak) {
                    match extract_track_tables(trak) {
                        Some(t) => {
                            if query_matches(query, trak) {
                                return Some(
                                    SubtitleTrack {
                                        id: id_of_trak(trak),
                                        tables: t,
                                        codec: codec_from_stsd(stbl_child(trak, Mp4Box::Stsd)),
                                    },
                                );
                            }
                        },
                        None => {},
                    }
                }
            },
            None => {
                return None;
            },
        }
    }
}

/// The samples of a track that hold something.
pub open spec fn filled(samples: Seq<SampleInfo>) -> Seq<SampleInfo>
    decreases samples.len(),
{
    if samples.len() == 0 {
        Seq::empty()
    } else if samples.last().size == 0 {
        filled(samples.drop_last())
    } else {
        filled(samples.drop_last()).push(samples.last())
    }
}

/// The samples of a subtitle track that are to be read, in order.
pub fn samples_to_read(track: &SubtitleTrack) -> (r: Vec<SampleInfo>)
    ensures
        r@ == filled(timing::samples_through(track.tables@, track.tables.offsets@.len())),
{
    let all: Vec<SampleInfo> = enumerate_samples(&track.tables);
    let mut out: Vec<SampleInfo> = Vec::new();
    let mut i: usize = 0;
    while i < all.len()
        invariant
            i <= all@.len(),
            out@ == filled(all@.take(i as int)),
        decreases all@.len() - i,
    {
        assert(all@.take(i + 1).drop_last() =~= all@.take(i as int));
        if all[i].size != 0 {
            out.push(all[i]);
        }
        i = i + 1;
    }
    assert(all@.take(i as int) =~= all@);
    out
}

/// The cues that the bytes of samples hold, each with the time of its sample.
pub open spec fn cues_of(
    samples: Seq<SampleInfo>,
    data: Seq<Seq<u8>>,
    codec: SubCodec,
) -> Seq<(SampleInfo, Seq<char>)>
    decreases samples.len(),
{
    if samples.len() == 0 {
        Seq::empty()
    } else {
        let before = cues_of(samples.drop_last(), data.drop_last(), codec);
        match parsed_cue(data.last(), codec) {
            Some(t) => before.push((samples.last(), t)),
            None => before,
        }
    }
}

/// Subtitles numbered in the order of their cues.
pub open spec fn numbered(
    track_id: u32,
    cues: Seq<(SampleInfo, Seq<char>)>,
) -> Seq<SubtitleView> {
    Seq::new(
        cues.len(),
        |i: int|
            SubtitleView {
                id: (i + 1) as u32,
                track_id,
                start_time: cues[i].0.start,
                end_time: (cues[i].0.start + cues[i].0.duration) as u128,
                text: cues[i].1,
            },
    )
}

/// Whether subtitles come in the order of their start, those that start
/// together in the order of their numbers.
pub open spec fn in_order(subs: Seq<SubtitleView>) -> bool {
    forall|i: int, j: int|
        0 <= i < j < subs.len() ==> (#[trigger] subs[i]).start_time < (
        #[trigger] subs[j]).start_time || (subs[i].start_time == subs[j].start_time && subs[i].id
            < subs[j].id)
}

/// What the subtitles of a list hold.
pub open spec fn subtitles_view(subs: Seq<Subtitle>) -> Seq<SubtitleView> {
    Seq::new(subs.len(), |i: int| subs[i]@)
}

/// What the byte strings of a list hold.
pub open spec fn bytes_view(data: Seq<Vec<u8>>) -> Seq<Seq<u8>> {
    Seq::new(data.len(), |i: int| data[i]@)
}

proof fn lemma_insert_multiset(s: Seq<SubtitleView>, at: int, v: SubtitleView)
    requires
        0 <= at <= s.len(),
    ensures
        s.insert(at, v).to_multiset() == s.to_multiset().insert(v),
{
    let t = s.insert(at, v);
    assert(t.remove(at) =~= s);
    assert(t[at] == v);
    vstd::seq_lib::to_multiset_remove(t, at);
    assert(t.contains(v));
    t.to_multiset_ensures();
    assert(t.to_multiset() =~= s.to_multiset().insert(v));
}

/// Builds the subtitles of a track from the bytes of its samples, ordered by
/// start; `data[i]` holds the bytes of `samples[i]`.
pub fn build_subtitles(
    track_id: u32,
    codec: SubCodec,
    samples: &[SampleInfo],
    data: &[Vec<u8>],
) -> (r: Vec<Subtitle>)
    requires
        samples@.len() == data@.len(),
        samples@.len() <= u32::MAX,
    ensures
        subtitles_view(r@).to_multiset() == numbered(
            track_id,
            cues_of(samples@, bytes_view(data@), codec),
        ).to_multiset(),
        in_order(subtitles_view(r@)),
{
    let mut out: Vec<Subtitle> = Vec::new();
    let mut i: usize = 0;
    let ghost all = bytes_view(data@);
    assert(subtitles_view(out@) =~= numbered(track_id, cues_of(samples@.take(0), all.take(0), codec)));
    while i < samples.len()
        invariant
            i <= samples@.len(),
            samples@.len() == data@.len(),
            samples@.len() <= u32::MAX,
            all == bytes_view(data@),
            out@.len() <= i,
            out@.len() == cues_of(samples@.take(i as int), all.take(i as int), codec).len(),
            subtitles_view(out@).to_multiset() == numbered(
                track_id,
                cues_of(samples@.take(i as int), all.take(i as int), codec),
            ).to_multiset(),
            in_order(subtitles_view(out@)),
            forall|k: int|
                0 <= k < out@.len() ==> (#[trigger] subtitles_view(out@)[k]).id <= out@.len(),
        decreases samples@.len() - i,
    {
        proof {
            assert(samples@.take(i + 1).drop_last() =~= samples@.take(i as int));
            assert(all.take(i + 1).drop_last() =~= all.take(i as int));
            assert(all.take(i + 1).last() == data@[i as int]@);
        }
        match parse(data[i].as_slice(), codec) {
            Some(t) => {
                let ghost before = subtitles_view(out@);
                let ghost cues = cues_of(samples@.take(i as int), all.take(i as int), codec);
                let start: u64 = samples[i].start;
                let sub = Subtitle {
                    id: out.len() as u32 + 1,
                    track_id,
                    start_time: start,
                    end_time: start as u128 + samples[i].duration as u128,
                    text: t,
                };
                let mut at: usize = out.len();
                while at > 0 && out[at - 1].start_time > start
                    invariant
                        at <= out@.len(),
                        before == subtitles_view(out@),
                        forall|k: int|
                            at <= k < out@.len() ==> (#[trigger] before[k]).start_time > start,
                    decreases at,
                {
                    assert(before[at - 1] == out@[at - 1]@);
                    at = at - 1;
                }
                proof {
                    lemma_insert_multiset(before, at as int, sub@);
                    let next = cues.push((samples@[i as int], sub.text@));
                    assert(numbered(track_id, next) =~= numbered(track_id, cues).push(sub@));
                    vstd::seq_lib::to_multiset_build(numbered(track_id, cues), sub@);
                    if at > 0 {
                        assert(before[at - 1] == out@[at - 1]@);
                    }
                }
                out.insert(at, sub);
                assert(subtitles_view(out@) =~= before.insert(at as int, sub@));
                assert(in_order(subtitles_view(out@))) by {
                    let s = subtitles_view(out@);
                    assert forall|a: int, b: int| 0 <= a < b < s.len() implies (
                    #[trigger] s[a]).start_time < (#[trigger] s[b]).start_time || (s[a].start_time
                        == s[b].start_time && s[a].id < s[b].id) by {
                        if b < at {
                            assert(s[a] == before[a] && s[b] == before[b]);
                        } else if a > at {
                            assert(s[a] == before[a - 1] && s[b] == before[b - 1]);
                        } else if a == at {
                            assert(s[b] == before[b - 1]);
                        } else if b == at {
                            assert(s[a] == before[a]);
                            if a < at - 1 {
                                assert(before[a].start_time <= before[at - 1].start_time);
                            }
                        } else {
                            assert(s[a] == before[a] && s[b] == before[b - 1]);
                        }
                    }
                }
            },
            None => {},
        }
        i = i + 1;
    }
    assert(samples@.take(i as int) =~= samples@);
    assert(all.take(i as int) =~= all);
    out
}

} // verus!
