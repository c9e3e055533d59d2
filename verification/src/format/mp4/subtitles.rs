//! MP4 subtitle extraction.
//!
//! Supports 3GPP Timed Text (`tx3g`) and best-effort text extraction from
//! WebVTT (`wvtt`) and XML/text subtitle samples.

use vstd::prelude::*;
use super::atoms::locate;
use super::atoms::locate::SampleLocator;
use super::atoms::media;
use super::atoms::media::{fourcc_string, MediaHeader, TrackHeader};
use super::atoms::read;
use super::atoms::read::{find_box_ref, find_in_ref, iter_boxes, BoxIter};
use super::atoms::sample_timing;
use super::atoms::sample_timing::parse_stts;
use super::atoms::samples;
use super::atoms::samples::{
    parse_chunk_offsets, parse_sample_sizes, parse_stsc, sample_size, SampleSizes, StscEntry,
};
use super::thumbnails::request;
use super::thumbnails::request::parse_moov_payload;
use super::tracks;
use super::tracks::{
    classify_handler, language_string, parse_stsd, BaseTrackMeta, StsdInfo, TrackKind,
};
use crate::boxes;
use crate::boxes::same_type;
use crate::bytes;
use crate::bytes::read_u16_be;
use crate::errors;
use crate::errors::MediaParserError;
use crate::format::texts;
use crate::format::texts::{
    decode_utf16_be, decode_utf16_with_bom, decode_utf8, trim_null_and_whitespace,
};
use crate::helpers::runs;
use crate::helpers::tables;
use crate::helpers::timing;
use crate::helpers::Mp4Box;
use crate::metadata;
use crate::tags::Tag;
use crate::text;
use crate::text::{decimal_text, eq_ignore_ascii_case, same_text, trim, utf8_lossy, Trim};
use crate::time;
use crate::time::{ticks_to_duration, Duration};

verus! {

/// The largest number of samples of a subtitle track.
pub const MAX_SUBTITLE_SAMPLES: u32 = 200000;

/// The largest size of a subtitle sample.
pub const MAX_SUBTITLE_SAMPLE_BYTES: usize = 1048576;

// --------------------
// Filters
// --------------------

/// Which track is asked for.
#[derive(Debug, Clone)]
pub enum TrackFilter {
    /// The track with a number.
    TrackId(u32),
    /// The tracks in a language.
    Language(String),
}

/// Whether a track is the one asked for. Languages are compared without
/// regard to ASCII case.
pub open spec fn is_wanted(id: u32, language: Option<Seq<char>>, filter: Option<TrackFilter>) -> bool {
    match filter {
        None => true,
        Some(TrackFilter::TrackId(wanted)) => id == wanted,
        Some(TrackFilter::Language(wanted)) => match language {
            Some(l) => text::ascii_lowercase(l) == text::ascii_lowercase(wanted@),
            None => false,
        },
    }
}

/// What an optional text is.
pub open spec fn str_view(s: Option<&str>) -> Option<Seq<char>> {
    match s {
        Some(t) => Some(t@),
        None => None,
    }
}

/// What an optional filter is.
pub open spec fn filter_view(filter: Option<&TrackFilter>) -> Option<TrackFilter> {
    match filter {
        Some(f) => Some(*f),
        None => None,
    }
}

/// Tells whether a track is the one asked for.
pub fn matches_filter(
    track_id: u32,
    language: Option<&str>,
    filter: Option<&TrackFilter>,
) -> (r: bool)
    ensures
        r == is_wanted(track_id, str_view(language), filter_view(filter)),
{
    match filter {
        None => true,
        Some(TrackFilter::TrackId(id)) => track_id == *id,
        Some(TrackFilter::Language(expected)) => match language {
            Some(language) => eq_ignore_ascii_case(language, expected.as_str()),
            None => false,
        },
    }
}

// --------------------
// Texts
// --------------------

/// Whether data starts with a byte order mark of UTF-16.
pub open spec fn is_marked(data: Seq<u8>) -> bool {
    data.len() >= 2 && ((data[0] == 0xfe && data[1] == 0xff) || (data[0] == 0xff && data[1]
        == 0xfe))
}

fn has_utf16_bom(data: &[u8]) -> (r: bool)
    ensures
        r == is_marked(data@),
{
    data.len() >= 2 && ((data[0] == 0xfe && data[1] == 0xff) || (data[0] == 0xff && data[1]
        == 0xfe))
}

/// The characters of a text sample: UTF-16 where it is marked, else UTF-8
/// where it is valid, else big-endian UTF-16 where its length is even, else
/// UTF-8 with replacements.
pub open spec fn sample_characters(data: Seq<u8>) -> Option<Seq<char>> {
    if is_marked(data) {
        metadata::marked_utf16(data)
    } else if vstd::utf8::valid_utf8(data) {
        Some(vstd::utf8::decode_utf8(data))
    } else if data.len() % 2 == 0 {
        texts::utf16_be_text(data)
    } else {
        Some(text::lossy_utf8(data))
    }
}

/// The text of a plain sample, without marks, null padding and white space
/// around it.
pub open spec fn plain_text(data: Seq<u8>) -> Option<Seq<char>> {
    match sample_characters(data) {
        Some(s) => texts::tidy(text::trimmed(s, Trim::Only('\u{feff}'))),
        None => None,
    }
}

/// Decodes a plain text sample.
pub fn decode_plain_text_sample(data: &[u8]) -> (r: Option<String>)
    ensures
        text::text_view(r) == plain_text(data@),
{
    let decoded: Option<String> = if has_utf16_bom(data) {
        decode_utf16_with_bom(data)
    } else {
        match decode_utf8(data) {
            Some(s) => Some(s),
            None => if data.len() % 2 == 0 {
                decode_utf16_be(data)
            } else {
                Some(utf8_lossy(data))
            },
        }
    };
    match decoded {
        Some(s) => {
            let unmarked: String = trim(s.as_str(), Trim::Only('\u{feff}'));
            trim_null_and_whitespace(unmarked.as_str())
        },
        None => None,
    }
}

/// The text of a `tx3g` sample: behind its 16-bit length, before any styles.
pub open spec fn tx3g_text(data: Seq<u8>) -> Option<Seq<char>> {
    if data.len() < 2 || 2 + bytes::be16(data, 0) > data.len() {
        None
    } else {
        plain_text(data.subrange(2, 2 + bytes::be16(data, 0)))
    }
}

/// Decodes a `tx3g` sample.
pub fn decode_tx3g_sample(data: &[u8]) -> (r: Option<String>)
    ensures
        text::text_view(r) == tx3g_text(data@),
{
    let len: usize = match read_u16_be(data, 0) {
        Some(len) => len as usize,
        None => {
            return None;
        },
    };
    if len > data.len() - 2 {
        return None;
    }
    decode_plain_text_sample(&data[2..2 + len])
}

/// The first cue payload in a list of boxes: a `payl`, or the `payl` in a
/// `vttc`.
pub open spec fn cue_payload(list: Seq<(Seq<u8>, Seq<u8>)>) -> Option<Seq<u8>>
    decreases list.len(),
{
    if list.len() == 0 {
        None
    } else if list[0].0 == Tag::Payl.code() {
        Some(list[0].1)
    } else if list[0].0 == Tag::Vttc.code() && read::child(list[0].1, Tag::Payl.code()) is Some {
        read::child(list[0].1, Tag::Payl.code())
    } else {
        cue_payload(list.skip(1))
    }
}

/// The text of a `wvtt` sample: of its first cue payload, else of the sample
/// as it stands.
pub open spec fn wvtt_text(data: Seq<u8>) -> Option<Seq<char>> {
    match cue_payload(read::boxes_in(data)) {
        Some(payload) => plain_text(payload),
        None => plain_text(data),
    }
}

/// Decodes a `wvtt` sample.
pub fn decode_wvtt_sample(data: &[u8]) -> (r: Option<String>)
    ensures
        text::text_view(r) == wvtt_text(data@),
{
    let mut it: BoxIter = iter_boxes(data);
    loop
        invariant
            cue_payload(read::boxes_in(data@)) == cue_payload(it@),
        decreases it@.len(),
    {
        match it.next() {
            Some((fourcc, payload)) => {
                if same_type(&fourcc, &Tag::Payl.bytes()) {
                    return decode_plain_text_sample(payload);
                }
                if same_type(&fourcc, &Tag::Vttc.bytes()) {
                    if let Some(child) = find_box_ref(payload, &Tag::Payl.bytes()) {
                        return decode_plain_text_sample(child);
                    }
                }
            },
            None => {
                return decode_plain_text_sample(data);
            },
        }
    }
}

/// The text of a subtitle sample of a codec.
pub open spec fn subtitle_text(codec: Seq<char>, data: Seq<u8>) -> Option<Seq<char>> {
    if codec == "tx3g"@ {
        tx3g_text(data)
    } else if codec == "wvtt"@ {
        wvtt_text(data)
    } else {
        plain_text(data)
    }
}

/// Decodes a subtitle sample.
pub fn decode_subtitle_sample(codec: &str, data: &[u8]) -> (r: Option<String>)
    ensures
        text::text_view(r) == subtitle_text(codec@, data@),
{
    if same_text(codec, "tx3g") {
        decode_tx3g_sample(data)
    } else if same_text(codec, "wvtt") {
        decode_wvtt_sample(data)
    } else {
        decode_plain_text_sample(data)
    }
}

// --------------------
// Tables
// --------------------

/// The parts of a `trak` that subtitles are read from.
#[derive(Debug, Clone, Copy)]
pub struct ParsedTrak<'a> {
    pub tkhd: TrackHeader,
    pub mdhd: MediaHeader,
    pub handler: [u8; 4],
    pub kind: TrackKind,
    pub stbl: Option<&'a [u8]>,
}

/// What the parts of a `trak` are.
pub struct TrakView {
    pub tkhd: TrackHeader,
    pub mdhd: media::MediaHeaderView,
    pub handler: Seq<u8>,
    pub stbl: Option<Seq<u8>>,
}

impl<'a> View for ParsedTrak<'a> {
    type V = TrakView;

    open spec fn view(&self) -> TrakView {
        TrakView {
            tkhd: self.tkhd,
            mdhd: self.mdhd@,
            handler: self.handler@,
            stbl: boxes::slice_view(self.stbl),
        }
    }
}

/// The parts of a `trak`, where it has both headers. A handler that is not
/// told reads as four spaces.
pub open spec fn trak_parts(trak: Seq<u8>) -> Option<TrakView> {
    match (
        read::child(trak, Mp4Box::Tkhd.fourcc()),
        read::child(trak, Mp4Box::Mdia.fourcc()),
    ) {
        (Some(tkhd), Some(mdia)) => match (
            media::track_header(tkhd),
            read::child(mdia, Mp4Box::Mdhd.fourcc()),
        ) {
            (Some(header), Some(mdhd)) => match media::media_header(mdhd) {
                Some(media_header) => Some(
                    TrakView {
                        tkhd: header,
                        mdhd: media_header,
                        handler: tracks::handler_or_blank(mdia),
                        stbl: read::child_in(
                            read::child(mdia, Mp4Box::Minf.fourcc()),
                            Mp4Box::Stbl.fourcc(),
                        ),
                    },
                ),
                None => None,
            },
            _ => None,
        },
        _ => None,
    }
}

/// Reads the parts of a `trak`.
pub fn parse_trak<'a>(trak: &'a [u8]) -> (r: Option<ParsedTrak<'a>>)
    ensures
        match r {
            Some(parts) => trak_parts(trak@) == Some(parts@) && parts.kind == tracks::kind_of(
                parts.handler@,
            ),
            None => trak_parts(trak@) is None,
        },
{
    let (tkhd, mdia): (&'a [u8], &'a [u8]) = match (
        find_box_ref(trak, &Mp4Box::Tkhd.bytes()),
        find_box_ref(trak, &Mp4Box::Mdia.bytes()),
    ) {
        (Some(tkhd), Some(mdia)) => (tkhd, mdia),
        _ => {
            return None;
        },
    };
    let header: TrackHeader = match media::parse_tkhd(tkhd) {
        Some(header) => header,
        None => {
            return None;
        },
    };
    let mdhd: MediaHeader = match find_box_ref(mdia, &Mp4Box::Mdhd.bytes()) {
        Some(mdhd) => match media::parse_mdhd(mdhd) {
            Some(mdhd) => mdhd,
            None => {
                return None;
            },
        },
        None => {
            return None;
        },
    };
    let blank: [u8; 4] = [0x20, 0x20, 0x20, 0x20];
    assert(blank@ =~= seq![0x20u8, 0x20, 0x20, 0x20]);
    let handler: [u8; 4] = match find_box_ref(mdia, &Mp4Box::Hdlr.bytes()) {
        Some(hdlr) => match media::parse_hdlr(hdlr) {
            Some(handler) => handler,
            None => blank,
        },
        None => blank,
    };
    let stbl: Option<&'a [u8]> = find_in_ref(
        find_box_ref(mdia, &Mp4Box::Minf.bytes()),
        &Mp4Box::Stbl.bytes(),
    );
    Some(ParsedTrak { tkhd: header, mdhd, handler, kind: classify_handler(handler), stbl })
}

/// The sample tables of a subtitle track.
#[derive(Debug)]
pub struct SubtitleSampleTables<'a> {
    pub stts: &'a [u8],
    pub sizes: SampleSizes,
    pub stsc: Vec<StscEntry>,
    pub chunk_offsets: Vec<u64>,
    pub codec: String,
}

/// What the sample tables of a subtitle track hold.
pub struct SubtitleTablesView {
    pub stts: Seq<u8>,
    pub sizes: samples::SizesView,
    pub stsc: Seq<StscEntry>,
    pub chunks: Seq<u64>,
    pub codec: Seq<char>,
}

impl<'a> View for SubtitleSampleTables<'a> {
    type V = SubtitleTablesView;

    open spec fn view(&self) -> SubtitleTablesView {
        SubtitleTablesView {
            stts: self.stts@,
            sizes: self.sizes@,
            stsc: self.stsc@,
            chunks: self.chunk_offsets@,
            codec: self.codec@,
        }
    }
}

/// An unusable movie, with the reason.
pub open spec fn invalid<T>(reason: Seq<char>) -> Result<T, errors::ErrorView> {
    Err(errors::ErrorView::InvalidFormat(reason))
}

/// The sample tables in an optional `stbl`, or the first one that is missing.
pub open spec fn subtitle_tables(stbl: Option<Seq<u8>>) -> Result<
    SubtitleTablesView,
    errors::ErrorView,
> {
    let sizes = match read::child_in(stbl, Mp4Box::Stsz.fourcc()) {
        Some(stsz) => samples::stsz_sizes(stsz),
        None => None,
    };
    let stsc = match read::child_in(stbl, Mp4Box::Stsc.fourcc()) {
        Some(stsc) => samples::stsc_entries(stsc),
        None => None,
    };
    if stbl is None {
        invalid("subtitle track missing stbl"@)
    } else if read::child_in(stbl, Mp4Box::Stts.fourcc()) is None {
        invalid("subtitle track missing stts"@)
    } else if sizes is None {
        invalid("subtitle track missing stsz"@)
    } else if stsc is None {
        invalid("subtitle track missing stsc"@)
    } else {
        match samples::chunk_offsets_of(stbl->0) {
            Some(chunks) => Ok(
                SubtitleTablesView {
                    stts: read::child_in(stbl, Mp4Box::Stts.fourcc())->0,
                    sizes: sizes->0,
                    stsc: stsc->0,
                    chunks,
                    codec: match tracks::stsd_of(stbl) {
                        Some(stsd) => stsd.codec,
                        None => "unknown"@,
                    },
                },
            ),
            None => invalid("subtitle track missing stco/co64"@),
        }
    }
}

/// Reads the sample tables of a subtitle track.
pub fn parse_subtitle_sample_tables<'a>(trak: &ParsedTrak<'a>) -> (r: Result<
    SubtitleSampleTables<'a>,
    MediaParserError,
>)
    ensures
        match r {
            Ok(t) => subtitle_tables(trak@.stbl) == Ok::<SubtitleTablesView, errors::ErrorView>(
                t@,
            ),
            Err(e) => subtitle_tables(trak@.stbl) == Err::<SubtitleTablesView, errors::ErrorView>(
                e@,
            ),
        },
{
    let stbl: &'a [u8] = match trak.stbl {
        Some(stbl) => stbl,
        None => {
            return Err(MediaParserError::invalid("subtitle track missing stbl"));
        },
    };
    let stts: &'a [u8] = match find_box_ref(stbl, &Mp4Box::Stts.bytes()) {
        Some(stts) => stts,
        None => {
            return Err(MediaParserError::invalid("subtitle track missing stts"));
        },
    };
    let sizes: Option<SampleSizes> = match find_box_ref(stbl, &Mp4Box::Stsz.bytes()) {
        Some(stsz) => parse_sample_sizes(stsz),
        None => None,
    };
    let sizes: SampleSizes = match sizes {
        Some(sizes) => sizes,
        None => {
            return Err(MediaParserError::invalid("subtitle track missing stsz"));
        },
    };
    let stsc: Option<Vec<StscEntry>> = match find_box_ref(stbl, &Mp4Box::Stsc.bytes()) {
        Some(stsc) => parse_stsc(stsc),
        None => None,
    };
    let stsc: Vec<StscEntry> = match stsc {
        Some(stsc) => stsc,
        None => {
            return Err(MediaParserError::invalid("subtitle track missing stsc"));
        },
    };
    let chunk_offsets: Vec<u64> = match parse_chunk_offsets(stbl) {
        Some(offsets) => offsets,
        None => {
            return Err(MediaParserError::invalid("subtitle track missing stco/co64"));
        },
    };
    let stsd: Option<StsdInfo> = match find_box_ref(stbl, &Mp4Box::Stsd.bytes()) {
        Some(stsd) => parse_stsd(stsd),
        None => None,
    };
    let codec: String = match stsd {
        Some(stsd) => stsd.codec,
        None => "unknown".to_owned(),
    };
    Ok(SubtitleSampleTables { stts, sizes, stsc, chunk_offsets, codec })
}

// --------------------
// Cues to read
// --------------------

/// A sample that holds a cue, and when it is shown.
#[derive(Debug, Clone, Copy)]
pub struct CueSlot {
    pub sample_index: u32,
    pub start_time: Duration,
    pub end_time: Duration,
}

/// What a sample that holds a cue is, in nanoseconds.
pub struct SlotView {
    pub sample_index: u32,
    pub start: nat,
    pub end: nat,
}

impl View for CueSlot {
    type V = SlotView;

    open spec fn view(&self) -> SlotView {
        SlotView {
            sample_index: self.sample_index,
            start: self.start_time.nanos(),
            end: self.end_time.nanos(),
        }
    }
}

/// What a list of slots is.
pub open spec fn slots_view(slots: Seq<CueSlot>) -> Seq<SlotView> {
    Seq::new(slots.len(), |i: int| slots[i]@)
}

/// What an optional range of time is.
pub open spec fn range_view(range: Option<(Duration, Duration)>) -> Option<(nat, nat)> {
    match range {
        Some((start, end)) => Some((start.nanos(), end.nanos())),
        None => None,
    }
}

/// The slot of sample `i` (0-based) of a timing table.
pub open spec fn slot_of(pairs: Seq<(u32, u32)>, timescale: u32, i: int) -> SlotView {
    let start = timing::sample_start(pairs, i);
    SlotView {
        sample_index: (i + 1) as u32,
        start: time::span_of(start as u64, timescale),
        end: time::span_of((start + timing::sample_delta(pairs, i)) as u64, timescale),
    }
}

/// Whether a slot overlaps a range, where one is given.
pub open spec fn overlaps(slot: SlotView, range: Option<(nat, nat)>) -> bool {
    match range {
        Some((start, end)) => slot.end > start && slot.start < end,
        None => true,
    }
}

/// Those of the first `n` slots of a timing table that overlap a range.
pub open spec fn slots_below(
    pairs: Seq<(u32, u32)>,
    timescale: u32,
    range: Option<(nat, nat)>,
    n: int,
) -> Seq<SlotView>
    decreases n,
{
    if n <= 0 {
        Seq::empty()
    } else {
        let before = slots_below(pairs, timescale, range, n - 1);
        let slot = slot_of(pairs, timescale, n - 1);
        if overlaps(slot, range) {
            before.push(slot)
        } else {
            before
        }
    }
}

/// The timing table of a subtitle track, where it is readable and not too large.
pub open spec fn subtitle_timing(stts: Seq<u8>) -> Option<Seq<(u32, u32)>> {
    match sample_timing::stts_runs(stts) {
        Some(pairs) => if runs::run_total(pairs) > MAX_SUBTITLE_SAMPLES {
            None
        } else {
            Some(pairs)
        },
        None => None,
    }
}

/// Whether a table has no more samples than are allowed.
fn few_samples(pairs: &Vec<(u32, u32)>) -> (r: bool)
    ensures
        r == (runs::run_total(pairs@) <= MAX_SUBTITLE_SAMPLES),
{
    let mut left: u32 = MAX_SUBTITLE_SAMPLES;
    let mut i: usize = 0;
    assert(pairs@.take(0) =~= Seq::<(u32, u32)>::empty());
    while i < pairs.len()
        invariant
            i <= pairs@.len(),
            left == MAX_SUBTITLE_SAMPLES - runs::run_total(pairs@.take(i as int)),
        decreases pairs@.len() - i,
    {
        proof {
            assert(pairs@.take(i + 1).drop_last() =~= pairs@.take(i as int));
            sample_timing::lemma_total_grows(pairs@, i + 1);
        }
        if pairs[i].0 > left {
            return false;
        }
        left = left - pairs[i].0;
        i = i + 1;
    }
    assert(pairs@.take(i as int) =~= pairs@);
    true
}

fn is_in_range(start: &Duration, end: &Duration, range: &Option<(Duration, Duration)>) -> (r: bool)
    ensures
        r == (match range_view(*range) {
            Some((from, to)) => end.nanos() > from && start.nanos() < to,
            None => true,
        }),
{
    match range {
        Some((from, to)) => end.as_nanos() > from.as_nanos() && start.as_nanos() < to.as_nanos(),
        None => true,
    }
}

/// The samples of a subtitle track whose cues overlap a range, or all of them
/// without a range. Limiting to a range avoids reading every sample, of which
/// only a handful may fall inside a short clip.
pub fn subtitle_slots(
    stts: &[u8],
    sample_count: u32,
    timescale: u32,
    range: Option<(Duration, Duration)>,
) -> (r: Result<Vec<CueSlot>, MediaParserError>)
    ensures
        match subtitle_timing(stts@) {
            Some(pairs) => r matches Ok(slots) && slots_view(slots@) == slots_below(
                pairs,
                timescale,
                range_view(range),
                runs::least(runs::run_total(pairs) as int, sample_count as int),
            ),
            None => r matches Err(e) && e@ == errors::ErrorView::SubtitleError(
                "subtitle stts table is too large or invalid"@,
            ),
        },
{
    let pairs: Vec<(u32, u32)> = match parse_stts(stts) {
        Some(pairs) => {
            if !few_samples(&pairs) {
                return Err(
                    MediaParserError::SubtitleError(
                        "subtitle stts table is too large or invalid".to_owned(),
                    ),
                );
            }
            pairs
        },
        None => {
            return Err(
                MediaParserError::SubtitleError(
                    "subtitle stts table is too large or invalid".to_owned(),
                ),
            );
        },
    };
    let ghost wanted = range_view(range);
    let mut slots: Vec<CueSlot> = Vec::new();
    let mut index: u32 = 0;
    let mut tick: u64 = 0;
    let mut run: usize = 0;
    assert(pairs@.take(0) =~= Seq::<(u32, u32)>::empty());
    assert(slots_view(slots@) =~= Seq::empty());
    while run < pairs.len() && index < sample_count
        invariant
            run <= pairs@.len(),
            subtitle_timing(stts@) == Some(pairs@),
            runs::run_total(pairs@) <= MAX_SUBTITLE_SAMPLES,
            wanted == range_view(range),
            index <= sample_count,
            index <= runs::run_total(pairs@.take(run as int)),
            index < sample_count ==> index == runs::run_total(pairs@.take(run as int)) && tick
                == timing::run_ticks(pairs@.take(run as int)),
            slots_view(slots@) == slots_below(pairs@, timescale, wanted, index as int),
        decreases pairs@.len() - run,
    {
        let (count, delta): (u32, u32) = pairs[run];
        let ghost start_index = index as int;
        let ghost start_tick = tick as int;
        proof {
            timing::lemma_take_step(pairs@, run as int);
            sample_timing::lemma_total_grows(pairs@, run + 1);
            lemma_ticks_fit(pairs@, run + 1);
            lemma_ticks_fit(pairs@, run as int);
        }
        let mut k: u32 = 0;
        while k < count && index < sample_count
            invariant
                k <= count,
                run < pairs@.len(),
                (count, delta) == pairs@[run as int],
                runs::run_total(pairs@) <= MAX_SUBTITLE_SAMPLES,
                wanted == range_view(range),
                start_index == runs::run_total(pairs@.take(run as int)),
                start_tick == timing::run_ticks(pairs@.take(run as int)),
                start_tick + count * delta <= 200000 * 0xffff_ffff,
                0 <= start_tick,
                index == start_index + k,
                index <= sample_count,
                start_index + count <= MAX_SUBTITLE_SAMPLES,
                tick == start_tick + k * delta,
                slots_view(slots@) == slots_below(pairs@, timescale, wanted, index as int),
            decreases count - k,
        {
            proof {
                timing::lemma_start_in_run(pairs@, run as int, k as int);
                lemma_next_tick(k as int, count as int, delta as int);
            }
            let start_time: Duration = ticks_to_duration(tick, timescale);
            let end_time: Duration = ticks_to_duration(tick + delta as u64, timescale);
            let ghost before = slots_view(slots@);
            let ghost slot = slot_of(pairs@, timescale, index as int);
            if is_in_range(&start_time, &end_time, &range) {
                slots.push(CueSlot { sample_index: index + 1, start_time, end_time });
                assert(slots_view(slots@) =~= before.push(slot));
            }
            tick = tick + delta as u64;
            index = index + 1;
            k = k + 1;
        }
        run = run + 1;
    }
    proof {
        if run == pairs@.len() {
            assert(pairs@.take(run as int) =~= pairs@);
        } else {
            sample_timing::lemma_total_grows(pairs@, run as int);
        }
    }
    Ok(slots)
}

proof fn lemma_next_tick(k: int, count: int, delta: int)
    by (nonlinear_arith)
    requires
        0 <= k < count,
        0 <= delta,
    ensures
        (k + 1) * delta == k * delta + delta,
        0 <= k * delta,
        (k + 1) * delta <= count * delta,
{
}

/// The ticks of the first runs of a small table are few.
proof fn lemma_ticks_fit(pairs: Seq<(u32, u32)>, k: int)
    requires
        0 <= k <= pairs.len(),
        runs::run_total(pairs) <= MAX_SUBTITLE_SAMPLES,
    ensures
        0 <= timing::run_ticks(pairs.take(k)) <= 200000 * 0xffff_ffff,
{
    timing::lemma_ticks_grow(pairs, k);
    sample_timing::lemma_ticks_bound(pairs);
    let n = runs::run_total(pairs) as int;
    assert(n * 0xffff_ffff <= 200000 * 0xffff_ffff) by (nonlinear_arith)
        requires
            n <= 200000,
    ;
}

/// Where a subtitle sample is stored and how long it is.
pub open spec fn sample_place(t: SubtitleTablesView, i: u32) -> Option<(u64, u32)> {
    if !samples::starts_at_first_chunk(t.stsc, t.chunks.len() as int) || i == 0 || i
        > t.sizes.count {
        None
    } else {
        match locate::location(t.sizes, t.stsc, t.chunks, i as int) {
            Some(offset) => if t.sizes.size_of(i as int) > MAX_SUBTITLE_SAMPLE_BYTES {
                None
            } else {
                Some((offset, t.sizes.size_of(i as int)))
            },
            None => None,
        }
    }
}

/// Where a subtitle sample is stored and how long it is, see `sample_place`.
pub fn place_subtitle_sample(found: &SubtitleSampleTables, sample_index: u32) -> (r: Result<
    (u64, u32),
    MediaParserError,
>)
    ensures
        match sample_place(found@, sample_index) {
            Some(place) => r == Ok::<(u64, u32), MediaParserError>(place),
            None => r matches Err(e) && e@ == errors::ErrorView::InvalidFormat(
                "subtitle sample cannot be read: "@ + text::decimal(sample_index as nat),
            ),
        },
{
    let mut offset: Option<u64> = None;
    if let Some(mut locator) = SampleLocator::new(
        &found.sizes,
        found.stsc.as_slice(),
        found.chunk_offsets.as_slice(),
    ) {
        offset = locator.file_offset(sample_index);
    }
    match (offset, sample_size(sample_index, &found.sizes)) {
        (Some(offset), Some(size)) => {
            if size as usize <= MAX_SUBTITLE_SAMPLE_BYTES {
                return Ok((offset, size));
            }
        },
        _ => {},
    }
    Err(
        MediaParserError::InvalidFormat(
            text::joined(
                "subtitle sample cannot be read: ",
                decimal_text(sample_index as u64).as_str(),
            ),
        ),
    )
}

// --------------------
// Cues
// --------------------

/// A subtitle cue.
#[derive(Debug, Clone)]
pub struct SubtitleCue {
    pub cue_id: u32,
    pub start_time: Duration,
    pub end_time: Duration,
    pub text: String,
}

/// What a subtitle cue is.
pub struct CueView {
    pub cue_id: u32,
    pub start: nat,
    pub end: nat,
    pub text: Seq<char>,
}

impl View for SubtitleCue {
    type V = CueView;

    open spec fn view(&self) -> CueView {
        CueView {
            cue_id: self.cue_id,
            start: self.start_time.nanos(),
            end: self.end_time.nanos(),
            text: self.text@,
        }
    }
}

/// What a list of cues is.
pub open spec fn cues_view(cues: Seq<SubtitleCue>) -> Seq<CueView> {
    Seq::new(cues.len(), |i: int| cues[i]@)
}

/// The cues with that of a sample added, where it holds a text. Cues are
/// numbered from 1.
pub open spec fn with_cue(
    cues: Seq<CueView>,
    codec: Seq<char>,
    slot: SlotView,
    data: Seq<u8>,
) -> Seq<CueView> {
    match subtitle_text(codec, data) {
        Some(s) => cues.push(
            CueView {
                cue_id: (cues.len() + 1) as u32,
                start: slot.start,
                end: slot.end,
                text: s,
            },
        ),
        None => cues,
    }
}

/// The cues of the first `n` samples read.
pub open spec fn cues_of(
    codec: Seq<char>,
    slots: Seq<SlotView>,
    data: Seq<Seq<u8>>,
    n: int,
) -> Seq<CueView>
    decreases n,
{
    if n <= 0 {
        Seq::empty()
    } else {
        with_cue(cues_of(codec, slots, data, n - 1), codec, slots[n - 1], data[n - 1])
    }
}

/// Adds the cue of a sample.
pub fn add_cue(cues: &mut Vec<SubtitleCue>, codec: &str, slot: &CueSlot, data: &[u8])
    requires
        old(cues)@.len() < u32::MAX,
    ensures
        cues_view(final(cues)@) == with_cue(cues_view(old(cues)@), codec@, slot@, data@),
{
    let ghost before = cues_view(cues@);
    if let Some(text) = decode_subtitle_sample(codec, data) {
        let cue_id: u32 = cues.len() as u32 + 1;
        let cue: SubtitleCue = SubtitleCue {
            cue_id,
            start_time: slot.start_time,
            end_time: slot.end_time,
            text,
        };
        let ghost added = cue@;
        cues.push(cue);
        assert(cues_view(cues@) =~= before.push(added));
    }
}

/// A subtitle track with its cues.
#[derive(Debug, Clone)]
pub struct SubtitleTrack {
    pub base: BaseTrackMeta,
    pub cues: Vec<SubtitleCue>,
}

/// What a subtitle track says of itself.
pub open spec fn subtitle_base(
    trak: TrakView,
    codec: Seq<char>,
    sample_count: u32,
    cue_count: nat,
) -> tracks::BaseView {
    tracks::BaseView {
        id: trak.tkhd.id,
        codec,
        language: match trak.mdhd.language {
            Some(code) => Some(text::lossy_utf8(code)),
            None => None,
        },
        timescale: trak.mdhd.timescale,
        duration: trak.mdhd.duration,
        properties: seq![
            ("handler_type"@, text::lossy_utf8(trak.handler)),
            ("sample_count"@, text::decimal(sample_count as nat)),
            ("cue_count"@, text::decimal(cue_count)),
        ],
    }
}

/// The subtitle track that its parts and its cues make.
pub fn subtitle_track(
    trak: &ParsedTrak,
    found: SubtitleSampleTables,
    cues: Vec<SubtitleCue>,
) -> (r: SubtitleTrack)
    ensures
        r.base@ == subtitle_base(trak@, found@.codec, found@.sizes.count, cues@.len()),
        r.cues@ == cues@,
{
    let count: u32 = found.sizes.sample_count();
    let mut properties: Vec<(String, String)> = Vec::new();
    let handler_text: String = fourcc_string(trak.handler);
    let samples_text: String = decimal_text(count as u64);
    let cues_text: String = decimal_text(cues.len() as u64);
    let ghost first = ("handler_type"@, handler_text@);
    let ghost second = ("sample_count"@, samples_text@);
    let ghost third = ("cue_count"@, cues_text@);
    properties.push(("handler_type".to_owned(), handler_text));
    properties.push(("sample_count".to_owned(), samples_text));
    properties.push(("cue_count".to_owned(), cues_text));
    assert(tracks::properties_view(properties@) =~= seq![first, second, third]);
    SubtitleTrack {
        base: BaseTrackMeta {
            id: trak.tkhd.id,
            codec: found.codec,
            language: match trak.mdhd.language {
                Some(code) => Some(language_string(code)),
                None => None,
            },
            timescale: trak.mdhd.timescale,
            duration: trak.mdhd.duration,
            properties,
        },
        cues,
    }
}

/// A track that is asked for, with the samples to read for it.
#[derive(Debug)]
pub struct SubtitlePlan<'a> {
    pub tables: SubtitleSampleTables<'a>,
    pub slots: Vec<CueSlot>,
}

/// Plans the reading of a subtitle track: nothing where it is not asked for,
/// else its tables and the samples whose cues overlap a range.
pub fn plan_subtitle_trak<'a>(
    trak: &ParsedTrak<'a>,
    filter: Option<&TrackFilter>,
    range: Option<(Duration, Duration)>,
) -> (r: Result<Option<SubtitlePlan<'a>>, MediaParserError>)
    ensures
        ({
            let language = match trak@.mdhd.language {
                Some(code) => Some(text::lossy_utf8(code)),
                None => None,
            };
            if !is_wanted(trak@.tkhd.id, language, filter_view(filter)) {
                r matches Ok(None)
            } else {
                match subtitle_tables(trak@.stbl) {
                    Ok(found) => match subtitle_timing(found.stts) {
                        Some(pairs) => r matches Ok(Some(planned)) && planned.tables@ == found
                            && slots_view(planned.slots@) == slots_below(
                            pairs,
                            trak@.mdhd.timescale,
                            range_view(range),
                            runs::least(runs::run_total(pairs) as int, found.sizes.count as int),
                        ),
                        None => r matches Err(e) && e@ == errors::ErrorView::SubtitleError(
                            "subtitle stts table is too large or invalid"@,
                        ),
                    },
                    Err(error) => r matches Err(e) && e@ == error,
                }
            }
        }),
{
    let language: Option<String> = match trak.mdhd.language {
        Some(code) => Some(language_string(code)),
        None => None,
    };
    let wanted: bool = match &language {
        Some(l) => matches_filter(trak.tkhd.id, Some(l.as_str()), filter),
        None => matches_filter(trak.tkhd.id, None, filter),
    };
    if !wanted {
        return Ok(None);
    }
    let found: SubtitleSampleTables<'a> = match parse_subtitle_sample_tables(trak) {
        Ok(found) => found,
        Err(e) => {
            return Err(e);
        },
    };
    let count: u32 = found.sizes.sample_count();
    match subtitle_slots(found.stts, count, trak.mdhd.timescale, range) {
        Ok(slots) => Ok(Some(SubtitlePlan { tables: found, slots })),
        Err(e) => Err(e),
    }
}

/// The subtitle tracks among the first `n` boxes of a list. A track that lacks
/// a part is passed over.
pub open spec fn subtitle_parts(list: Seq<(Seq<u8>, Seq<u8>)>, n: int) -> Seq<TrakView>
    decreases n,
{
    if n <= 0 {
        Seq::empty()
    } else {
        let before = subtitle_parts(list, n - 1);
        match trak_parts(list[n - 1].1) {
            Some(parts) => if list[n - 1].0 == Mp4Box::Trak.fourcc() && tracks::kind_of(
                parts.handler,
            ) == TrackKind::Subtitle {
                before.push(parts)
            } else {
                before
            },
            None => before,
        }
    }
}

/// What a list of tracks is.
pub open spec fn parts_view(list: Seq<ParsedTrak>) -> Seq<TrakView> {
    Seq::new(list.len(), |i: int| list[i]@)
}

/// The subtitle tracks of a movie, in order, from its `moov` box.
pub fn subtitle_traks<'a>(moov: &'a [u8]) -> (r: Vec<ParsedTrak<'a>>)
    ensures
        ({
            let list = read::boxes_in(request::moov_body(moov@));
            parts_view(r@) == subtitle_parts(list, list.len() as int)
        }),
{
    let payload: &'a [u8] = parse_moov_payload(moov);
    let ghost list = read::boxes_in(payload@);
    let ghost mut seen = 0int;
    let mut out: Vec<ParsedTrak<'a>> = Vec::new();
    let mut it: BoxIter<'a> = iter_boxes(payload);
    assert(list.skip(0) =~= list);
    assert(parts_view(out@) =~= Seq::empty());
    loop
        invariant
            list == read::boxes_in(request::moov_body(moov@)),
            0 <= seen <= list.len(),
            it@ == list.skip(seen),
            parts_view(out@) == subtitle_parts(list, seen),
        decreases it@.len(),
    {
        let ghost before = parts_view(out@);
        match it.next() {
            Some((fourcc, trak)) => {
                proof {
                    assert(list.skip(seen)[0] == list[seen]);
                    assert(list.skip(seen).skip(1) =~= list.skip(seen + 1));
                }
                if same_type(&fourcc, &Mp4Box::Trak.bytes()) {
                    if let Some(parts) = parse_trak(trak) {
                        if parts.kind == TrackKind::Subtitle {
                            let ghost added = parts@;
                            out.push(parts);
                            assert(parts_view(out@) =~= before.push(added));
                        }
                    }
                }
                proof {
                    seen = seen + 1;
                }
            },
            None => {
                assert(seen == list.len());
                return out;
            },
        }
    }
}

/// The numbers of cues are their places, counted from 1.
pub proof fn law_cues_are_numbered(
    codec: Seq<char>,
    slots: Seq<SlotView>,
    data: Seq<Seq<u8>>,
    n: int,
    k: int,
)
    requires
        n <= u32::MAX,
        0 <= k < cues_of(codec, slots, data, n).len(),
    ensures
        cues_of(codec, slots, data, n)[k].cue_id == k + 1,
        cues_of(codec, slots, data, n).len() <= n,
    decreases n,
{
    if n > 0 {
        let before = cues_of(codec, slots, data, n - 1);
        lemma_cue_count(codec, slots, data, n - 1);
        lemma_cue_count(codec, slots, data, n);
        if k < before.len() {
            law_cues_are_numbered(codec, slots, data, n - 1, k);
        }
    }
}

proof fn lemma_cue_count(codec: Seq<char>, slots: Seq<SlotView>, data: Seq<Seq<u8>>, n: int)
    requires
        0 <= n,
    ensures
        cues_of(codec, slots, data, n).len() <= n,
    decreases n,
{
    if n > 0 {
        lemma_cue_count(codec, slots, data, n - 1);
    }
}

/// A sample is planned exactly where its cue overlaps the range.
pub proof fn law_planned_slots_overlap(
    pairs: Seq<(u32, u32)>,
    timescale: u32,
    range: Option<(nat, nat)>,
    n: int,
    i: int,
)
    requires
        0 <= i < n,
    ensures
        slots_below(pairs, timescale, range, n).contains(slot_of(pairs, timescale, i))
            <== overlaps(slot_of(pairs, timescale, i), range),
        forall|k: int|
            0 <= k < slots_below(pairs, timescale, range, n).len() ==> overlaps(
                #[trigger] slots_below(pairs, timescale, range, n)[k],
                range,
            ),
    decreases n,
{
    let all = slots_below(pairs, timescale, range, n);
    let before = slots_below(pairs, timescale, range, n - 1);
    let slot = slot_of(pairs, timescale, i);
    lemma_slots_overlap(pairs, timescale, range, n);
    if i < n - 1 {
        law_planned_slots_overlap(pairs, timescale, range, n - 1, i);
        if overlaps(slot, range) {
            let k = choose|k: int| 0 <= k < before.len() && before[k] == slot;
            assert(all[k] == slot);
        }
    } else if overlaps(slot, range) {
        assert(all.last() == slot);
    }
}

proof fn lemma_slots_overlap(
    pairs: Seq<(u32, u32)>,
    timescale: u32,
    range: Option<(nat, nat)>,
    n: int,
)
    ensures
        forall|k: int|
            0 <= k < slots_below(pairs, timescale, range, n).len() ==> overlaps(
                #[trigger] slots_below(pairs, timescale, range, n)[k],
                range,
            ),
    decreases n,
{
    if n > 0 {
        lemma_slots_overlap(pairs, timescale, range, n - 1);
        let all = slots_below(pairs, timescale, range, n);
        let before = slots_below(pairs, timescale, range, n - 1);
        assert forall|k: int| 0 <= k < all.len() implies overlaps(#[trigger] all[k], range) by {
            if k < before.len() {
                assert(all[k] == before[k]);
            }
        }
    }
}

} // verus!
