//! MP4 track metadata extraction.
//!
//! Reads lightweight information from each `trak` box without touching media samples.

use vstd::prelude::*;
use super::atoms::media;
use super::atoms::media::{fourcc_string, parse_hdlr, read_fixed_16_16, read_language};
use super::atoms::read;
use super::atoms::read::{find_box_ref, find_in_ref, iter_boxes, read_box, BoxIter, BoxRead};
use super::atoms::sample_timing;
use super::atoms::sample_timing::stts_sample_count;
use super::thumbnails::request;
use super::thumbnails::request::parse_moov_payload;
use crate::boxes;
use crate::boxes::same_type;
use crate::bytes;
use crate::bytes::{read_u16_be, read_u32_be, read_u64_be};
use crate::errors;
use crate::errors::MediaParserError;
use crate::helpers::runs;
use crate::helpers::tables;
use crate::helpers::Mp4Box;
use crate::tags::Tag;
use crate::text;
use crate::text::{decimal_text, joined, utf8_lossy};

verus! {

/// The largest sample table that is expanded.
pub const MAX_EXPANDED_SAMPLE_TABLE: u32 = 100000;

// --------------------
// Headers
// --------------------

/// What a track header tells.
#[derive(Debug, Clone, Copy, PartialEq, Eq, Structural)]
pub struct TkhdInfo {
    pub id: u32,
    pub duration: u64,
    pub width: u32,
    pub height: u32,
}

/// What a media header tells.
#[derive(Debug, Clone, Copy)]
pub struct MdhdInfo {
    pub timescale: u32,
    pub duration: u64,
    pub language: Option<[u8; 3]>,
}

/// Data that ends before an offset where a value was due.
pub open spec fn corrupted<T>(at: u64) -> Result<T, errors::ErrorView> {
    Err(errors::ErrorView::CorruptedData(at))
}

/// A header of an unknown version.
pub open spec fn unknown_version<T>(what: Seq<char>, version: u8) -> Result<T, errors::ErrorView> {
    Err(errors::ErrorView::InvalidFormat(what + text::decimal(version as nat)))
}

/// What a `tkhd` payload tells, or where it breaks off. Version 1 has 64-bit
/// times.
pub open spec fn tkhd_info(tkhd: Seq<u8>) -> Result<TkhdInfo, errors::ErrorView> {
    if tkhd.len() == 0 {
        corrupted(0)
    } else if tkhd[0] == 0 {
        if tkhd.len() < 16 {
            corrupted(12)
        } else if tkhd.len() < 24 {
            corrupted(20)
        } else {
            Ok(
                TkhdInfo {
                    id: bytes::be32(tkhd, 12),
                    duration: bytes::be32(tkhd, 20) as u64,
                    width: media::fixed_at(tkhd, 76),
                    height: media::fixed_at(tkhd, 80),
                },
            )
        }
    } else if tkhd[0] == 1 {
        if tkhd.len() < 24 {
            corrupted(20)
        } else if tkhd.len() < 36 {
            corrupted(28)
        } else {
            Ok(
                TkhdInfo {
                    id: bytes::be32(tkhd, 20),
                    duration: bytes::be64(tkhd, 28),
                    width: media::fixed_at(tkhd, 88),
                    height: media::fixed_at(tkhd, 92),
                },
            )
        }
    } else {
        unknown_version("unsupported tkhd version: "@, tkhd[0])
    }
}

/// What a parse that may fail gives.
pub open spec fn tkhd_view(r: Result<TkhdInfo, MediaParserError>) -> Result<
    TkhdInfo,
    errors::ErrorView,
> {
    match r {
        Ok(info) => Ok(info),
        Err(e) => Err(e@),
    }
}

/// Reads a track header.
pub fn parse_tkhd(tkhd: &[u8]) -> (r: Result<TkhdInfo, MediaParserError>)
    ensures
        tkhd_view(r) == tkhd_info(tkhd@),
{
    if tkhd.len() == 0 {
        return Err(MediaParserError::CorruptedData(0));
    }
    let version: u8 = tkhd[0];
    if version == 0 {
        let id: u32 = match read_u32_be(tkhd, 12) {
            Some(id) => id,
            None => {
                return Err(MediaParserError::CorruptedData(12));
            },
        };
        let duration: u64 = match read_u32_be(tkhd, 20) {
            Some(duration) => duration as u64,
            None => {
                return Err(MediaParserError::CorruptedData(20));
            },
        };
        let width: u32 = read_fixed_16_16(tkhd, 76);
        let height: u32 = read_fixed_16_16(tkhd, 80);
        Ok(TkhdInfo { id, duration, width, height })
    } else if version == 1 {
        let id: u32 = match read_u32_be(tkhd, 20) {
            Some(id) => id,
            None => {
                return Err(MediaParserError::CorruptedData(20));
            },
        };
        let duration: u64 = match read_u64_be(tkhd, 28) {
            Some(duration) => duration,
            None => {
                return Err(MediaParserError::CorruptedData(28));
            },
        };
        let width: u32 = read_fixed_16_16(tkhd, 88);
        let height: u32 = read_fixed_16_16(tkhd, 92);
        Ok(TkhdInfo { id, duration, width, height })
    } else {
        Err(
            MediaParserError::InvalidFormat(
                joined("unsupported tkhd version: ", decimal_text(version as u64).as_str()),
            ),
        )
    }
}

/// What an `mdhd` payload tells, or where it breaks off. Version 1 has 64-bit
/// times.
pub open spec fn mdhd_info(mdhd: Seq<u8>) -> Result<media::MediaHeaderView, errors::ErrorView> {
    if mdhd.len() == 0 {
        corrupted(0)
    } else if mdhd[0] == 0 {
        if mdhd.len() < 16 {
            corrupted(12)
        } else if mdhd.len() < 20 {
            corrupted(16)
        } else {
            Ok(
                media::MediaHeaderView {
                    timescale: bytes::be32(mdhd, 12),
                    duration: bytes::be32(mdhd, 16) as u64,
                    language: media::language_at(mdhd, 20),
                },
            )
        }
    } else if mdhd[0] == 1 {
        if mdhd.len() < 24 {
            corrupted(20)
        } else if mdhd.len() < 32 {
            corrupted(24)
        } else {
            Ok(
                media::MediaHeaderView {
                    timescale: bytes::be32(mdhd, 20),
                    duration: bytes::be64(mdhd, 24),
                    language: media::language_at(mdhd, 32),
                },
            )
        }
    } else {
        unknown_version("unsupported mdhd version: "@, mdhd[0])
    }
}

/// What a parse that may fail gives.
pub open spec fn mdhd_view(r: Result<MdhdInfo, MediaParserError>) -> Result<
    media::MediaHeaderView,
    errors::ErrorView,
> {
    match r {
        Ok(info) => Ok(
            media::MediaHeaderView {
                timescale: info.timescale,
                duration: info.duration,
                language: media::code_view(info.language),
            },
        ),
        Err(e) => Err(e@),
    }
}

/// Reads a media header.
pub fn parse_mdhd(mdhd: &[u8]) -> (r: Result<MdhdInfo, MediaParserError>)
    ensures
        mdhd_view(r) == mdhd_info(mdhd@),
{
    if mdhd.len() == 0 {
        return Err(MediaParserError::CorruptedData(0));
    }
    let version: u8 = mdhd[0];
    if version == 0 {
        let timescale: u32 = match read_u32_be(mdhd, 12) {
            Some(timescale) => timescale,
            None => {
                return Err(MediaParserError::CorruptedData(12));
            },
        };
        let duration: u64 = match read_u32_be(mdhd, 16) {
            Some(duration) => duration as u64,
            None => {
                return Err(MediaParserError::CorruptedData(16));
            },
        };
        let language: Option<[u8; 3]> = read_language(mdhd, 20);
        Ok(MdhdInfo { timescale, duration, language })
    } else if version == 1 {
        let timescale: u32 = match read_u32_be(mdhd, 20) {
            Some(timescale) => timescale,
            None => {
                return Err(MediaParserError::CorruptedData(20));
            },
        };
        let duration: u64 = match read_u64_be(mdhd, 24) {
            Some(duration) => duration,
            None => {
                return Err(MediaParserError::CorruptedData(24));
            },
        };
        let language: Option<[u8; 3]> = read_language(mdhd, 32);
        Ok(MdhdInfo { timescale, duration, language })
    } else {
        Err(
            MediaParserError::InvalidFormat(
                joined("unsupported mdhd version: ", decimal_text(version as u64).as_str()),
            ),
        )
    }
}

/// The kind of a track, by its handler.
#[derive(Debug, Clone, Copy, PartialEq, Eq, Structural)]
pub enum TrackKind {
    Video,
    Audio,
    Subtitle,
    Unknown,
}

/// The kind of track that a handler type stands for.
pub open spec fn kind_of(handler: Seq<u8>) -> TrackKind {
    if handler == Tag::Vide.code() {
        TrackKind::Video
    } else if handler == Tag::Soun.code() {
        TrackKind::Audio
    } else if handler == Tag::Sbtl.code() || handler == Tag::Subt.code() || handler
        == Tag::Text.code() || handler == Tag::Clcp.code() {
        TrackKind::Subtitle
    } else {
        TrackKind::Unknown
    }
}

/// Tells the kind of track that a handler type stands for.
pub fn classify_handler(handler: [u8; 4]) -> (r: TrackKind)
    ensures
        r == kind_of(handler@),
{
    if same_type(&handler, &Tag::Vide.bytes()) {
        TrackKind::Video
    } else if same_type(&handler, &Tag::Soun.bytes()) {
        TrackKind::Audio
    } else if same_type(&handler, &Tag::Sbtl.bytes()) || same_type(&handler, &Tag::Subt.bytes())
        || same_type(&handler, &Tag::Text.bytes()) || same_type(&handler, &Tag::Clcp.bytes()) {
        TrackKind::Subtitle
    } else {
        TrackKind::Unknown
    }
}

/// The text of a language code.
pub fn language_string(language: [u8; 3]) -> (r: String)
    ensures
        r@ == text::lossy_utf8(language@),
{
    utf8_lossy(&language)
}

// --------------------
// Sample descriptions
// --------------------

/// What the first sample description of a track tells.
#[derive(Debug, Clone)]
pub struct StsdInfo {
    pub codec: String,
    pub width: Option<u32>,
    pub height: Option<u32>,
    pub channels: Option<u16>,
    pub sample_rate: Option<u32>,
    pub entry_count: u32,
}

/// What a sample description tells.
pub struct StsdView {
    pub codec: Seq<char>,
    pub width: Option<u32>,
    pub height: Option<u32>,
    pub channels: Option<u16>,
    pub sample_rate: Option<u32>,
    pub entry_count: u32,
}

/// The 16-bit number at an offset, where there is one.
pub open spec fn half_at(data: Seq<u8>, at: int) -> Option<u16> {
    if at + 2 <= data.len() {
        Some(bytes::be16(data, at))
    } else {
        None
    }
}

/// The whole part of the 16.16 number at an offset, where there is one.
pub open spec fn rate_at(data: Seq<u8>, at: int) -> Option<u32> {
    if at + 4 <= data.len() {
        Some(bytes::be32(data, at) / 0x1_0000)
    } else {
        None
    }
}

/// An optional number, widened.
pub open spec fn widened(n: Option<u16>) -> Option<u32> {
    match n {
        Some(v) => Some(v as u32),
        None => None,
    }
}

/// What the first sample description of an `stsd` tells. The fields of video
/// and audio entries are read alike; the kind of the track tells which of
/// them mean something.
pub open spec fn stsd_info(stsd: Seq<u8>) -> Option<StsdView> {
    if stsd.len() < 8 {
        None
    } else {
        match read::first_box(stsd.skip(8)) {
            Some(entry) => Some(
                StsdView {
                    codec: text::lossy_utf8(entry.fourcc),
                    width: widened(half_at(entry.payload, 24)),
                    height: widened(half_at(entry.payload, 26)),
                    channels: half_at(entry.payload, 16),
                    sample_rate: rate_at(entry.payload, 24),
                    entry_count: bytes::be32(stsd, 4),
                },
            ),
            None => None,
        }
    }
}

impl View for StsdInfo {
    type V = StsdView;

    open spec fn view(&self) -> StsdView {
        StsdView {
            codec: self.codec@,
            width: self.width,
            height: self.height,
            channels: self.channels,
            sample_rate: self.sample_rate,
            entry_count: self.entry_count,
        }
    }
}

/// What an optional sample description tells.
pub open spec fn stsd_view(r: Option<StsdInfo>) -> Option<StsdView> {
    match r {
        Some(info) => Some(info@),
        None => None,
    }
}

fn wide(n: Option<u16>) -> (r: Option<u32>)
    ensures
        r == widened(n),
{
    match n {
        Some(v) => Some(v as u32),
        None => None,
    }
}

/// Reads the first sample description of an `stsd`.
pub fn parse_stsd(stsd: &[u8]) -> (r: Option<StsdInfo>)
    ensures
        stsd_view(r) == stsd_info(stsd@),
{
    let entry_count: u32 = match read_u32_be(stsd, 4) {
        Some(n) => n,
        None => {
            return None;
        },
    };
    let entry: BoxRead = match read_box(stsd, 8) {
        Some(entry) => entry,
        None => {
            return None;
        },
    };
    let payload: &[u8] = entry.payload;
    Some(
        StsdInfo {
            codec: fourcc_string(entry.fourcc),
            width: wide(read_u16_be(payload, 24)),
            height: wide(read_u16_be(payload, 26)),
            channels: read_u16_be(payload, 16),
            sample_rate: match read_u32_be(payload, 24) {
                Some(rate) => Some(rate / 0x1_0000),
                None => None,
            },
            entry_count,
        },
    )
}

// --------------------
// Sample tables
// --------------------

/// The durations of the single samples of an `stts`, where it has more than
/// one entry, all of them fit, and the samples are not too many.
pub open spec fn sample_durations(stts: Seq<u8>) -> Option<Seq<u32>> {
    if stts.len() < 8 || bytes::be32(stts, 4) <= 1 {
        None
    } else {
        match sample_timing::stts_runs(stts) {
            Some(pairs) => if runs::run_total(pairs) > MAX_EXPANDED_SAMPLE_TABLE {
                None
            } else {
                Some(runs::expand(pairs))
            },
            None => None,
        }
    }
}

/// Reads the durations of the single samples of an `stts`.
pub fn parse_sample_durations(stts: &[u8]) -> (r: Option<Vec<u32>>)
    ensures
        tables::vec_view(r) == sample_durations(stts@),
{
    match read_u32_be(stts, 4) {
        Some(n) => {
            if n <= 1 {
                return None;
            }
        },
        None => {
            return None;
        },
    }
    let pairs: Vec<(u32, u32)> = match sample_timing::parse_stts(stts) {
        Some(pairs) => pairs,
        None => {
            return None;
        },
    };
    let mut durations: Vec<u32> = Vec::new();
    let mut i: usize = 0;
    assert(pairs@.take(0) =~= Seq::<(u32, u32)>::empty());
    while i < pairs.len()
        invariant
            i <= pairs@.len(),
            stts@.len() >= 8,
            bytes::be32(stts@, 4) > 1,
            sample_timing::stts_runs(stts@) == Some(pairs@),
            durations@ == runs::expand(pairs@.take(i as int)),
            durations@.len() <= MAX_EXPANDED_SAMPLE_TABLE,
        decreases pairs@.len() - i,
    {
        let (count, delta): (u32, u32) = pairs[i];
        let ghost before = durations@;
        proof {
            assert(pairs@.take(i + 1).drop_last() =~= pairs@.take(i as int));
            runs::lemma_expand_len(pairs@.take(i + 1));
            runs::lemma_expand_len(pairs@.take(i as int));
            sample_timing::lemma_total_grows(pairs@, i + 1);
        }
        if count > MAX_EXPANDED_SAMPLE_TABLE - durations.len() as u32 {
            return None;
        }
        let mut k: u32 = 0;
        while k < count
            invariant
                k <= count,
                durations@ == before + Seq::new(k as nat, |m: int| delta),
            decreases count - k,
        {
            durations.push(delta);
            k = k + 1;
            assert(durations@ =~= before + Seq::new(k as nat, |m: int| delta));
        }
        i = i + 1;
    }
    proof {
        assert(pairs@.take(i as int) =~= pairs@);
        runs::lemma_expand_len(pairs@);
    }
    Some(durations)
}

/// The sizes of the single samples of an `stsz`, where they differ, all of
/// them fit, and the samples are not too many.
pub open spec fn sample_sizes(stsz: Seq<u8>) -> Option<Seq<u32>> {
    if stsz.len() < 12 || bytes::be32(stsz, 4) != 0 || bytes::be32(stsz, 8)
        > MAX_EXPANDED_SAMPLE_TABLE || 12 + 4 * bytes::be32(stsz, 8) > stsz.len() {
        None
    } else {
        Some(Seq::new(bytes::be32(stsz, 8) as nat, |i: int| bytes::be32(stsz, 12 + 4 * i)))
    }
}

/// Reads the sizes of the single samples of an `stsz`.
pub fn parse_sample_sizes(stsz: &[u8]) -> (r: Option<Vec<u32>>)
    ensures
        tables::vec_view(r) == sample_sizes(stsz@),
{
    let (fixed, count): (u32, u32) = match (read_u32_be(stsz, 4), read_u32_be(stsz, 8)) {
        (Some(fixed), Some(count)) => (fixed, count),
        _ => {
            return None;
        },
    };
    if fixed != 0 || count > MAX_EXPANDED_SAMPLE_TABLE {
        return None;
    }
    let count: usize = count as usize;
    if 12 + 4 * count > stsz.len() {
        return None;
    }
    let ghost all = sample_sizes(stsz@)->0;
    let mut sizes: Vec<u32> = Vec::new();
    let mut i: usize = 0;
    while i < count
        invariant
            i <= count,
            count <= MAX_EXPANDED_SAMPLE_TABLE,
            12 + 4 * count <= stsz@.len(),
            all.len() == count,
            sizes@ == all.take(i as int),
            forall|k: int| 0 <= k < count ==> all[k] == #[trigger] bytes::be32(stsz@, 12 + 4 * k),
        decreases count - i,
    {
        match read_u32_be(stsz, 12 + 4 * i) {
            Some(size) => {
                sizes.push(size);
                assert(all[i as int] == bytes::be32(stsz@, 12 + 4 * i));
                assert(all.take(i + 1) =~= all.take(i as int).push(all[i as int]));
            },
            None => {
                return None;
            },
        }
        i = i + 1;
    }
    assert(all.take(i as int) =~= all);
    Some(sizes)
}

/// The greatest common divisor of two numbers.
pub open spec fn common_divisor(a: nat, b: nat) -> nat
    decreases b,
{
    if b == 0 {
        a
    } else {
        common_divisor(b, a % b)
    }
}

/// The greatest common divisor divides both numbers.
pub(crate) proof fn lemma_common_divisor(a: nat, b: nat)
    requires
        a > 0 || b > 0,
    ensures
        common_divisor(a, b) > 0,
        a % common_divisor(a, b) == 0,
        b % common_divisor(a, b) == 0,
    decreases b,
{
    if b > 0 {
        lemma_common_divisor(b, a % b);
        let g = common_divisor(b, a % b);
        let r = (a % b) as int;
        vstd::arithmetic::div_mod::lemma_fundamental_div_mod(a as int, b as int);
        vstd::arithmetic::div_mod::lemma_fundamental_div_mod(b as int, g as int);
        vstd::arithmetic::div_mod::lemma_fundamental_div_mod(r, g as int);
        let q = a as int / b as int;
        let m = b as int / g as int;
        let n = r / g as int;
        assert(a as int == g * (m * q + n)) by (nonlinear_arith)
            requires
                a as int == b * q + r,
                b as int == g * m,
                r == g * n,
        ;
        vstd::arithmetic::div_mod::lemma_mod_multiples_basic(m * q + n, g as int);
        assert((m * q + n) * (g as int) == g * (m * q + n)) by (nonlinear_arith);
    } else {
        vstd::arithmetic::div_mod::lemma_mod_self_0(a as int);
    }
}

fn divisor_of(a: u32, b: u32) -> (r: u32)
    ensures
        r == common_divisor(a as nat, b as nat),
    decreases b,
{
    if b == 0 {
        a
    } else {
        divisor_of(b, a % b)
    }
}

/// The frames per second of a track as a reduced fraction, where all its
/// samples last equally long.
pub open spec fn frame_rate_of(timescale: u32, stts: Seq<u8>) -> Option<Seq<char>> {
    match sample_timing::stts_runs(stts) {
        Some(pairs) => if pairs.len() != 1 || pairs[0].1 == 0 {
            None
        } else {
            let g = common_divisor(timescale as nat, pairs[0].1 as nat);
            Some(
                text::decimal(timescale as nat / g) + seq!['/'] + text::decimal(
                    pairs[0].1 as nat / g,
                ),
            )
        },
        None => None,
    }
}

/// The frames per second of a track, see `frame_rate_of`.
fn frame_rate(timescale: u32, stts: &[u8]) -> (r: Option<String>)
    ensures
        text::text_view(r) == frame_rate_of(timescale, stts@),
{
    let pairs: Vec<(u32, u32)> = match sample_timing::parse_stts(stts) {
        Some(pairs) => pairs,
        None => {
            return None;
        },
    };
    if pairs.len() != 1 || pairs[0].1 == 0 {
        return None;
    }
    let delta: u32 = pairs[0].1;
    proof {
        lemma_common_divisor(timescale as nat, delta as nat);
    }
    let g: u32 = divisor_of(timescale, delta);
    let mut out: String = decimal_text((timescale / g) as u64);
    out.push('/');
    let rate: String = joined(out.as_str(), decimal_text((delta / g) as u64).as_str());
    assert(rate@ =~= frame_rate_of(timescale, stts@)->0);
    Some(rate)
}

/// The reduced fraction of two numbers has their ratio.
pub proof fn law_reduced_rate_keeps_the_ratio(timescale: u32, delta: u32)
    requires
        delta > 0,
    ensures
        ({
            let g = common_divisor(timescale as nat, delta as nat);
            g > 0 && (timescale as nat / g) * delta as nat == (delta as nat / g) * timescale as nat
        }),
{
    let t = timescale as int;
    let d = delta as int;
    lemma_common_divisor(timescale as nat, delta as nat);
    let g = common_divisor(timescale as nat, delta as nat) as int;
    vstd::arithmetic::div_mod::lemma_fundamental_div_mod(t, g);
    vstd::arithmetic::div_mod::lemma_fundamental_div_mod(d, g);
    let a = t / g;
    let b = d / g;
    assert(a * d == b * t) by (nonlinear_arith)
        requires
            t == g * a,
            d == g * b,
    ;
}

// --------------------
// Tracks
// --------------------

/// What all tracks have.
#[derive(Debug, Clone)]
pub struct BaseTrackMeta {
    pub id: u32,
    pub codec: String,
    pub language: Option<String>,
    pub timescale: u32,
    pub duration: u64,
    /// Named values, each name once.
    pub properties: Vec<(String, String)>,
}

/// A video track.
#[derive(Debug, Clone)]
pub struct VideoTrackMeta {
    pub base: BaseTrackMeta,
    pub width: u32,
    pub height: u32,
    pub frame_rate: Option<String>,
    pub sample_durations: Option<Vec<u32>>,
}

/// An audio track.
#[derive(Debug, Clone)]
pub struct AudioTrackMeta {
    pub base: BaseTrackMeta,
    pub channels: u16,
    pub sample_rate: u32,
    pub sample_sizes: Option<Vec<u32>>,
}

/// A subtitle track.
#[derive(Debug, Clone)]
pub struct SubtitleTrackMeta {
    pub base: BaseTrackMeta,
}

/// A track of another kind.
#[derive(Debug, Clone)]
pub struct UnknownTrackMeta {
    pub base: BaseTrackMeta,
}

/// A track of a movie.
#[derive(Debug, Clone)]
pub enum TrackType {
    Video(VideoTrackMeta),
    Audio(AudioTrackMeta),
    Subtitle(SubtitleTrackMeta),
    Unknown(UnknownTrackMeta),
}

/// What all tracks have, as it is.
pub struct BaseView {
    pub id: u32,
    pub codec: Seq<char>,
    pub language: Option<Seq<char>>,
    pub timescale: u32,
    pub duration: u64,
    pub properties: Seq<(Seq<char>, Seq<char>)>,
}

/// What a track is.
pub enum TrackView {
    Video {
        base: BaseView,
        width: u32,
        height: u32,
        frame_rate: Option<Seq<char>>,
        sample_durations: Option<Seq<u32>>,
    },
    Audio { base: BaseView, channels: u16, sample_rate: u32, sample_sizes: Option<Seq<u32>> },
    Subtitle { base: BaseView },
    Unknown { base: BaseView },
}

/// What named values are.
pub open spec fn properties_view(list: Seq<(String, String)>) -> Seq<(Seq<char>, Seq<char>)> {
    Seq::new(list.len(), |i: int| (list[i].0@, list[i].1@))
}

impl View for BaseTrackMeta {
    type V = BaseView;

    open spec fn view(&self) -> BaseView {
        BaseView {
            id: self.id,
            codec: self.codec@,
            language: text::text_view(self.language),
            timescale: self.timescale,
            duration: self.duration,
            properties: properties_view(self.properties@),
        }
    }
}

impl View for TrackType {
    type V = TrackView;

    open spec fn view(&self) -> TrackView {
        match self {
            TrackType::Video(t) => TrackView::Video {
                base: t.base@,
                width: t.width,
                height: t.height,
                frame_rate: text::text_view(t.frame_rate),
                sample_durations: tables::vec_view(t.sample_durations),
            },
            TrackType::Audio(t) => TrackView::Audio {
                base: t.base@,
                channels: t.channels,
                sample_rate: t.sample_rate,
                sample_sizes: tables::vec_view(t.sample_sizes),
            },
            TrackType::Subtitle(t) => TrackView::Subtitle { base: t.base@ },
            TrackType::Unknown(t) => TrackView::Unknown { base: t.base@ },
        }
    }
}

/// A named number, where there is one.
pub open spec fn named(name: Seq<char>, value: Option<int>) -> Seq<(Seq<char>, Seq<char>)> {
    match value {
        Some(n) => seq![(name, text::decimal(n as nat))],
        None => Seq::empty(),
    }
}

/// The 32-bit number at an offset, where there is one.
pub open spec fn word_at(data: Option<Seq<u8>>, at: int) -> Option<int> {
    match data {
        Some(d) => if at + 4 <= d.len() {
            Some(bytes::be32(d, at) as int)
        } else {
            None
        },
        None => None,
    }
}

/// The samples that an `stts` that may be absent counts.
pub open spec fn samples_in(stts: Option<Seq<u8>>) -> Option<int> {
    match stts {
        Some(d) => match sample_timing::stts_samples(d) {
            Some(n) => Some(n as int),
            None => None,
        },
        None => None,
    }
}

/// The named values that the sample tables of a track give.
pub open spec fn table_properties(stbl: Option<Seq<u8>>) -> Seq<(Seq<char>, Seq<char>)> {
    let stts = read::child_in(stbl, Mp4Box::Stts.fourcc());
    let stsz = read::child_in(stbl, Mp4Box::Stsz.fourcc());
    named("stts_entry_count"@, word_at(stts, 4)) + named("sample_count"@, samples_in(stts)) + named(
        "fixed_sample_size"@,
        word_at(stsz, 4),
    ) + named("stsz_sample_count"@, word_at(stsz, 8))
}

fn push_named(properties: &mut Vec<(String, String)>, name: &str, value: Option<u32>)
    ensures
        properties_view(final(properties)@) == properties_view(old(properties)@) + named(
            name@,
            match value {
                Some(n) => Some(n as int),
                None => None,
            },
        ),
{
    let ghost before = properties_view(properties@);
    if let Some(n) = value {
        let digits: String = decimal_text(n as u64);
        let ghost added = (name@, digits@);
        properties.push((name.to_owned(), digits));
        assert(properties_view(properties@) =~= before.push(added));
        assert(before.push(added) =~= before + seq![added]);
    } else {
        assert(before =~= before + Seq::<(Seq<char>, Seq<char>)>::empty());
    }
}

fn word_in(data: Option<&[u8]>, at: usize) -> (r: Option<u32>)
    ensures
        match r {
            Some(n) => word_at(boxes::slice_view(data), at as int) == Some(n as int),
            None => word_at(boxes::slice_view(data), at as int) is None,
        },
{
    match data {
        Some(d) => read_u32_be(d, at),
        None => None,
    }
}

/// Adds the named values that the sample tables of a track give.
pub fn add_sample_table_properties(stbl: Option<&[u8]>, properties: &mut Vec<(String, String)>)
    ensures
        properties_view(final(properties)@) == properties_view(old(properties)@)
            + table_properties(boxes::slice_view(stbl)),
{
    let ghost before = properties_view(properties@);
    let stts: Option<&[u8]> = find_in_ref(stbl, &Mp4Box::Stts.bytes());
    push_named(properties, "stts_entry_count", word_in(stts, 4));
    let samples: Option<u32> = match stts {
        Some(stts) => stts_sample_count(stts),
        None => None,
    };
    push_named(properties, "sample_count", samples);
    let stsz: Option<&[u8]> = find_in_ref(stbl, &Mp4Box::Stsz.bytes());
    push_named(properties, "fixed_sample_size", word_in(stsz, 4));
    push_named(properties, "stsz_sample_count", word_in(stsz, 8));
    assert(properties_view(properties@) =~= before + table_properties(boxes::slice_view(stbl)));
}

/// The handler type of a track, four spaces where it tells none.
pub open spec fn handler_or_blank(mdia: Seq<u8>) -> Seq<u8> {
    match read::child(mdia, Mp4Box::Hdlr.fourcc()) {
        Some(hdlr) => match media::handler_type(hdlr) {
            Some(h) => h,
            None => seq![0x20u8, 0x20, 0x20, 0x20],
        },
        None => seq![0x20u8, 0x20, 0x20, 0x20],
    }
}

/// What the sample description of a track tells, where it has one.
pub open spec fn stsd_of(stbl: Option<Seq<u8>>) -> Option<StsdView> {
    match read::child_in(stbl, Mp4Box::Stsd.fourcc()) {
        Some(stsd) => stsd_info(stsd),
        None => None,
    }
}

/// What the parts of a track say in common.
pub open spec fn base_of(
    header: TkhdInfo,
    mdhd: media::MediaHeaderView,
    handler: Seq<u8>,
    stbl: Option<Seq<u8>>,
) -> BaseView {
    let stsd = stsd_of(stbl);
    BaseView {
        id: header.id,
        codec: match stsd {
            Some(s) => s.codec,
            None => "unknown"@,
        },
        language: match mdhd.language {
            Some(code) => Some(text::lossy_utf8(code)),
            None => None,
        },
        timescale: mdhd.timescale,
        duration: mdhd.duration,
        properties: seq![
            ("handler_type"@, text::lossy_utf8(handler)),
            ("tkhd_duration"@, text::decimal(header.duration as nat)),
        ] + named(
            "sample_entry_count"@,
            match stsd {
                Some(s) => Some(s.entry_count as int),
                None => None,
            },
        ) + table_properties(stbl),
    }
}

/// A number or a substitute.
pub open spec fn or_else<T>(value: Option<T>, otherwise: T) -> T {
    match value {
        Some(v) => v,
        None => otherwise,
    }
}

/// The track in a `trak` payload, or the first reason why there is none.
pub open spec fn track_of(trak: Seq<u8>) -> Result<TrackView, errors::ErrorView> {
    match read::child(trak, Mp4Box::Tkhd.fourcc()) {
        None => Err(errors::ErrorView::InvalidFormat("trak missing tkhd box"@)),
        Some(tkhd) => match tkhd_info(tkhd) {
            Err(e) => Err(e),
            Ok(header) => match read::child(trak, Mp4Box::Mdia.fourcc()) {
                None => Err(errors::ErrorView::InvalidFormat("trak missing mdia box"@)),
                Some(mdia) => match read::child(mdia, Mp4Box::Mdhd.fourcc()) {
                    None => Err(errors::ErrorView::InvalidFormat("trak missing mdhd box"@)),
                    Some(mdhd) => match mdhd_info(mdhd) {
                        Err(e) => Err(e),
                        Ok(media_header) => Ok(track_from(header, media_header, mdia)),
                    },
                },
            },
        },
    }
}

/// The track that headers and the media of a track make.
pub open spec fn track_from(
    header: TkhdInfo,
    mdhd: media::MediaHeaderView,
    mdia: Seq<u8>,
) -> TrackView {
    let handler = handler_or_blank(mdia);
    let stbl = read::child_in(
        read::child(mdia, Mp4Box::Minf.fourcc()),
        Mp4Box::Stbl.fourcc(),
    );
    let base = base_of(header, mdhd, handler, stbl);
    let stsd = stsd_of(stbl);
    let stts = read::child_in(stbl, Mp4Box::Stts.fourcc());
    let stsz = read::child_in(stbl, Mp4Box::Stsz.fourcc());
    match kind_of(handler) {
        TrackKind::Video => TrackView::Video {
            base,
            width: match stsd {
                Some(s) => or_else(s.width, header.width),
                None => header.width,
            },
            height: match stsd {
                Some(s) => or_else(s.height, header.height),
                None => header.height,
            },
            frame_rate: match stts {
                Some(d) => frame_rate_of(mdhd.timescale, d),
                None => None,
            },
            sample_durations: match stts {
                Some(d) => sample_durations(d),
                None => None,
            },
        },
        TrackKind::Audio => TrackView::Audio {
            base,
            channels: match stsd {
                Some(s) => or_else(s.channels, 0),
                None => 0,
            },
            sample_rate: match stsd {
                Some(s) => or_else(s.sample_rate, 0),
                None => 0,
            },
            sample_sizes: match stsz {
                Some(d) => sample_sizes(d),
                None => None,
            },
        },
        TrackKind::Subtitle => TrackView::Subtitle { base },
        TrackKind::Unknown => TrackView::Unknown { base },
    }
}

/// What a parse of a track gives.
pub open spec fn track_view(r: Result<TrackType, MediaParserError>) -> Result<
    TrackView,
    errors::ErrorView,
> {
    match r {
        Ok(t) => Ok(t@),
        Err(e) => Err(e@),
    }
}

/// The common part of a track.
fn base_meta(
    header: TkhdInfo,
    mdhd: &MdhdInfo,
    handler: [u8; 4],
    stsd: &Option<StsdInfo>,
    stbl: Option<&[u8]>,
) -> (r: BaseTrackMeta)
    requires
        stsd_view(*stsd) == stsd_of(boxes::slice_view(stbl)),
    ensures
        r@ == base_of(
            header,
            media::MediaHeaderView {
                timescale: mdhd.timescale,
                duration: mdhd.duration,
                language: media::code_view(mdhd.language),
            },
            handler@,
            boxes::slice_view(stbl),
        ),
{
    let mut properties: Vec<(String, String)> = Vec::new();
    let handler_text: String = fourcc_string(handler);
    let duration_text: String = decimal_text(header.duration);
    let ghost first = ("handler_type"@, handler_text@);
    let ghost second = ("tkhd_duration"@, duration_text@);
    properties.push(("handler_type".to_owned(), handler_text));
    properties.push(("tkhd_duration".to_owned(), duration_text));
    assert(properties_view(properties@) =~= seq![first, second]);
    let entries: Option<u32> = match stsd {
        Some(s) => Some(s.entry_count),
        None => None,
    };
    push_named(&mut properties, "sample_entry_count", entries);
    add_sample_table_properties(stbl, &mut properties);
    BaseTrackMeta {
        id: header.id,
        codec: match stsd {
            Some(s) => s.codec.as_str().to_owned(),
            None => "unknown".to_owned(),
        },
        language: match mdhd.language {
            Some(code) => Some(language_string(code)),
            None => None,
        },
        timescale: mdhd.timescale,
        duration: mdhd.duration,
        properties,
    }
}

/// Reads the track in a `trak` payload.
pub fn parse_trak(trak: &[u8]) -> (r: Result<TrackType, MediaParserError>)
    ensures
        track_view(r) == track_of(trak@),
{
    let header: TkhdInfo = match find_box_ref(trak, &Mp4Box::Tkhd.bytes()) {
        Some(tkhd) => match parse_tkhd(tkhd) {
            Ok(header) => header,
            Err(e) => {
                return Err(e);
            },
        },
        None => {
            return Err(MediaParserError::invalid("trak missing tkhd box"));
        },
    };
    let mdia: &[u8] = match find_box_ref(trak, &Mp4Box::Mdia.bytes()) {
        Some(mdia) => mdia,
        None => {
            return Err(MediaParserError::invalid("trak missing mdia box"));
        },
    };
    let mdhd: MdhdInfo = match find_box_ref(mdia, &Mp4Box::Mdhd.bytes()) {
        Some(mdhd) => match parse_mdhd(mdhd) {
            Ok(mdhd) => mdhd,
            Err(e) => {
                return Err(e);
            },
        },
        None => {
            return Err(MediaParserError::invalid("trak missing mdhd box"));
        },
    };
    let blank: [u8; 4] = [0x20, 0x20, 0x20, 0x20];
    assert(blank@ =~= seq![0x20u8, 0x20, 0x20, 0x20]);
    let handler: [u8; 4] = match find_box_ref(mdia, &Mp4Box::Hdlr.bytes()) {
        Some(hdlr) => match parse_hdlr(hdlr) {
            Some(handler) => handler,
            None => blank,
        },
        None => blank,
    };
    let stbl: Option<&[u8]> = find_in_ref(
        find_box_ref(mdia, &Mp4Box::Minf.bytes()),
        &Mp4Box::Stbl.bytes(),
    );
    let stsd: Option<StsdInfo> = match find_in_ref(stbl, &Mp4Box::Stsd.bytes()) {
        Some(stsd) => parse_stsd(stsd),
        None => None,
    };
    let stts: Option<&[u8]> = find_in_ref(stbl, &Mp4Box::Stts.bytes());
    let stsz: Option<&[u8]> = find_in_ref(stbl, &Mp4Box::Stsz.bytes());
    let base: BaseTrackMeta = base_meta(header, &mdhd, handler, &stsd, stbl);
    match classify_handler(handler) {
        TrackKind::Video => {
            let (width, height): (Option<u32>, Option<u32>) = match &stsd {
                Some(s) => (s.width, s.height),
                None => (None, None),
            };
            Ok(
                TrackType::Video(
                    VideoTrackMeta {
                        base,
                        width: match width {
                            Some(w) => w,
                            None => header.width,
                        },
                        height: match height {
                            Some(h) => h,
                            None => header.height,
                        },
                        frame_rate: match stts {
                            Some(stts) => frame_rate(mdhd.timescale, stts),
                            None => None,
                        },
                        sample_durations: match stts {
                            Some(stts) => parse_sample_durations(stts),
                            None => None,
                        },
                    },
                ),
            )
        },
        TrackKind::Audio => {
            let (channels, sample_rate): (Option<u16>, Option<u32>) = match &stsd {
                Some(s) => (s.channels, s.sample_rate),
                None => (None, None),
            };
            Ok(
                TrackType::Audio(
                    AudioTrackMeta {
                        base,
                        channels: match channels {
                            Some(n) => n,
                            None => 0,
                        },
                        sample_rate: match sample_rate {
                            Some(n) => n,
                            None => 0,
                        },
                        sample_sizes: match stsz {
                            Some(stsz) => parse_sample_sizes(stsz),
                            None => None,
                        },
                    },
                ),
            )
        },
        TrackKind::Subtitle => Ok(TrackType::Subtitle(SubtitleTrackMeta { base })),
        TrackKind::Unknown => Ok(TrackType::Unknown(UnknownTrackMeta { base })),
    }
}

/// The tracks of the first `n` boxes of a list, or the first reason why they
/// cannot be read.
pub open spec fn tracks_of(list: Seq<(Seq<u8>, Seq<u8>)>, n: int) -> Result<
    Seq<TrackView>,
    errors::ErrorView,
>
    decreases n,
{
    if n <= 0 {
        Ok(Seq::empty())
    } else {
        match tracks_of(list, n - 1) {
            Ok(found) => if list[n - 1].0 == Mp4Box::Trak.fourcc() {
                match track_of(list[n - 1].1) {
                    Ok(t) => Ok(found.push(t)),
                    Err(e) => Err(e),
                }
            } else {
                Ok(found)
            },
            Err(e) => Err(e),
        }
    }
}

proof fn lemma_tracks_fail(list: Seq<(Seq<u8>, Seq<u8>)>, k: int, n: int)
    requires
        0 <= k <= n,
        tracks_of(list, k) is Err,
    ensures
        tracks_of(list, n) == tracks_of(list, k),
    decreases n,
{
    if k < n {
        lemma_tracks_fail(list, k, n - 1);
    }
}

/// Reads all the tracks of a movie from its `moov` box.
pub fn tracks_from_moov(moov: &[u8]) -> (r: Result<Vec<TrackType>, MediaParserError>)
    ensures
        ({
            let list = read::boxes_in(request::moov_body(moov@));
            match tracks_of(list, list.len() as int) {
                Ok(found) => r matches Ok(tracks) && tracks@.len() == found.len() && forall|k: int|
                    0 <= k < found.len() ==> (#[trigger] tracks@[k])@ == found[k],
                Err(error) => r matches Err(e) && e@ == error,
            }
        }),
{
    let payload: &[u8] = parse_moov_payload(moov);
    let ghost list = read::boxes_in(payload@);
    let ghost mut seen = 0int;
    let mut tracks: Vec<TrackType> = Vec::new();
    let mut it: BoxIter = iter_boxes(payload);
    assert(list.skip(0) =~= list);
    loop
        invariant
            list == read::boxes_in(request::moov_body(moov@)),
            0 <= seen <= list.len(),
            it@ == list.skip(seen),
            match tracks_of(list, seen) {
                Ok(found) => tracks@.len() == found.len() && forall|k: int|
                    0 <= k < found.len() ==> (#[trigger] tracks@[k])@ == found[k],
                Err(_) => false,
            },
        decreases it@.len(),
    {
        let ghost before = tracks@;
        match it.next() {
            Some((fourcc, trak)) => {
                proof {
                    assert(list.skip(seen)[0] == list[seen]);
                    assert(list.skip(seen).skip(1) =~= list.skip(seen + 1));
                }
                if same_type(&fourcc, &Mp4Box::Trak.bytes()) {
                    match parse_trak(trak) {
                        Ok(track) => {
                            tracks.push(track);
                            proof {
                                let found = tracks_of(list, seen + 1)->Ok_0;
                                assert forall|k: int| 0 <= k < found.len() implies (
                                #[trigger] tracks@[k])@ == found[k] by {
                                    if k < before.len() {
                                        assert(before[k]@ == found[k]);
                                    }
                                }
                            }
                        },
                        Err(e) => {
                            proof {
                                lemma_tracks_fail(list, seen + 1, list.len() as int);
                            }
                            return Err(e);
                        },
                    }
                }
                proof {
                    seen = seen + 1;
                }
            },
            None => {
                assert(seen == list.len());
                return Ok(tracks);
            },
        }
    }
}

} // verus!
