//! Requests for tracks and thumbnails: what callers may ask for, and how it is
//! told to them.

use std::collections::HashMap;
use vstd::prelude::*;
use crate::decoders::h264;
use crate::decoders::h264::{JpegQuality, ThumbnailSize};
use crate::errors;
use crate::errors::MediaParserError;
use crate::format::mp4::thumbnails::{ThumbnailOptions, MAX_THUMBNAIL_OUTPUTS};
use crate::format::mp4::tracks;
use crate::format::mp4::tracks::{BaseTrackMeta, TrackType};
use crate::source;
use crate::source::{key_headers, LocalSourceVersion};
use crate::stream;
use crate::text;
use crate::text::{decimal_text, joined};
use crate::time::Duration;

verus! {

/// The number of thumbnail sessions that are kept.
pub const MAX_THUMBNAIL_SESSIONS: usize = 8;

/// The bytes that the thumbnails of one request may take.
pub const MAX_THUMBNAIL_OUTPUT_BYTES: usize = 268435456;

/// The largest side of a thumbnail.
pub const MAX_THUMBNAIL_SIDE: u32 = 65535;

// --------------------
// Options
// --------------------

/// The bounds of a thumbnail: those asked for, where a side that was left out
/// is not bounded, or the default where both were.
pub open spec fn wanted_bounds(max_width: Option<u32>, max_height: Option<u32>) -> (u32, u32) {
    match (max_width, max_height) {
        (None, None) => (h264::DEFAULT_THUMBNAIL_BOUND, h264::DEFAULT_THUMBNAIL_BOUND),
        (Some(w), None) => (w, MAX_THUMBNAIL_SIDE),
        (None, Some(h)) => (MAX_THUMBNAIL_SIDE, h),
        (Some(w), Some(h)) => (w, h),
    }
}

/// The options of a thumbnail request. The quality must be within the range of
/// the encoder, and the sides must be positive and fit in a JPEG image.
pub fn thumbnail_options(quality: Option<u8>, max_width: Option<u32>, max_height: Option<u32>) -> (r:
    Result<ThumbnailOptions, MediaParserError>)
    ensures
        if quality matches Some(q) && !(1 <= q <= 100) {
            r matches Err(e) && e@ == errors::ErrorView::Other(
                "thumbnail quality must be between 1 and 100, got "@ + text::decimal(
                    quality->Some_0 as nat,
                ),
            )
        } else if !(0 < wanted_bounds(max_width, max_height).0 <= MAX_THUMBNAIL_SIDE && 0
            < wanted_bounds(max_width, max_height).1 <= MAX_THUMBNAIL_SIDE) {
            r matches Err(e) && e@ == errors::ErrorView::Other(
                "thumbnail dimensions must be integers between 1 and 65535"@,
            )
        } else {
            r matches Ok(options) && options.quality.value() == (match quality {
                Some(q) => q,
                None => h264::DEFAULT_JPEG_QUALITY,
            }) && (options.size.width(), options.size.height()) == wanted_bounds(
                max_width,
                max_height,
            ) && options.max_output_bytes == Some(MAX_THUMBNAIL_OUTPUT_BYTES)
        },
{
    let quality: JpegQuality = match quality {
        Some(q) => match JpegQuality::new(q) {
            Some(quality) => quality,
            None => {
                return Err(
                    MediaParserError::Other(
                        joined(
                            "thumbnail quality must be between 1 and 100, got ",
                            decimal_text(q as u64).as_str(),
                        ),
                    ),
                );
            },
        },
        None => JpegQuality::default(),
    };
    let wanted: Option<ThumbnailSize> = match (max_width, max_height) {
        (None, None) => Some(ThumbnailSize::default()),
        (Some(w), None) => ThumbnailSize::new(w, MAX_THUMBNAIL_SIDE),
        (None, Some(h)) => ThumbnailSize::new(MAX_THUMBNAIL_SIDE, h),
        (Some(w), Some(h)) => ThumbnailSize::new(w, h),
    };
    match wanted {
        Some(size) => Ok(
            ThumbnailOptions { quality, size, max_output_bytes: Some(MAX_THUMBNAIL_OUTPUT_BYTES) },
        ),
        None => Err(
            MediaParserError::other("thumbnail dimensions must be integers between 1 and 65535"),
        ),
    }
}

/// The error of a thumbnail request on a platform that has no decoder.
pub fn unsupported_thumbnail_error() -> (r: MediaParserError)
    ensures
        r@ == errors::ErrorView::Other(
            "thumbnail extraction is not supported on this platform"@,
        ),
{
    MediaParserError::other("thumbnail extraction is not supported on this platform")
}

// --------------------
// Times
// --------------------

/// Times in milliseconds as times.
pub fn thumbnail_durations(timestamps_ms: &[u64]) -> (r: Vec<Duration>)
    ensures
        r@.len() == timestamps_ms@.len(),
        forall|i: int|
            0 <= i < r@.len() ==> (#[trigger] r@[i]).nanos() == timestamps_ms@[i] * 1_000_000,
{
    let mut out: Vec<Duration> = Vec::new();
    let mut i: usize = 0;
    while i < timestamps_ms.len()
        invariant
            i <= timestamps_ms@.len(),
            out@.len() == i,
            forall|k: int|
                0 <= k < i ==> (#[trigger] out@[k]).nanos() == timestamps_ms@[k] * 1_000_000,
        decreases timestamps_ms@.len() - i,
    {
        out.push(Duration::from_millis(timestamps_ms[i]));
        i = i + 1;
    }
    out
}

/// The values of a list in the order in which they come first.
pub open spec fn first_seen(list: Seq<u64>) -> Seq<u64>
    decreases list.len(),
{
    if list.len() == 0 {
        Seq::empty()
    } else {
        let before = first_seen(list.drop_last());
        if before.contains(list.last()) {
            before
        } else {
            before.push(list.last())
        }
    }
}

/// No value comes twice among those seen first, and every value of the list
/// comes.
pub proof fn law_first_seen_holds_each_value_once(list: Seq<u64>)
    ensures
        first_seen(list).no_duplicates(),
        forall|v: u64| first_seen(list).contains(v) == #[trigger] list.contains(v),
    decreases list.len(),
{
    if list.len() > 0 {
        let before = first_seen(list.drop_last());
        let after = first_seen(list);
        law_first_seen_holds_each_value_once(list.drop_last());
        assert forall|v: u64| after.contains(v) == #[trigger] list.contains(v) by {
            assert(before.contains(v) == list.drop_last().contains(v));
            if list.contains(v) {
                let i = choose|i: int| 0 <= i < list.len() && list[i] == v;
                if i < list.len() - 1 {
                    assert(list.drop_last()[i] == v);
                    let j = choose|j: int| 0 <= j < before.len() && before[j] == v;
                    assert(after[j] == v);
                } else if !before.contains(list.last()) {
                    assert(after[before.len() as int] == v);
                }
            }
            if after.contains(v) {
                let j = choose|j: int| 0 <= j < after.len() && after[j] == v;
                if j < before.len() {
                    assert(before[j] == v);
                    let i = choose|i: int|
                        0 <= i < list.drop_last().len() && list.drop_last()[i] == v;
                    assert(list[i] == v);
                } else {
                    assert(list[list.len() - 1] == v);
                }
            }
        }
    }
}

/// The times of a thumbnail request, each once and in the order in which they
/// come first, and for each output the index of its time. The number of outputs
/// is bounded, whether or not times come twice.
pub fn prepare_thumbnail_timestamps(timestamps_ms: &[u64]) -> (r: Result<
    (Vec<Duration>, Vec<usize>),
    MediaParserError,
>)
    ensures
        if timestamps_ms@.len() > MAX_THUMBNAIL_OUTPUTS {
            r matches Err(e) && e@ == errors::ErrorView::Other(
                "too many thumbnail timestamps: "@ + text::decimal(timestamps_ms@.len()),
            )
        } else {
            let unique = first_seen(timestamps_ms@);
            r matches Ok((times, order)) && times@.len() == unique.len() && (forall|i: int|
                0 <= i < unique.len() ==> (#[trigger] times@[i]).nanos() == unique[i] * 1_000_000)
                && order@.len() == timestamps_ms@.len() && forall|i: int|
                0 <= i < order@.len() ==> #[trigger] order@[i] < unique.len()
                    && unique[order@[i] as int] == timestamps_ms@[i]
        },
{
    broadcast use vstd::std_specs::hash::group_hash_axioms;

    let count: usize = timestamps_ms.len();
    if count > MAX_THUMBNAIL_OUTPUTS {
        return Err(
            MediaParserError::Other(
                joined("too many thumbnail timestamps: ", decimal_text(count as u64).as_str()),
            ),
        );
    }
    let ghost all = timestamps_ms@;
    let mut unique: Vec<u64> = Vec::new();
    let mut index_by_time: HashMap<u64, usize> = HashMap::new();
    let mut order: Vec<usize> = Vec::new();
    let mut i: usize = 0;
    assert(all.take(0) =~= Seq::empty());
    assert(unique@ =~= Seq::empty());
    while i < count
        invariant
            i <= count,
            count == all.len(),
            all == timestamps_ms@,
            unique@ == first_seen(all.take(i as int)),
            unique@.len() <= i,
            forall|t: u64| #[trigger] index_by_time@.contains_key(t) == unique@.contains(t),
            forall|t: u64| #[trigger]
                index_by_time@.contains_key(t) ==> index_by_time@[t] < unique@.len()
                    && unique@[index_by_time@[t] as int] == t,
            order@.len() == i,
            forall|k: int|
                0 <= k < i ==> #[trigger] order@[k] < unique@.len() && unique@[order@[k] as int]
                    == all[k],
        decreases count - i,
    {
        broadcast use vstd::std_specs::hash::group_hash_axioms;

        let time: u64 = timestamps_ms[i];
        let next: usize = unique.len();
        let ghost before = unique@;
        proof {
            assert(all.take(i + 1).drop_last() =~= all.take(i as int));
            assert(all.take(i + 1).last() == time);
        }
        let known: Option<usize> = match index_by_time.get(&time) {
            Some(index) => Some(*index),
            None => None,
        };
        match known {
            Some(index) => {
                assert(index_by_time@.contains_key(time));
                order.push(index);
            },
            None => {
                assert(!index_by_time@.contains_key(time));
                index_by_time.insert(time, next);
                unique.push(time);
                order.push(next);
                proof {
                    assert(unique@[next as int] == time);
                    assert forall|t: u64| #[trigger] index_by_time@.contains_key(t)
                        == unique@.contains(t) by {
                        if t != time {
                            if before.contains(t) {
                                let j = choose|j: int| 0 <= j < before.len() && before[j] == t;
                                assert(unique@[j] == t);
                            }
                            if unique@.contains(t) {
                                let j = choose|j: int| 0 <= j < unique@.len() && unique@[j] == t;
                                assert(before[j] == t);
                            }
                        }
                    }
                }
            },
        }
        i = i + 1;
    }
    assert(all.take(i as int) =~= all);
    let times: Vec<Duration> = thumbnail_durations(unique.as_slice());
    Ok((times, order))
}

// --------------------
// Sessions
// --------------------

/// What a thumbnail session on a track of a source is found by.
#[derive(Debug, Clone, PartialEq, Eq, Hash)]
pub struct ThumbnailSessionKey {
    pub source: String,
    pub headers: Vec<(String, String)>,
    pub track_id: u32,
    pub local_version: Option<LocalSourceVersion>,
}

/// Whether a key is that of a track of a source: one on a remote source goes
/// by the headers, one on a path by the contents.
pub open spec fn is_session_key(
    key: ThumbnailSessionKey,
    source: Seq<char>,
    headers: Option<Seq<(Seq<char>, Seq<char>)>>,
    track_id: u32,
    remote: bool,
    version: Option<LocalSourceVersion>,
) -> bool {
    &&& key.source@ == source
    &&& source::is_key_of(
        if remote && headers is Some {
            headers->Some_0
        } else {
            Seq::empty()
        },
        stream::headers_view(key.headers@),
    )
    &&& key.track_id == track_id
    &&& key.local_version == if remote {
        None
    } else {
        version
    }
}

/// The key of a thumbnail session. The version is that of the file, where the
/// source is a path that could be read.
pub fn thumbnail_session_key(
    source: &str,
    headers: &Option<Vec<(String, String)>>,
    track_id: u32,
    is_remote: bool,
    version: Option<LocalSourceVersion>,
) -> (r: ThumbnailSessionKey)
    ensures
        is_session_key(
            r,
            source@,
            source::given_view(*headers),
            track_id,
            is_remote,
            version,
        ),
{
    let none: Vec<(String, String)> = Vec::new();
    assert(stream::headers_view(none@) =~= Seq::empty());
    let headers: Vec<(String, String)> = match headers {
        Some(list) => {
            if is_remote {
                key_headers(list.as_slice())
            } else {
                key_headers(none.as_slice())
            }
        },
        None => key_headers(none.as_slice()),
    };
    ThumbnailSessionKey {
        source: source.to_owned(),
        headers,
        track_id,
        local_version: if is_remote {
            None
        } else {
            version
        },
    }
}

/// The tracks by whose keys a session is kept: the one asked for, and the one
/// found where that is another.
pub fn session_track_ids(requested: u32, actual: u32) -> (r: Vec<u32>)
    ensures
        r@ == if requested == actual {
            seq![requested]
        } else {
            seq![requested, actual]
        },
{
    let mut out: Vec<u32> = Vec::new();
    out.push(requested);
    if actual != requested {
        out.push(actual);
    }
    out
}

/// How long a thumbnail session lives.
pub fn thumbnail_session_ttl(is_remote: bool) -> (r: Duration)
    ensures
        r.nanos() == if is_remote {
            300_000_000_000int
        } else {
            60_000_000_000
        },
{
    if is_remote {
        Duration::from_millis(300_000)
    } else {
        Duration::from_millis(60_000)
    }
}

// --------------------
// Tracks
// --------------------

/// A track as it is told to callers.
#[derive(Debug, Clone)]
pub struct TrackInfo {
    pub kind: String,
    pub id: u32,
    pub codec: String,
    pub language: Option<String>,
    pub timescale: u32,
    pub duration: u64,
    pub properties: Vec<(String, String)>,
    pub width: Option<u32>,
    pub height: Option<u32>,
    pub channels: Option<u16>,
    pub sample_rate: Option<u32>,
}

/// What is told of a track.
pub struct InfoView {
    pub kind: Seq<char>,
    pub base: tracks::BaseView,
    pub width: Option<u32>,
    pub height: Option<u32>,
    pub channels: Option<u16>,
    pub sample_rate: Option<u32>,
}

impl View for TrackInfo {
    type V = InfoView;

    open spec fn view(&self) -> InfoView {
        InfoView {
            kind: self.kind@,
            base: tracks::BaseView {
                id: self.id,
                codec: self.codec@,
                language: text::text_view(self.language),
                timescale: self.timescale,
                duration: self.duration,
                properties: tracks::properties_view(self.properties@),
            },
            width: self.width,
            height: self.height,
            channels: self.channels,
            sample_rate: self.sample_rate,
        }
    }
}

/// What is told of a track: its kind, what all tracks have, and the dimensions
/// of a video track or the channels and sample rate of an audio track.
pub open spec fn info_of(track: tracks::TrackView) -> InfoView {
    match track {
        tracks::TrackView::Video { base, width, height, frame_rate, sample_durations } => InfoView {
            kind: "video"@,
            base,
            width: Some(width),
            height: Some(height),
            channels: None,
            sample_rate: None,
        },
        tracks::TrackView::Audio { base, channels, sample_rate, sample_sizes } => InfoView {
            kind: "audio"@,
            base,
            width: None,
            height: None,
            channels: Some(channels),
            sample_rate: Some(sample_rate),
        },
        tracks::TrackView::Subtitle { base } => InfoView {
            kind: "subtitle"@,
            base,
            width: None,
            height: None,
            channels: None,
            sample_rate: None,
        },
        tracks::TrackView::Unknown { base } => InfoView {
            kind: "unknown"@,
            base,
            width: None,
            height: None,
            channels: None,
            sample_rate: None,
        },
    }
}

impl TrackInfo {
    fn from_base(kind: &'static str, base: BaseTrackMeta) -> (r: Self)
        ensures
            r@ == (InfoView {
                kind: kind@,
                base: base@,
                width: None,
                height: None,
                channels: None,
                sample_rate: None,
            }),
    {
        TrackInfo {
            kind: kind.to_owned(),
            id: base.id,
            codec: base.codec,
            language: base.language,
            timescale: base.timescale,
            duration: base.duration,
            properties: base.properties,
            width: None,
            height: None,
            channels: None,
            sample_rate: None,
        }
    }

    /// What is told of a track, see `info_of`.
    pub fn from_track(track: TrackType) -> (r: Self)
        ensures
            r@ == info_of(track@),
    {
        match track {
            TrackType::Video(video) => {
                let mut info: TrackInfo = TrackInfo::from_base("video", video.base);
                info.width = Some(video.width);
                info.height = Some(video.height);
                info
            },
            TrackType::Audio(audio) => {
                let mut info: TrackInfo = TrackInfo::from_base("audio", audio.base);
                info.channels = Some(audio.channels);
                info.sample_rate = Some(audio.sample_rate);
                info
            },
            TrackType::Subtitle(subtitle) => TrackInfo::from_base("subtitle", subtitle.base),
            TrackType::Unknown(unknown) => TrackInfo::from_base("unknown", unknown.base),
        }
    }
}

/// What is told of a track keeps what all tracks have. Sides are told of video tracks
/// alone, and channels and a sample rate of audio tracks alone.
pub proof fn law_info_keeps_the_track(track: tracks::TrackView)
    ensures
        match track {
            tracks::TrackView::Video { base, width, height, .. } => info_of(track).base == base
                && info_of(track).width == Some(width) && info_of(track).height == Some(height),
            tracks::TrackView::Audio { base, channels, sample_rate, .. } => info_of(track).base
                == base && info_of(track).channels == Some(channels) && info_of(track).sample_rate
                == Some(sample_rate),
            tracks::TrackView::Subtitle { base } => info_of(track).base == base,
            tracks::TrackView::Unknown { base } => info_of(track).base == base,
        },
        info_of(track).width is Some <==> track is Video,
        info_of(track).height is Some <==> track is Video,
        info_of(track).channels is Some <==> track is Audio,
        info_of(track).sample_rate is Some <==> track is Audio,
{
}

/// A bound that was asked for is kept, whatever the other side's. A side that was left
/// out beside one that was asked for is bounded by the largest bound there is.
pub proof fn law_bounds_asked_for_are_kept(max_width: Option<u32>, max_height: Option<u32>)
    ensures
        max_width matches Some(w) ==> wanted_bounds(max_width, max_height).0 == w,
        max_height matches Some(h) ==> wanted_bounds(max_width, max_height).1 == h,
        max_width is None && max_height is Some ==> wanted_bounds(max_width, max_height).0
            == MAX_THUMBNAIL_SIDE,
        max_height is None && max_width is Some ==> wanted_bounds(max_width, max_height).1
            == MAX_THUMBNAIL_SIDE,
        max_width is None && max_height is None ==> wanted_bounds(max_width, max_height).0
            == wanted_bounds(max_width, max_height).1 < MAX_THUMBNAIL_SIDE,
{
}

} // verus!
