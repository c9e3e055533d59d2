//! MP3 audio: ID3v2 tags and the audio track.

use vstd::prelude::*;
use crate::errors;
use crate::errors::MediaParserError;
use crate::format::mp4::subtitles::{SubtitleTrack, TrackFilter};
use crate::format::mp4::tracks;
use crate::format::mp4::tracks::{AudioTrackMeta, BaseTrackMeta, TrackType};
use crate::text;
use crate::text::{decimal_text, joined};
use crate::time::Duration;
use crate::types::Frame;

pub mod laws;
pub mod metadata;

verus! {

/// What the search for the first frame of an MP3 stream found.
#[derive(Debug, Clone)]
pub enum FrameSearch {
    /// A frame at an offset.
    Found { header: FrameInfo, offset: u64 },
    /// No frame.
    NotFound,
    /// A header at an offset that makes no sense.
    InvalidHeader { offset: u64 },
}

/// What the header of a frame tells.
#[derive(Debug, Clone)]
pub struct FrameInfo {
    pub bitrate_kbps: u32,
    /// The name of the version.
    pub version: String,
    /// The name of the layer.
    pub layer: String,
    pub channel_mode: u8,
    pub sample_rate_hz: u32,
}

/// The channel mode of a frame with one channel.
pub const SINGLE_CHANNEL: u8 = 3;

/// The audio track of a stream whose first frame was found.
pub open spec fn audio_track(
    header: FrameInfo,
    offset: u64,
    millis: u64,
    method: Seq<char>,
) -> tracks::TrackView {
    tracks::TrackView::Audio {
        base: tracks::BaseView {
            id: 1,
            codec: "mp3"@,
            language: None,
            timescale: 1000,
            duration: millis,
            properties: seq![
                ("offset"@, text::decimal(offset as nat)),
                ("bitrate_kbps"@, text::decimal(header.bitrate_kbps as nat)),
                ("mpeg_version"@, header.version@),
                ("mpeg_layer"@, header.layer@),
                ("channel_mode"@, text::decimal(header.channel_mode as nat)),
                ("duration_method"@, method),
            ],
        },
        channels: if header.channel_mode == SINGLE_CHANNEL {
            1
        } else {
            2
        },
        sample_rate: header.sample_rate_hz,
        sample_sizes: None,
    }
}

/// The tracks of an MP3 stream: one of audio where a frame was found.
pub fn mp3_tracks(search: &FrameSearch, millis: u64, method: &str) -> (r: Result<
    Vec<TrackType>,
    MediaParserError,
>)
    ensures
        match *search {
            FrameSearch::Found { header, offset } => r matches Ok(list) && list@.len() == 1
                && list@[0]@ == audio_track(header, offset, millis, method@),
            FrameSearch::NotFound => r matches Ok(list) && list@.len() == 0,
            FrameSearch::InvalidHeader { offset } => r matches Err(e) && e@
                == errors::ErrorView::InvalidFormat(
                "invalid MP3 frame header at offset "@ + text::decimal(offset as nat),
            ),
        },
{
    let mut out: Vec<TrackType> = Vec::new();
    match search {
        FrameSearch::Found { header, offset } => {
            let mut properties: Vec<(String, String)> = Vec::new();
            properties.push(("offset".to_owned(), decimal_text(*offset)));
            properties.push(("bitrate_kbps".to_owned(), decimal_text(header.bitrate_kbps as u64)));
            properties.push(("mpeg_version".to_owned(), header.version.as_str().to_owned()));
            properties.push(("mpeg_layer".to_owned(), header.layer.as_str().to_owned()));
            properties.push(("channel_mode".to_owned(), decimal_text(header.channel_mode as u64)));
            properties.push(("duration_method".to_owned(), method.to_owned()));
            let track: TrackType = TrackType::Audio(
                AudioTrackMeta {
                    base: BaseTrackMeta {
                        id: 1,
                        codec: "mp3".to_owned(),
                        language: None,
                        timescale: 1000,
                        duration: millis,
                        properties,
                    },
                    channels: if header.channel_mode == SINGLE_CHANNEL {
                        1
                    } else {
                        2
                    },
                    sample_rate: header.sample_rate_hz,
                    sample_sizes: None,
                },
            );
            proof {
                let wanted = audio_track(*header, *offset, millis, method@);
                assert(tracks::properties_view(properties@) =~= wanted->Audio_base.properties);
            }
            out.push(track);
            Ok(out)
        },
        FrameSearch::NotFound => Ok(out),
        FrameSearch::InvalidHeader { offset } => Err(
            MediaParserError::InvalidFormat(
                joined("invalid MP3 frame header at offset ", decimal_text(*offset).as_str()),
            ),
        ),
    }
}

// --------------------
// What MP3 streams do not hold
// --------------------

/// Answers requests for what an MP3 stream cannot hold: frames and subtitles.
#[derive(Debug, Clone, Copy)]
pub struct Mp3Parser;

/// The answer to a request for a frame.
pub open spec fn no_frames() -> errors::ErrorView {
    errors::ErrorView::UnsupportedCodec("MP3 does not contain video frames or MP4 thumbnails"@)
}

impl Mp3Parser {
    /// There is no frame at any time of any track.
    pub fn parse_frame(&self, _track_id: u32, _timestamp: Duration) -> (r: Result<
        Frame,
        MediaParserError,
    >)
        ensures
            r matches Err(e) && e@ == no_frames(),
    {
        Err(
            MediaParserError::UnsupportedCodec(
                "MP3 does not contain video frames or MP4 thumbnails".to_owned(),
            ),
        )
    }

    /// There are frames at no times only.
    pub fn parse_frames(&self, track_id: u32, timestamps: &[Duration]) -> (r: Result<
        Vec<Frame>,
        MediaParserError,
    >)
        ensures
            if timestamps@.len() == 0 {
                r matches Ok(frames) && frames@.len() == 0
            } else {
                r matches Err(e) && e@ == no_frames()
            },
    {
        if timestamps.len() == 0 {
            return Ok(Vec::new());
        }
        match self.parse_frame(track_id, timestamps[0]) {
            Ok(_) => Ok(Vec::new()),
            Err(e) => Err(e),
        }
    }

    /// There are no subtitles, whatever is asked for.
    pub fn parse_subtitles(&self, _filter: Option<TrackFilter>) -> (r: Vec<SubtitleTrack>)
        ensures
            r@.len() == 0,
    {
        Vec::new()
    }
}

} // verus!
