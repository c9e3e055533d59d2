//! Requests for subtitles: what callers may ask for.

use vstd::prelude::*;
use crate::envelope::JS_MAX_SAFE_INTEGER;
use crate::errors;
use crate::errors::MediaParserError;
use crate::format::mp4::subtitles::TrackFilter;
use crate::time::Duration;

verus! {

/// The number of subtitle sessions that are kept.
pub const MAX_SUBTITLE_SESSIONS: usize = 8;

/// A checked request for subtitles.
#[derive(Debug)]
pub struct PreparedSubtitleRequest {
    pub filter: Option<TrackFilter>,
    pub first_track_only: bool,
    pub range: Option<(Duration, Duration)>,
}

/// Whether an end of a range can be held by a caller.
pub open spec fn is_safe(endpoint: Option<u64>) -> bool {
    endpoint matches Some(ms) ==> ms <= JS_MAX_SAFE_INTEGER
}

/// Why a range of milliseconds cannot be asked for.
pub open spec fn range_error(start_ms: Option<u64>, end_ms: Option<u64>) -> Option<Seq<char>> {
    if !is_safe(start_ms) || !is_safe(end_ms) {
        Some("subtitle range endpoints must be JavaScript safe integers"@)
    } else if start_ms is Some != end_ms is Some {
        Some("subtitle range requires both startMs and endMs"@)
    } else if start_ms is Some && start_ms->Some_0 >= end_ms->Some_0 {
        Some("subtitle range start must be before end"@)
    } else {
        None
    }
}

/// Whether a filter asks for the track or the language that was asked for. The
/// number of a track goes before a language, and zero stands for the first
/// track.
pub open spec fn is_filter_for(
    filter: Option<TrackFilter>,
    track_id: Option<u32>,
    language: Option<String>,
) -> bool {
    match track_id {
        Some(id) => if id == 0 {
            filter is None
        } else {
            filter == Some(TrackFilter::TrackId(id))
        },
        None => match language {
            Some(l) => filter matches Some(TrackFilter::Language(wanted)) && wanted@ == l@,
            None => filter is None,
        },
    }
}

/// Checks a request for subtitles: the range must have both ends or none, in
/// order, and small enough for the caller to hold.
pub fn prepare_subtitle_request(
    track_id: Option<u32>,
    language: Option<String>,
    start_ms: Option<u64>,
    end_ms: Option<u64>,
) -> (r: Result<PreparedSubtitleRequest, MediaParserError>)
    ensures
        match range_error(start_ms, end_ms) {
            Some(reason) => r matches Err(e) && e@ == errors::ErrorView::Other(reason),
            None => r matches Ok(request) && is_filter_for(request.filter, track_id, language)
                && request.first_track_only == (track_id == Some(0u32)) && match request.range {
                None => start_ms is None,
                Some((start, end)) => start_ms is Some && start.nanos() == start_ms->Some_0
                    * 1_000_000 && end.nanos() == end_ms->Some_0 * 1_000_000,
            },
        },
{
    let start_safe: bool = match start_ms {
        Some(ms) => ms <= JS_MAX_SAFE_INTEGER,
        None => true,
    };
    let end_safe: bool = match end_ms {
        Some(ms) => ms <= JS_MAX_SAFE_INTEGER,
        None => true,
    };
    if !start_safe || !end_safe {
        return Err(
            MediaParserError::other("subtitle range endpoints must be JavaScript safe integers"),
        );
    }
    let range: Option<(Duration, Duration)> = match (start_ms, end_ms) {
        (None, None) => None,
        (Some(start), Some(end)) => {
            if start >= end {
                return Err(MediaParserError::other("subtitle range start must be before end"));
            }
            Some((Duration::from_millis(start), Duration::from_millis(end)))
        },
        _ => {
            return Err(
                MediaParserError::other("subtitle range requires both startMs and endMs"),
            );
        },
    };
    let (filter, first_track_only): (Option<TrackFilter>, bool) = match track_id {
        Some(id) => {
            if id == 0 {
                (None, true)
            } else {
                (Some(TrackFilter::TrackId(id)), false)
            }
        },
        None => match language {
            Some(wanted) => (Some(TrackFilter::Language(wanted)), false),
            None => (None, false),
        },
    };
    Ok(PreparedSubtitleRequest { filter, first_track_only, range })
}

/// A range can be asked for where neither end is given, or where both are, the start
/// lies before the end and the end can be held exactly by a caller.
pub proof fn law_range_is_accepted(start_ms: Option<u64>, end_ms: Option<u64>)
    ensures
        range_error(start_ms, end_ms) is None <==> (start_ms is None && end_ms is None) || (start_ms
            matches Some(start) && end_ms matches Some(end) && start < end
            && end < 0x20_0000_0000_0000),
{
}

} // verus!
