//! Errors of the readers.

use vstd::prelude::*;
use crate::text;
use crate::text::{decimal_text, joined};

verus! {

/// What can go wrong while media is inspected.
#[derive(Debug, Clone)]
pub enum MediaParserError {
    /// A read or a seek failed, for the reason given.
    Io(String),
    /// The data is no movie that can be used, for the reason given.
    InvalidFormat(String),
    /// There is no such track.
    TrackNotFound(u32),
    /// The codec cannot be handled.
    UnsupportedCodec(String),
    /// The data ends, or makes no sense, at an offset.
    CorruptedData(u64),
    /// Samples could not be decoded.
    Decode(String),
    /// More output was asked for than is allowed.
    OutputLimit(String),
    /// More memory would be needed than is allowed.
    ResourceLimit(String),
    /// Subtitles could not be read.
    SubtitleError(String),
    /// A task on another thread failed.
    BlockingTask(String),
    /// A request over HTTP failed.
    HttpRequest(String),
    /// A server answered with an error status.
    HttpStatus(u16),
    /// A server did not tell the length of a resource.
    ContentLengthMissing,
    /// Something else went wrong.
    Other(String),
}

/// What an error says.
pub enum ErrorView {
    Io(Seq<char>),
    InvalidFormat(Seq<char>),
    TrackNotFound(u32),
    UnsupportedCodec(Seq<char>),
    CorruptedData(u64),
    Decode(Seq<char>),
    OutputLimit(Seq<char>),
    ResourceLimit(Seq<char>),
    SubtitleError(Seq<char>),
    BlockingTask(Seq<char>),
    HttpRequest(Seq<char>),
    HttpStatus(u16),
    ContentLengthMissing,
    Other(Seq<char>),
}

impl View for MediaParserError {
    type V = ErrorView;

    open spec fn view(&self) -> ErrorView {
        match self {
            MediaParserError::Io(s) => ErrorView::Io(s@),
            MediaParserError::InvalidFormat(s) => ErrorView::InvalidFormat(s@),
            MediaParserError::TrackNotFound(id) => ErrorView::TrackNotFound(*id),
            MediaParserError::UnsupportedCodec(s) => ErrorView::UnsupportedCodec(s@),
            MediaParserError::CorruptedData(at) => ErrorView::CorruptedData(*at),
            MediaParserError::Decode(s) => ErrorView::Decode(s@),
            MediaParserError::OutputLimit(s) => ErrorView::OutputLimit(s@),
            MediaParserError::ResourceLimit(s) => ErrorView::ResourceLimit(s@),
            MediaParserError::SubtitleError(s) => ErrorView::SubtitleError(s@),
            MediaParserError::BlockingTask(s) => ErrorView::BlockingTask(s@),
            MediaParserError::HttpRequest(s) => ErrorView::HttpRequest(s@),
            MediaParserError::HttpStatus(code) => ErrorView::HttpStatus(*code),
            MediaParserError::ContentLengthMissing => ErrorView::ContentLengthMissing,
            MediaParserError::Other(s) => ErrorView::Other(s@),
        }
    }
}

impl ErrorView {
    /// The error in words.
    pub open spec fn words(self) -> Seq<char> {
        match self {
            ErrorView::Io(s) => "IO error: "@ + s,
            ErrorView::InvalidFormat(s) => "Invalid MP4 format: "@ + s,
            ErrorView::TrackNotFound(id) => "Track not found: "@ + text::decimal(id as nat),
            ErrorView::UnsupportedCodec(s) => "Unsupported codec: "@ + s,
            ErrorView::CorruptedData(at) => "Corrupted data at offset "@ + text::decimal(at as nat),
            ErrorView::Decode(s) => "Decoder error: "@ + s,
            ErrorView::OutputLimit(s) => "Output limit exceeded: "@ + s,
            ErrorView::ResourceLimit(s) => "Resource limit reached: "@ + s,
            ErrorView::SubtitleError(s) => "Subtitle error: "@ + s,
            ErrorView::BlockingTask(s) => "Blocking task failed: "@ + s,
            ErrorView::HttpRequest(s) => "HTTP request failed: "@ + s,
            ErrorView::HttpStatus(code) => "HTTP status "@ + text::decimal(code as nat),
            ErrorView::ContentLengthMissing => "Content-Length header missing"@,
            ErrorView::Other(s) => s,
        }
    }
}

impl MediaParserError {
    /// An unusable movie, with the reason.
    pub fn invalid(reason: &str) -> (r: Self)
        ensures
            r@ == ErrorView::InvalidFormat(reason@),
    {
        MediaParserError::InvalidFormat(reason.to_owned())
    }

    /// An unusable codec, with the reason.
    pub fn unsupported(reason: &str) -> (r: Self)
        ensures
            r@ == ErrorView::UnsupportedCodec(reason@),
    {
        MediaParserError::UnsupportedCodec(reason.to_owned())
    }

    /// A limit on memory, with the reason.
    pub fn resource_limit(reason: &str) -> (r: Self)
        ensures
            r@ == ErrorView::ResourceLimit(reason@),
    {
        MediaParserError::ResourceLimit(reason.to_owned())
    }

    /// A failed request, with the reason.
    pub fn request(reason: &str) -> (r: Self)
        ensures
            r@ == ErrorView::HttpRequest(reason@),
    {
        MediaParserError::HttpRequest(reason.to_owned())
    }

    /// Another error, with the reason.
    pub fn other(reason: &str) -> (r: Self)
        ensures
            r@ == ErrorView::Other(reason@),
    {
        MediaParserError::Other(reason.to_owned())
    }

    /// The error in words.
    pub fn message(&self) -> (r: String)
        ensures
            r@ == self@.words(),
    {
        match self {
            MediaParserError::Io(s) => joined("IO error: ", s.as_str()),
            MediaParserError::InvalidFormat(s) => joined("Invalid MP4 format: ", s.as_str()),
            MediaParserError::TrackNotFound(id) => joined(
                "Track not found: ",
                decimal_text(*id as u64).as_str(),
            ),
            MediaParserError::UnsupportedCodec(s) => joined("Unsupported codec: ", s.as_str()),
            MediaParserError::CorruptedData(at) => joined(
                "Corrupted data at offset ",
                decimal_text(*at).as_str(),
            ),
            MediaParserError::Decode(s) => joined("Decoder error: ", s.as_str()),
            MediaParserError::OutputLimit(s) => joined("Output limit exceeded: ", s.as_str()),
            MediaParserError::ResourceLimit(s) => joined("Resource limit reached: ", s.as_str()),
            MediaParserError::SubtitleError(s) => joined("Subtitle error: ", s.as_str()),
            MediaParserError::BlockingTask(s) => joined("Blocking task failed: ", s.as_str()),
            MediaParserError::HttpRequest(s) => joined("HTTP request failed: ", s.as_str()),
            MediaParserError::HttpStatus(code) => joined(
                "HTTP status ",
                decimal_text(*code as u64).as_str(),
            ),
            MediaParserError::ContentLengthMissing => "Content-Length header missing".to_owned(),
            MediaParserError::Other(s) => s.as_str().to_owned(),
        }
    }
}

} // verus!
