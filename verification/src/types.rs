//! Values that the readers hand out.

use vstd::prelude::*;
use crate::time::Duration;

verus! {

/// Pixel format of returned frames.
#[derive(Debug, Clone, Copy, PartialEq, Eq, Structural)]
pub enum PixelFormat {
    Yuv420p,
    Yuv422p,
    Yuv444p,
    Rgb24,
    Rgba,
    Jpeg,
    Png,
}

impl PixelFormat {
    /// The name of the format.
    pub open spec fn name(self) -> Seq<char> {
        match self {
            PixelFormat::Yuv420p => "yuv420p"@,
            PixelFormat::Yuv422p => "yuv422p"@,
            PixelFormat::Yuv444p => "yuv444p"@,
            PixelFormat::Rgb24 => "rgb24"@,
            PixelFormat::Rgba => "rgba"@,
            PixelFormat::Jpeg => "jpeg"@,
            PixelFormat::Png => "png"@,
        }
    }

    /// The name of the format.
    pub fn label(self) -> (r: &'static str)
        ensures
            r@ == self.name(),
    {
        match self {
            PixelFormat::Yuv420p => "yuv420p",
            PixelFormat::Yuv422p => "yuv422p",
            PixelFormat::Yuv444p => "yuv444p",
            PixelFormat::Rgb24 => "rgb24",
            PixelFormat::Rgba => "rgba",
            PixelFormat::Jpeg => "jpeg",
            PixelFormat::Png => "png",
        }
    }

    /// The media type of an encoded image, of which there are two.
    pub open spec fn media_type(self) -> Option<Seq<char>> {
        match self {
            PixelFormat::Jpeg => Some("image/jpeg"@),
            PixelFormat::Png => Some("image/png"@),
            _ => None,
        }
    }

    /// The media type of an encoded image; raw pixels have none.
    pub fn mime_type(self) -> (r: Option<&'static str>)
        ensures
            match r {
                Some(s) => self.media_type() == Some(s@),
                None => self.media_type() is None,
            },
    {
        match self {
            PixelFormat::Jpeg => Some("image/jpeg"),
            PixelFormat::Png => Some("image/png"),
            _ => None,
        }
    }
}

/// Embedded cover artwork.
#[derive(Debug, Clone)]
pub struct CoverArt {
    pub mime_type: String,
    pub format: PixelFormat,
    pub data: Vec<u8>,
}

/// What embedded cover artwork is.
pub struct CoverView {
    pub mime_type: Seq<char>,
    pub format: PixelFormat,
    pub data: Seq<u8>,
}

impl View for CoverArt {
    type V = CoverView;

    open spec fn view(&self) -> CoverView {
        CoverView { mime_type: self.mime_type@, format: self.format, data: self.data@ }
    }
}

/// A video frame at a time of a track.
#[derive(Debug, Clone)]
pub struct Frame {
    pub track_id: u32,
    pub width: u32,
    pub height: u32,
    pub timestamp: Duration,
    pub format: PixelFormat,
    pub data: Vec<u8>,
    pub strides: Option<Vec<usize>>,
}

} // verus!
