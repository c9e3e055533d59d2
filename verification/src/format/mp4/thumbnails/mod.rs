//! Planning of thumbnail extraction from H.264 video tracks.

use vstd::prelude::*;
use crate::decoders::h264::{FrameToken, JpegQuality, ThumbnailSize};

pub mod assemble;
pub mod groups;
pub mod index;
pub mod laws;
pub mod plan;
pub mod request;
pub mod tables;

verus! {

/// The largest number of thumbnails in one request.
pub const MAX_THUMBNAIL_OUTPUTS: usize = 4096;

/// The largest number of samples that one request may decode.
pub const MAX_SAMPLES_PER_THUMBNAIL_BATCH: usize = 65536;

/// Output controls of a thumbnail request.
#[derive(Debug, Clone, Copy)]
pub struct ThumbnailOptions {
    /// JPEG quality of the encoded frames.
    pub quality: JpegQuality,
    /// Largest output dimensions.
    pub size: ThumbnailSize,
    /// The bytes that all returned JPEG payloads may take, where that is bounded.
    pub max_output_bytes: Option<usize>,
}

impl Default for ThumbnailOptions {
    fn default() -> (r: Self)
        ensures
            r.quality.value() == crate::decoders::h264::DEFAULT_JPEG_QUALITY,
            r.size.width() == crate::decoders::h264::DEFAULT_THUMBNAIL_BOUND,
            r.size.height() == crate::decoders::h264::DEFAULT_THUMBNAIL_BOUND,
            r.max_output_bytes is None,
    {
        ThumbnailOptions {
            quality: JpegQuality::default(),
            size: ThumbnailSize::default(),
            max_output_bytes: None,
        }
    }
}

/// A group of pictures: the samples from a sync sample through an end
/// (1-based, both inside).
#[derive(Debug, Clone, Copy, PartialEq, Eq, PartialOrd, Ord, Hash, Structural)]
pub struct Gop {
    pub start_sample: u32,
    pub end_sample: u32,
}

/// One requested frame: its sample, the group to decode for it, when it is
/// shown, and its presentation position within the group.
#[derive(Debug, Clone, Copy, PartialEq, Eq, Structural)]
pub struct ExactTarget {
    pub gop: Gop,
    pub sample_index: u32,
    pub presentation_tick: u64,
    pub token: FrameToken,
}

/// A planned decode job: the truncated group plus the presentation-order
/// positions of its samples, and those wanted with the number of their uses.
#[derive(Debug, Clone, PartialEq, Eq)]
pub struct JobPlan {
    pub gop: Gop,
    pub tokens: Vec<FrameToken>,
    pub wanted: Vec<(FrameToken, usize)>,
}

} // verus!
