//! H.264/AVC decoding: configuration, thumbnail value types, and the
//! preparation of decode jobs.

use vstd::prelude::*;


pub mod backend;
pub mod bitstream;
pub mod laws;
pub mod sps;

verus! {

/// Container color metadata extracted from an MP4 `colr` box.
#[derive(Debug, Clone, Copy, PartialEq, Eq, Structural)]
pub struct AvcColorMetadata {
    pub matrix_coefficients: Option<u16>,
    pub full_range: Option<bool>,
}

impl Default for AvcColorMetadata {
    fn default() -> (r: Self)
        ensures
            r.matrix_coefficients is None,
            r.full_range is None,
    {
        AvcColorMetadata { matrix_coefficients: None, full_range: None }
    }
}

/// AVC decoder configuration and color metadata extracted from an MP4 sample entry.
#[derive(Debug, Clone, PartialEq, Eq)]
pub struct AvcConfig {
    pub length_size: usize,
    pub sps: Vec<Vec<u8>>,
    pub pps: Vec<Vec<u8>>,
    pub color: AvcColorMetadata,
    pub display_width: u32,
    pub display_height: u32,
    /// The largest sample of a decode job, once it is known.
    pub max_input_size: Option<usize>,
    /// Whether the samples use the full range, once it is known.
    pub resolved_full_range: Option<bool>,
}

/// What a decoder configuration holds.
pub struct AvcConfigView {
    pub length_size: usize,
    pub sps: Seq<Seq<u8>>,
    pub pps: Seq<Seq<u8>>,
    pub color: AvcColorMetadata,
    pub display_width: u32,
    pub display_height: u32,
    pub max_input_size: Option<usize>,
    pub resolved_full_range: Option<bool>,
}

/// What the byte strings of a list hold.
pub open spec fn sets_view(sets: Seq<Vec<u8>>) -> Seq<Seq<u8>> {
    Seq::new(sets.len(), |i: int| sets[i]@)
}

impl View for AvcConfig {
    type V = AvcConfigView;

    open spec fn view(&self) -> AvcConfigView {
        AvcConfigView {
            length_size: self.length_size,
            sps: sets_view(self.sps@),
            pps: sets_view(self.pps@),
            color: self.color,
            display_width: self.display_width,
            display_height: self.display_height,
            max_input_size: self.max_input_size,
            resolved_full_range: self.resolved_full_range,
        }
    }
}

/// Why samples are not decoded.
#[derive(Debug, Clone, PartialEq, Eq)]
pub enum DecodeError {
    /// The bitstream is damaged.
    Bitstream(String),
    /// The format cannot be decoded.
    UnsupportedFormat(String),
    /// The decoder failed.
    Backend(String),
    /// The decoder broke the rules of its use.
    BackendContract(String),
    /// A decoded picture could not be converted.
    Convert(String),
    /// The outputs are larger than allowed.
    OutputLimit(String),
    /// The inputs are larger than can be handled.
    ResourceLimit(String),
}

/// What a decode error says.
pub enum DecodeErrorView {
    Bitstream(Seq<char>),
    UnsupportedFormat(Seq<char>),
    Backend(Seq<char>),
    BackendContract(Seq<char>),
    Convert(Seq<char>),
    OutputLimit(Seq<char>),
    ResourceLimit(Seq<char>),
}

impl View for DecodeError {
    type V = DecodeErrorView;

    open spec fn view(&self) -> DecodeErrorView {
        match self {
            DecodeError::Bitstream(s) => DecodeErrorView::Bitstream(s@),
            DecodeError::UnsupportedFormat(s) => DecodeErrorView::UnsupportedFormat(s@),
            DecodeError::Backend(s) => DecodeErrorView::Backend(s@),
            DecodeError::BackendContract(s) => DecodeErrorView::BackendContract(s@),
            DecodeError::Convert(s) => DecodeErrorView::Convert(s@),
            DecodeError::OutputLimit(s) => DecodeErrorView::OutputLimit(s@),
            DecodeError::ResourceLimit(s) => DecodeErrorView::ResourceLimit(s@),
        }
    }
}

/// The bytes that the parameter sets of a configuration may take.
pub const MAX_AVC_PARAMETER_SET_BYTES: usize = 1048576;

/// The side of the box that thumbnails fit in by default.
pub const DEFAULT_THUMBNAIL_BOUND: u32 = 320;

/// Aspect-ratio-preserving bounds applied before JPEG encoding.
#[derive(Debug, Clone, Copy, PartialEq, Eq, Structural)]
pub struct ThumbnailSize {
    max_width: u32,
    max_height: u32,
}

impl ThumbnailSize {
    /// The largest width.
    pub closed spec fn width(self) -> u32 {
        self.max_width
    }

    /// The largest height.
    pub closed spec fn height(self) -> u32 {
        self.max_height
    }

    /// Creates non-zero output bounds accepted by the JPEG encoder.
    pub fn new(max_width: u32, max_height: u32) -> (r: Option<Self>)
        ensures
            r is Some == (0 < max_width <= 0xffff && 0 < max_height <= 0xffff),
            r matches Some(size) ==> size.width() == max_width && size.height() == max_height,
    {
        if max_width > 0 && max_height > 0 && max_width <= 0xffff && max_height <= 0xffff {
            Some(ThumbnailSize { max_width, max_height })
        } else {
            None
        }
    }

    /// The largest width and height.
    pub fn bounds(self) -> (r: (u32, u32))
        ensures
            r == (self.width(), self.height()),
    {
        (self.max_width, self.max_height)
    }
}

impl Default for ThumbnailSize {
    fn default() -> (r: Self)
        ensures
            r.width() == DEFAULT_THUMBNAIL_BOUND,
            r.height() == DEFAULT_THUMBNAIL_BOUND,
    {
        ThumbnailSize { max_width: DEFAULT_THUMBNAIL_BOUND, max_height: DEFAULT_THUMBNAIL_BOUND }
    }
}

/// Thumbnail-grade JPEG quality, used by default.
pub const DEFAULT_JPEG_QUALITY: u8 = 60;

/// JPEG quality for encoded thumbnails, constrained to the encoder's 1–100
/// range so an out-of-range value cannot reach the encoder.
#[derive(Debug, Clone, Copy, PartialEq, Eq, PartialOrd, Ord, Structural)]
pub struct JpegQuality(u8);

impl JpegQuality {
    /// The quality as a number.
    pub closed spec fn value(self) -> u8 {
        self.0
    }

    #[verifier::type_invariant]
    closed spec fn in_range(self) -> bool {
        1 <= self.0 <= 100
    }

    /// Returns `None` unless `quality` is within the encoder's 1–100 range.
    pub fn new(quality: u8) -> (r: Option<Self>)
        ensures
            r is Some == (1 <= quality <= 100),
            r matches Some(q) ==> q.value() == quality,
    {
        if 1 <= quality && quality <= 100 {
            Some(JpegQuality(quality))
        } else {
            None
        }
    }

    /// The quality as a number.
    pub fn get(self) -> (r: u8)
        ensures
            r == self.value(),
            1 <= r <= 100,
    {
        proof {
            use_type_invariant(&self);
        }
        self.0
    }
}

impl Default for JpegQuality {
    fn default() -> (r: Self)
        ensures
            r.value() == DEFAULT_JPEG_QUALITY,
    {
        JpegQuality(DEFAULT_JPEG_QUALITY)
    }
}

/// The presentation position of a frame within its decode job.
#[derive(Debug, Clone, Copy, PartialEq, Eq, Hash, PartialOrd, Ord, Structural)]
pub struct FrameToken(pub u64);

impl FrameToken {
    /// The token of a position.
    pub fn new(value: u64) -> (r: Self)
        ensures
            r == FrameToken(value),
    {
        FrameToken(value)
    }

    /// The position as an index, where it can be one.
    pub fn index(self) -> (r: Option<usize>)
        ensures
            r is Some == (self.0 <= usize::MAX),
            r matches Some(i) ==> i == self.0,
    {
        if self.0 <= usize::MAX as u64 {
            Some(self.0 as usize)
        } else {
            None
        }
    }
}

/// Decoded JPEG thumbnail.
#[derive(Debug, Clone, PartialEq, Eq)]
pub struct DecodedImage {
    pub width: u32,
    pub height: u32,
    pub data: Vec<u8>,
}

fn copy_sets(sets: &Vec<Vec<u8>>) -> (r: Vec<Vec<u8>>)
    ensures
        sets_view(r@) == sets_view(sets@),
{
    let mut out: Vec<Vec<u8>> = Vec::new();
    let mut i: usize = 0;
    while i < sets.len()
        invariant
            i <= sets@.len(),
            sets_view(out@) == sets_view(sets@).take(i as int),
        decreases sets@.len() - i,
    {
        let set: Vec<u8> = crate::bytes::copy_range(sets[i].as_slice(), 0, sets[i].len());
        let ghost before = sets_view(out@);
        assert(set@ =~= sets@[i as int]@);
        out.push(set);
        i = i + 1;
        assert(sets_view(out@) =~= before.push(set@));
        assert(sets_view(out@) =~= sets_view(sets@).take(i as int));
    }
    assert(sets_view(out@) =~= sets_view(sets@));
    out
}

impl AvcConfig {
    /// A copy of the configuration.
    pub fn duplicate(&self) -> (r: Self)
        ensures
            r@ == self@,
    {
        AvcConfig {
            length_size: self.length_size,
            sps: copy_sets(&self.sps),
            pps: copy_sets(&self.pps),
            color: self.color,
            display_width: self.display_width,
            display_height: self.display_height,
            max_input_size: self.max_input_size,
            resolved_full_range: self.resolved_full_range,
        }
    }
}

} // verus!
