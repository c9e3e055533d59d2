//! Decode jobs with their samples, and the frames that come out of them.

use vstd::prelude::*;
use super::index;
use super::index::{avc_config_for_range, VideoTrack};
use super::plan;
use super::plan::gop_sample_count;
use super::tables::VideoSampleTables;
use super::{ExactTarget, Gop, JobPlan};
use crate::bytes::copy_range;
use crate::decoders::h264;
use crate::decoders::h264::{AvcConfig, DecodeError, DecodedImage, FrameToken};
use crate::errors;
use crate::errors::MediaParserError;
use crate::text;
use crate::text::{decimal_text, joined};
use crate::time;
use crate::time::ticks_to_duration;
use crate::types::{Frame, PixelFormat};
use std::collections::HashMap;
use std::sync::Arc;

verus! {

// --------------------
// Errors
// --------------------

/// What an error of a decoder is to a caller.
pub open spec fn decode_error(e: h264::DecodeErrorView) -> errors::ErrorView {
    match e {
        h264::DecodeErrorView::Bitstream(s) => errors::ErrorView::InvalidFormat(s),
        h264::DecodeErrorView::UnsupportedFormat(s) => errors::ErrorView::UnsupportedCodec(s),
        h264::DecodeErrorView::Backend(s) => errors::ErrorView::Decode(s),
        h264::DecodeErrorView::BackendContract(s) => errors::ErrorView::Decode(s),
        h264::DecodeErrorView::Convert(s) => errors::ErrorView::Decode(s),
        h264::DecodeErrorView::OutputLimit(s) => errors::ErrorView::OutputLimit(s),
        h264::DecodeErrorView::ResourceLimit(s) => errors::ErrorView::ResourceLimit(s),
    }
}

/// Maps an error of a decoder to one of the readers.
pub fn map_decode_error(error: DecodeError) -> (r: MediaParserError)
    ensures
        r@ == decode_error(error@),
{
    match error {
        DecodeError::Bitstream(message) => MediaParserError::InvalidFormat(message),
        DecodeError::UnsupportedFormat(message) => MediaParserError::UnsupportedCodec(message),
        DecodeError::Backend(message) => MediaParserError::Decode(message),
        DecodeError::BackendContract(message) => MediaParserError::Decode(message),
        DecodeError::Convert(message) => MediaParserError::Decode(message),
        DecodeError::OutputLimit(message) => MediaParserError::OutputLimit(message),
        DecodeError::ResourceLimit(message) => MediaParserError::ResourceLimit(message),
    }
}

// --------------------
// Frames
// --------------------

/// Decoded images by the group and the position that they were decoded for,
/// the latest one of a key counting.
pub type DecodedImages = Vec<((Gop, FrameToken), DecodedImage)>;

/// The place of the latest image of a key among the first `n`.
pub open spec fn place_of(
    images: Seq<((Gop, FrameToken), DecodedImage)>,
    key: (Gop, FrameToken),
    n: int,
) -> Option<int>
    decreases n,
{
    if n <= 0 {
        None
    } else if images[n - 1].0 == key {
        Some(n - 1)
    } else {
        place_of(images, key, n - 1)
    }
}

/// Flattened decoded images: each group's images under the group's key, in
/// order.
pub open spec fn flattened(
    decoded: Seq<(Gop, Vec<(FrameToken, DecodedImage)>)>,
    n: int,
) -> Seq<((Gop, FrameToken), DecodedImage)>
    decreases n,
{
    if n <= 0 {
        Seq::empty()
    } else {
        flattened(decoded, n - 1) + Seq::new(
            decoded[n - 1].1@.len(),
            |k: int| ((decoded[n - 1].0, decoded[n - 1].1@[k].0), decoded[n - 1].1@[k].1),
        )
    }
}

/// Gathers the images of decoded groups.
pub fn collect_decoded_images(decoded: Vec<(Gop, Vec<(FrameToken, DecodedImage)>)>) -> (r:
    DecodedImages)
    ensures
        r@ == flattened(decoded@, decoded@.len() as int),
{
    let mut images: DecodedImages = Vec::new();
    let mut rest: Vec<(Gop, Vec<(FrameToken, DecodedImage)>)> = decoded;
    let ghost all = rest@;
    // Taken off from the end, so that each image moves once.
    let mut turned: Vec<(Gop, Vec<(FrameToken, DecodedImage)>)> = Vec::new();
    while rest.len() > 0
        invariant
            rest@.len() + turned@.len() == all.len(),
            rest@ == all.take(rest@.len() as int),
            forall|k: int| 0 <= k < turned@.len() ==> #[trigger] turned@[k] == all[all.len() - 1 - k],
        decreases rest@.len(),
    {
        if let Some(group) = rest.pop() {
            turned.push(group);
        }
    }
    assert(rest@.len() == 0);
    let ghost mut n = 0int;
    while turned.len() > 0
        invariant
            n + turned@.len() == all.len(),
            0 <= n,
            forall|k: int| 0 <= k < turned@.len() ==> #[trigger] turned@[k] == all[all.len() - 1 - k],
            images@ == flattened(all, n),
        decreases turned@.len(),
    {
        if let Some((gop, list)) = turned.pop() {
            assert((gop, list) == all[n]);
            append_images(&mut images, gop, list);
            proof {
                n = n + 1;
            }
        }
    }
    images
}

/// Appends the images of one group.
fn append_images(images: &mut DecodedImages, gop: Gop, list: Vec<(FrameToken, DecodedImage)>)
    ensures
        final(images)@ == old(images)@ + Seq::new(
            list@.len(),
            |k: int| ((gop, list@[k].0), list@[k].1),
        ),
{
    let ghost start = images@;
    let ghost all = list@;
    let mut turned: Vec<(FrameToken, DecodedImage)> = Vec::new();
    let mut rest: Vec<(FrameToken, DecodedImage)> = list;
    while rest.len() > 0
        invariant
            rest@.len() + turned@.len() == all.len(),
            rest@ == all.take(rest@.len() as int),
            forall|k: int| 0 <= k < turned@.len() ==> #[trigger] turned@[k] == all[all.len() - 1 - k],
        decreases rest@.len(),
    {
        if let Some(item) = rest.pop() {
            turned.push(item);
        }
    }
    let ghost mut n = 0int;
    let ghost want = Seq::new(all.len(), |k: int| ((gop, all[k].0), all[k].1));
    assert(want.take(0) =~= Seq::empty());
    while turned.len() > 0
        invariant
            n + turned@.len() == all.len(),
            0 <= n,
            want == Seq::new(all.len(), |k: int| ((gop, all[k].0), all[k].1)),
            forall|k: int| 0 <= k < turned@.len() ==> #[trigger] turned@[k] == all[all.len() - 1 - k],
            images@ == start + want.take(n),
        decreases turned@.len(),
    {
        if let Some((token, image)) = turned.pop() {
            assert((token, image) == all[n]);
            images.push(((gop, token), image));
            proof {
                assert(want.take(n + 1) =~= want.take(n).push(want[n]));
                assert(images@ =~= start + want.take(n + 1));
                n = n + 1;
            }
        }
    }
    assert(want.take(n) =~= want);
}

/// The key of the image of a target.
pub open spec fn key_of(t: ExactTarget) -> (Gop, FrameToken) {
    (t.gop, t.token)
}

/// Whether a frame is that of a target with a decoded image.
pub open spec fn is_frame(track: VideoTrack, t: ExactTarget, image: DecodedImage, f: Frame) -> bool {
    &&& f.track_id == track.id
    &&& f.width == image.width
    &&& f.height == image.height
    &&& f.timestamp.nanos() == time::span_of(t.presentation_tick, track.timescale)
    &&& f.format == PixelFormat::Jpeg
    &&& f.data@ == image.data@
    &&& f.strides is None
}

/// The first target from `k` on that has no decoded image.
pub open spec fn first_missing(
    targets: Seq<ExactTarget>,
    images: Seq<((Gop, FrameToken), DecodedImage)>,
    k: int,
) -> Option<ExactTarget>
    decreases targets.len() - k,
{
    if k < 0 || k >= targets.len() {
        None
    } else if place_of(images, key_of(targets[k]), images.len() as int) is None {
        Some(targets[k])
    } else {
        first_missing(targets, images, k + 1)
    }
}

fn same_key(a: &(Gop, FrameToken), b: &(Gop, FrameToken)) -> (r: bool)
    ensures
        r == (*a == *b),
{
    a.0.start_sample == b.0.start_sample && a.0.end_sample == b.0.end_sample && a.1.0 == b.1.0
}

/// The place of the latest image of a key.
fn find_image(images: &DecodedImages, key: (Gop, FrameToken)) -> (r: Option<usize>)
    ensures
        match r {
            Some(p) => place_of(images@, key, images@.len() as int) == Some(p as int) && p
                < images@.len() && images@[p as int].0 == key,
            None => place_of(images@, key, images@.len() as int) is None,
        },
{
    let mut n: usize = images.len();
    while n > 0
        invariant
            n <= images@.len(),
            place_of(images@, key, images@.len() as int) == place_of(images@, key, n as int),
        decreases n,
    {
        if same_key(&images[n - 1].0, &key) {
            return Some(n - 1);
        }
        n = n - 1;
    }
    None
}

/// Whether one of the targets from `from` on has a key.
fn is_needed(targets: &Vec<ExactTarget>, from: usize, key: (Gop, FrameToken)) -> (r: bool)
    requires
        from <= targets@.len(),
    ensures
        r == exists|k: int| from <= k < targets@.len() && key_of(#[trigger] targets@[k]) == key,
{
    let mut i: usize = from;
    while i < targets.len()
        invariant
            from <= i <= targets@.len(),
            forall|k: int| from <= k < i ==> key_of(#[trigger] targets@[k]) != key,
        decreases targets@.len() - i,
    {
        if same_key(&(targets[i].gop, targets[i].token), &key) {
            assert(key_of(targets@[i as int]) == key);
            return true;
        }
        i = i + 1;
    }
    false
}

proof fn lemma_place_by_keys(
    a: Seq<((Gop, FrameToken), DecodedImage)>,
    b: Seq<((Gop, FrameToken), DecodedImage)>,
    key: (Gop, FrameToken),
    n: int,
)
    requires
        0 <= n <= a.len(),
        a.len() == b.len(),
        forall|k: int| 0 <= k < a.len() ==> (#[trigger] a[k]).0 == b[k].0,
    ensures
        place_of(a, key, n) == place_of(b, key, n),
        place_of(a, key, n) matches Some(p) ==> 0 <= p < n && a[p].0 == key,
    decreases n,
{
    if n > 0 {
        assert(a[n - 1].0 == b[n - 1].0);
        lemma_place_by_keys(a, b, key, n - 1);
    }
}

/// The frame of a target with its image.
fn frame_from_image(track: &VideoTrack, presentation_tick: u64, image: DecodedImage) -> (r: Frame)
    ensures
        r.track_id == track.id,
        r.width == image.width,
        r.height == image.height,
        r.timestamp.nanos() == time::span_of(presentation_tick, track.timescale),
        r.format == PixelFormat::Jpeg,
        r.data@ == image.data@,
        r.strides is None,
{
    Frame {
        track_id: track.id,
        width: image.width,
        height: image.height,
        timestamp: ticks_to_duration(presentation_tick, track.timescale),
        format: PixelFormat::Jpeg,
        data: image.data,
        strides: None,
    }
}

/// Maps each target to its decoded image, preserving the request order.
///
/// Consumes `images`: JPEG payloads are megabytes each, so an image is copied
/// only while another target still needs it and moved out on its last use.
pub fn assemble_frames(
    track: &VideoTrack,
    targets: Vec<ExactTarget>,
    images: DecodedImages,
) -> (r: Result<Vec<Frame>, MediaParserError>)
    ensures
        match first_missing(targets@, images@, 0) {
            Some(t) => r matches Err(e) && e@ == errors::ErrorView::InvalidFormat(
                "missing decoded thumbnail sample "@ + text::decimal(t.sample_index as nat),
            ),
            None => r matches Ok(frames) && frames@.len() == targets@.len() && forall|k: int|
                0 <= k < targets@.len() ==> is_frame(
                    *track,
                    targets@[k],
                    images@[place_of(images@, key_of(targets@[k]), images@.len() as int)->0].1,
                    #[trigger] frames@[k],
                ),
        },
{
    let ghost given = images@;
    let mut left: DecodedImages = images;
    let mut frames: Vec<Frame> = Vec::new();
    let mut i: usize = 0;
    while i < targets.len()
        invariant
            i <= targets@.len(),
            frames@.len() == i,
            given == images@,
            left@.len() == given.len(),
            forall|k: int| 0 <= k < given.len() ==> (#[trigger] left@[k]).0 == given[k].0,
            forall|k: int|
                0 <= k < given.len() ==> (#[trigger] left@[k]).1.width == given[k].1.width
                    && left@[k].1.height == given[k].1.height,
            forall|t: int, k: int|
                i <= t < targets@.len() && 0 <= k < given.len() && key_of(#[trigger] targets@[t])
                    == given[k].0 ==> (#[trigger] left@[k]).1.data@ == given[k].1.data@,
            forall|k: int|
                0 <= k < i ==> is_frame(
                    *track,
                    targets@[k],
                    given[place_of(given, key_of(targets@[k]), given.len() as int)->0].1,
                    #[trigger] frames@[k],
                ),
            first_missing(targets@, given, 0) == first_missing(targets@, given, i as int),
        decreases targets@.len() - i,
    {
        let target: ExactTarget = targets[i];
        let key: (Gop, FrameToken) = (target.gop, target.token);
        proof {
            lemma_place_by_keys(left@, given, key, given.len() as int);
        }
        let place: usize = match find_image(&left, key) {
            Some(place) => place,
            None => {
                return Err(
                    MediaParserError::InvalidFormat(
                        joined(
                            "missing decoded thumbnail sample ",
                            decimal_text(target.sample_index as u64).as_str(),
                        ),
                    ),
                );
            },
        };
        let ghost before = left@;
        assert(key_of(targets@[i as int]) == given[place as int].0);
        assert(left@[place as int].1.data@ == given[place as int].1.data@);
        let width: u32 = left[place].1.width;
        let height: u32 = left[place].1.height;
        let mut data: Vec<u8> = Vec::new();
        if is_needed(&targets, i + 1, key) {
            let len: usize = left[place].1.data.len();
            data = copy_range(left[place].1.data.as_slice(), 0, len);
            assert(data@ =~= given[place as int].1.data@);
        } else {
            std::mem::swap(&mut data, &mut left[place].1.data);
            proof {
                assert forall|t: int, k: int|
                    i + 1 <= t < targets@.len() && 0 <= k < given.len() && key_of(
                        #[trigger] targets@[t],
                    ) == given[k].0 implies (#[trigger] left@[k]).1.data@
                    == given[k].1.data@ by {
                    assert(key_of(targets@[t]) != key);
                    assert(before[k].1.data@ == given[k].1.data@);
                }
            }
        }
        frames.push(
            frame_from_image(
                track,
                target.presentation_tick,
                DecodedImage { width, height, data },
            ),
        );
        i = i + 1;
    }
    Ok(frames)
}

// --------------------
// Output
// --------------------

/// How many targets a decode unit wants the picture of a token for, where it
/// wants it at all.
pub open spec fn uses_in(wanted: Seq<(FrameToken, usize)>, token: FrameToken) -> Option<usize>
    decreases wanted.len(),
{
    if wanted.len() == 0 {
        None
    } else if wanted[0].0 == token {
        Some(wanted[0].1)
    } else {
        uses_in(wanted.skip(1), token)
    }
}

/// A decode unit has a use for the pictures whose tokens it names, and for no
/// others.
pub proof fn law_named_pictures_have_a_use(wanted: Seq<(FrameToken, usize)>, token: FrameToken)
    ensures
        uses_in(wanted, token) is Some <==> plan::is_named(wanted, token),
    decreases wanted.len(),
{
    if wanted.len() > 0 {
        let rest = wanted.skip(1);
        law_named_pictures_have_a_use(rest, token);
        if plan::is_named(rest, token) {
            let k = choose|k: int| 0 <= k < rest.len() && (#[trigger] rest[k]).0 == token;
            assert(wanted[k + 1] == rest[k]);
        }
        if wanted[0].0 != token && plan::is_named(wanted, token) {
            let k = choose|k: int| 0 <= k < wanted.len() && (#[trigger] wanted[k]).0 == token;
            assert(rest[k - 1] == wanted[k]);
        }
    }
}

/// How many targets a picture is wanted for; a picture without a use is not kept.
pub fn picture_uses(wanted: &[(FrameToken, usize)], token: FrameToken) -> (r: Option<usize>)
    ensures
        r == uses_in(wanted@, token),
{
    let mut i: usize = 0;
    assert(wanted@.skip(0) =~= wanted@);
    while i < wanted.len()
        invariant
            i <= wanted@.len(),
            uses_in(wanted@, token) == uses_in(wanted@.skip(i as int), token),
        decreases wanted@.len() - i,
    {
        assert(wanted@.skip(i as int).skip(1) =~= wanted@.skip(i + 1));
        if wanted[i].0.0 == token.0 {
            return Some(wanted[i].1);
        }
        i += 1;
    }
    None
}

/// The bytes that the images of a request may take, and those taken so far.
#[derive(Debug)]
pub struct OutputBudget {
    max: Option<usize>,
    spent: usize,
}

/// A limit on output bytes, if there is one, and the bytes counted so far.
pub struct BudgetView {
    pub max: Option<usize>,
    pub spent: int,
}

impl View for OutputBudget {
    type V = BudgetView;

    closed spec fn view(&self) -> BudgetView {
        BudgetView { max: self.max, spent: self.spent as int }
    }
}

/// The bytes counted once an image of `bytes` bytes is put out `uses` times.
/// The count stops at the largest size there is.
pub open spec fn spent_after(v: BudgetView, bytes: int, uses: int) -> int {
    let total = v.spent + bytes * uses;
    if total <= usize::MAX {
        total
    } else {
        usize::MAX as int
    }
}

/// Whether an image may still be put out `uses` times.
pub open spec fn within_budget(v: BudgetView, bytes: int, uses: int) -> bool {
    match v.max {
        Some(max) => v.spent + bytes * uses <= max,
        None => true,
    }
}

impl OutputBudget {
    /// A budget from which nothing is spent.
    pub fn new(max: Option<usize>) -> (r: Self)
        ensures
            r@ == (BudgetView { max, spent: 0 }),
    {
        OutputBudget { max, spent: 0 }
    }

    /// Counts an image once for each of its uses. Where that passes the limit
    /// nothing is counted.
    pub fn charge(&mut self, bytes: usize, uses: usize) -> (r: Result<(), DecodeError>)
        ensures
            r is Ok <==> within_budget(old(self)@, bytes as int, uses as int),
            r is Ok ==> final(self)@ == (BudgetView {
                max: old(self)@.max,
                spent: spent_after(old(self)@, bytes as int, uses as int),
            }),
            r matches Err(e) ==> final(self)@ == old(self)@ && e@
                == h264::DecodeErrorView::OutputLimit("thumbnail output is too large"@),
    {
        let total: Option<usize> = match bytes.checked_mul(uses) {
            Some(added) => self.spent.checked_add(added),
            None => None,
        };
        let fits: bool = match (self.max, total) {
            (Some(max), Some(total)) => total <= max,
            (Some(_), None) => false,
            (None, _) => true,
        };
        if !fits {
            return Err(DecodeError::OutputLimit("thumbnail output is too large".to_string()));
        }
        self.spent = match total {
            Some(total) => total,
            None => usize::MAX,
        };
        Ok(())
    }
}

/// The bytes that images take, each put out as often as it is used.
pub open spec fn output_size(images: Seq<(usize, usize)>) -> int
    decreases images.len(),
{
    if images.len() == 0 {
        0
    } else {
        output_size(images.drop_last()) + images.last().0 * images.last().1
    }
}

/// The budget once images are charged to it in turn, where all of them fit.
pub open spec fn charged(v: BudgetView, images: Seq<(usize, usize)>) -> Option<BudgetView>
    decreases images.len(),
{
    if images.len() == 0 {
        Some(v)
    } else {
        match charged(v, images.drop_last()) {
            Some(before) => {
                let (bytes, uses) = images.last();
                if within_budget(before, bytes as int, uses as int) {
                    Some(
                        BudgetView {
                            max: before.max,
                            spent: spent_after(before, bytes as int, uses as int),
                        },
                    )
                } else {
                    None
                }
            },
            None => None,
        }
    }
}

/// Images are put out exactly where all their bytes together keep to the limit.
pub proof fn law_budget_counts_every_use(max: Option<usize>, images: Seq<(usize, usize)>)
    ensures
        charged(BudgetView { max, spent: 0 }, images) is Some <==> match max {
            Some(max) => output_size(images) <= max,
            None => true,
        },
{
    lemma_charged(max, images);
}

proof fn lemma_charged(max: Option<usize>, images: Seq<(usize, usize)>)
    ensures
        output_size(images) >= 0,
        charged(BudgetView { max, spent: 0 }, images) is Some <==> match max {
            Some(max) => output_size(images) <= max,
            None => true,
        },
        charged(BudgetView { max, spent: 0 }, images) matches Some(v) ==> v.max == max && (max is Some
            ==> v.spent == output_size(images)),
    decreases images.len(),
{
    if images.len() > 0 {
        lemma_charged(max, images.drop_last());
        let (bytes, uses) = images.last();
        assert(bytes * uses >= 0) by (nonlinear_arith);
    }
}

// --------------------
// Jobs
// --------------------

/// One decode unit: the samples of a single group plus the presentation-order
/// positions to keep as JPEG outputs.
#[derive(Debug)]
pub struct DecodeJob {
    pub gop: Gop,
    pub avc_config: Arc<AvcConfig>,
    pub samples: Vec<Vec<u8>>,
    pub tokens: Vec<FrameToken>,
    pub wanted: Vec<(FrameToken, usize)>,
}

/// What a decode unit holds.
pub struct JobView {
    pub gop: Gop,
    pub config: h264::AvcConfigView,
    pub samples: Seq<Seq<u8>>,
    pub tokens: Seq<FrameToken>,
    pub wanted: Seq<(FrameToken, usize)>,
}

impl View for DecodeJob {
    type V = JobView;

    open spec fn view(&self) -> JobView {
        JobView {
            gop: self.gop,
            config: (*self.avc_config)@,
            samples: h264::sets_view(self.samples@),
            tokens: self.tokens@,
            wanted: self.wanted@,
        }
    }
}

/// The error of a sample that was not read.
pub open spec fn missing_sample(i: int) -> errors::ErrorView {
    errors::ErrorView::InvalidFormat("missing thumbnail sample "@ + text::decimal(i as nat))
}

/// `n` samples from `first` on taken out of those read, and what is left.
pub open spec fn taken(read: Map<u32, Vec<u8>>, first: int, n: int) -> Result<
    (Seq<Seq<u8>>, Map<u32, Vec<u8>>),
    errors::ErrorView,
>
    decreases n,
{
    if n <= 0 {
        Ok((Seq::empty(), read))
    } else {
        match taken(read, first, n - 1) {
            Ok((list, left)) => {
                let i = (first + n - 1) as u32;
                if left.contains_key(i) {
                    Ok((list.push(left[i]@), left.remove(i)))
                } else {
                    Err(missing_sample(i as int))
                }
            },
            Err(e) => Err(e),
        }
    }
}

/// The decode job of a plan, and what is left of the samples read.
pub open spec fn job_of(
    found: super::tables::VideoTablesView,
    job: JobPlan,
    read: Map<u32, Vec<u8>>,
) -> Result<(JobView, Map<u32, Vec<u8>>), errors::ErrorView> {
    match index::config_for(found, job.gop.start_sample, job.gop.end_sample) {
        Ok(config) => if !plan::countable(job.gop) {
            Err(errors::ErrorView::InvalidFormat("thumbnail GOP is too large"@))
        } else {
            match taken(read, job.gop.start_sample as int, plan::gop_len(job.gop)) {
                Ok((samples, left)) => Ok(
                    (
                        JobView {
                            gop: job.gop,
                            config,
                            samples,
                            tokens: job.tokens@,
                            wanted: job.wanted@,
                        },
                        left,
                    ),
                ),
                Err(e) => Err(e),
            }
        },
        Err(e) => Err(e),
    }
}

/// The decode jobs of the first `n` plans, and what is left of the samples read.
pub open spec fn jobs_of(
    found: super::tables::VideoTablesView,
    plans: Seq<JobPlan>,
    read: Map<u32, Vec<u8>>,
    n: int,
) -> Result<(Seq<JobView>, Map<u32, Vec<u8>>), errors::ErrorView>
    decreases n,
{
    if n <= 0 {
        Ok((Seq::empty(), read))
    } else {
        match jobs_of(found, plans, read, n - 1) {
            Ok((list, left)) => match job_of(found, plans[n - 1], left) {
                Ok((job, rest)) => Ok((list.push(job), rest)),
                Err(e) => Err(e),
            },
            Err(e) => Err(e),
        }
    }
}

proof fn lemma_taken_fails(read: Map<u32, Vec<u8>>, first: int, k: int, n: int)
    requires
        0 <= k <= n,
        taken(read, first, k) is Err,
    ensures
        taken(read, first, n) == taken(read, first, k),
    decreases n,
{
    if k < n {
        lemma_taken_fails(read, first, k, n - 1);
    }
}

proof fn lemma_jobs_fail(
    found: super::tables::VideoTablesView,
    plans: Seq<JobPlan>,
    read: Map<u32, Vec<u8>>,
    k: int,
    n: int,
)
    requires
        0 <= k <= n,
        jobs_of(found, plans, read, k) is Err,
    ensures
        jobs_of(found, plans, read, n) == jobs_of(found, plans, read, k),
    decreases n,
{
    if k < n {
        lemma_jobs_fail(found, plans, read, k, n - 1);
    }
}

/// Takes the samples of a group out of those read.
fn take_samples(read: &mut HashMap<u32, Vec<u8>>, gop: Gop) -> (r: Result<
    Vec<Vec<u8>>,
    MediaParserError,
>)
    requires
        plan::countable(gop),
    ensures
        match taken(old(read)@, gop.start_sample as int, plan::gop_len(gop)) {
            Ok((list, left)) => r matches Ok(samples) && h264::sets_view(samples@) == list
                && final(read)@ == left,
            Err(error) => r matches Err(e) && e@ == error,
        },
{
    broadcast use vstd::std_specs::hash::group_hash_axioms;

    let ghost given = read@;
    let ghost first = gop.start_sample as int;
    let ghost n = plan::gop_len(gop);
    let mut samples: Vec<Vec<u8>> = Vec::new();
    let mut done: u32 = 0;
    let count: u32 = gop.end_sample - gop.start_sample + 1;
    assert(h264::sets_view(samples@) =~= Seq::empty());
    while done < count
        invariant
            done <= count,
            count == n,
            n == plan::gop_len(gop),
            first == gop.start_sample,
            given == old(read)@,
            taken(given, first, done as int) == Ok::<
                (Seq<Seq<u8>>, Map<u32, Vec<u8>>),
                errors::ErrorView,
            >((h264::sets_view(samples@), read@)),
        decreases count - done,
    {
        broadcast use vstd::std_specs::hash::group_hash_axioms;

        let index: u32 = gop.start_sample + done;
        let ghost before = h264::sets_view(samples@);
        let ghost had = read@;
        match read.remove(&index) {
            Some(sample) => {
                let ghost added = sample@;
                samples.push(sample);
                assert(h264::sets_view(samples@) =~= before.push(added));
            },
            None => {
                proof {
                    lemma_taken_fails(given, first, done + 1, n);
                }
                return Err(
                    MediaParserError::InvalidFormat(
                        joined(
                            "missing thumbnail sample ",
                            decimal_text(index as u64).as_str(),
                        ),
                    ),
                );
            },
        }
        done = done + 1;
    }
    Ok(samples)
}

/// The decode jobs of plans, with the samples that were read for them.
pub fn build_decode_jobs(
    plans: Vec<JobPlan>,
    found: &VideoSampleTables,
    samples: HashMap<u32, Vec<u8>>,
) -> (r: Result<Vec<DecodeJob>, MediaParserError>)
    ensures
        match jobs_of(found@, plans@, samples@, plans@.len() as int) {
            Ok((list, _)) => r matches Ok(jobs) && jobs@.len() == list.len() && forall|k: int|
                0 <= k < list.len() ==> (#[trigger] jobs@[k])@ == list[k],
            Err(error) => r matches Err(e) && e@ == error,
        },
{
    let mut left: HashMap<u32, Vec<u8>> = samples;
    let mut rest: Vec<JobPlan> = plans;
    let count: usize = rest.len();
    let mut jobs: Vec<DecodeJob> = Vec::new();
    let mut i: usize = 0;
    while i < count
        invariant
            i <= count,
            count == plans@.len(),
            rest@.len() == count,
            jobs@.len() == i,
            forall|k: int| i <= k < count ==> #[trigger] rest@[k] == plans@[k],
            match jobs_of(found@, plans@, samples@, i as int) {
                Ok((list, unread)) => list.len() == i && unread == left@ && forall|k: int|
                    0 <= k < i ==> (#[trigger] jobs@[k])@ == list[k],
                Err(_) => false,
            },
        decreases count - i,
    {
        let ghost before = jobs@;
        let gop: Gop = rest[i].gop;
        assert(rest@[i as int] == plans@[i as int]);
        let avc_config: Arc<AvcConfig> = match avc_config_for_range(
            found,
            gop.start_sample,
            gop.end_sample,
        ) {
            Ok(config) => config.clone(),
            Err(e) => {
                proof {
                    lemma_jobs_fail(found@, plans@, samples@, i + 1, count as int);
                }
                return Err(e);
            },
        };
        if gop_sample_count(gop).is_err() {
            proof {
                lemma_jobs_fail(found@, plans@, samples@, i + 1, count as int);
            }
            return Err(MediaParserError::invalid("thumbnail GOP is too large"));
        }
        let gop_samples: Vec<Vec<u8>> = match take_samples(&mut left, gop) {
            Ok(list) => list,
            Err(e) => {
                proof {
                    lemma_jobs_fail(found@, plans@, samples@, i + 1, count as int);
                }
                return Err(e);
            },
        };
        let mut tokens: Vec<FrameToken> = Vec::new();
        std::mem::swap(&mut tokens, &mut rest[i].tokens);
        let mut wanted: Vec<(FrameToken, usize)> = Vec::new();
        std::mem::swap(&mut wanted, &mut rest[i].wanted);
        jobs.push(DecodeJob { gop, avc_config, samples: gop_samples, tokens, wanted });
        proof {
            let list = jobs_of(found@, plans@, samples@, i + 1)->Ok_0.0;
            assert forall|k: int| 0 <= k < i + 1 implies (#[trigger] jobs@[k])@ == list[k] by {
                if k < i {
                    assert(before[k]@ == list[k]);
                }
            }
        }
        i = i + 1;
    }
    Ok(jobs)
}

/// Whether data is what was read of sample `i`.
pub open spec fn was_read(read: Map<u32, Vec<u8>>, i: int, data: Seq<u8>) -> bool {
    read.contains_key(i as u32) && data == read[i as u32]@
}

/// The samples of a decode job are those read for its group, in decoding order.
pub proof fn law_job_holds_the_samples_of_its_group(
    found: super::tables::VideoTablesView,
    job: JobPlan,
    read: Map<u32, Vec<u8>>,
)
    requires
        job_of(found, job, read) is Ok,
    ensures
        ({
            let made = job_of(found, job, read)->Ok_0.0;
            &&& made.samples.len() == plan::gop_len(job.gop)
            &&& forall|k: int|
                0 <= k < made.samples.len() ==> was_read(
                    read,
                    job.gop.start_sample + k,
                    #[trigger] made.samples[k],
                )
        }),
{
    lemma_taken(read, job.gop.start_sample as int, plan::gop_len(job.gop));
}

proof fn lemma_taken(read: Map<u32, Vec<u8>>, first: int, n: int)
    requires
        0 <= first,
        0 <= n,
        first + n - 1 <= u32::MAX,
        taken(read, first, n) is Ok,
    ensures
        ({
            let (list, left) = taken(read, first, n)->Ok_0;
            &&& list.len() == n
            &&& forall|k: int| 0 <= k < n ==> was_read(read, first + k, #[trigger] list[k])
            &&& left.submap_of(read)
        }),
    decreases n,
{
    if n > 0 {
        lemma_taken(read, first, n - 1);
        let (before, rest) = taken(read, first, n - 1)->Ok_0;
        let (list, left) = taken(read, first, n)->Ok_0;
        assert forall|k: int| 0 <= k < n implies was_read(read, first + k, #[trigger] list[k]) by {
            if k < n - 1 {
                assert(list[k] == before[k]);
            }
        }
    }
}

/// A decoded image is found by its group and its token. What is found is an image
/// of that group and token, and the one decoded where there is only one.
pub proof fn law_decoded_image_is_found(
    decoded: Seq<(Gop, Vec<(FrameToken, DecodedImage)>)>,
    d: int,
    k: int,
)
    requires
        0 <= d < decoded.len(),
        0 <= k < decoded[d].1@.len(),
    ensures
        ({
            let images = flattened(decoded, decoded.len() as int);
            let key = (decoded[d].0, decoded[d].1@[k].0);
            &&& place_of(images, key, images.len() as int) matches Some(p) && 0 <= p < images.len()
                && images[p].0 == key
            &&& (forall|e: int, m: int|
                0 <= e < decoded.len() && 0 <= m < (#[trigger] decoded[e]).1@.len() && (e != d || m
                    != k) ==> (decoded[e].0, (#[trigger] decoded[e].1@[m]).0) != key) ==> images[
            place_of(images, key, images.len() as int)->0].1 == decoded[d].1@[k].1
        }),
{
    let n = decoded.len() as int;
    let images = flattened(decoded, n);
    let key = (decoded[d].0, decoded[d].1@[k].0);
    let at = lemma_flattened_holds(decoded, n, d, k);
    lemma_place_found(images, key, images.len() as int, at);
    let p = place_of(images, key, images.len() as int)->0;
    let (e, m) = lemma_flattened_from(decoded, n, p);
    assert(images[p].0 == (decoded[e].0, decoded[e].1@[m].0));
}

/// An image that was not decoded is not found.
pub proof fn law_other_images_are_missing(
    decoded: Seq<(Gop, Vec<(FrameToken, DecodedImage)>)>,
    key: (Gop, FrameToken),
)
    requires
        forall|e: int, m: int|
            0 <= e < decoded.len() && 0 <= m < (#[trigger] decoded[e]).1@.len() ==> (
            decoded[e].0,
            (#[trigger] decoded[e].1@[m]).0,
        ) != key,
    ensures
        ({
            let images = flattened(decoded, decoded.len() as int);
            place_of(images, key, images.len() as int) is None
        }),
{
    let n = decoded.len() as int;
    let images = flattened(decoded, n);
    lemma_place(images, key, images.len() as int);
    if place_of(images, key, images.len() as int) is Some {
        let p = place_of(images, key, images.len() as int)->0;
        let (e, m) = lemma_flattened_from(decoded, n, p);
        assert(images[p].0 == (decoded[e].0, decoded[e].1@[m].0));
    }
}

/// A target is missing where its image is not found, and the first such is told.
pub proof fn law_first_missing_target(
    targets: Seq<ExactTarget>,
    images: Seq<((Gop, FrameToken), DecodedImage)>,
    k: int,
)
    requires
        0 <= k < targets.len(),
        forall|i: int|
            0 <= i < k ==> place_of(
                images,
                key_of(#[trigger] targets[i]),
                images.len() as int,
            ) is Some,
        place_of(images, key_of(targets[k]), images.len() as int) is None,
    ensures
        first_missing(targets, images, 0) == Some(targets[k]),
{
    lemma_first_missing(targets, images, 0, k);
}

proof fn lemma_first_missing(
    targets: Seq<ExactTarget>,
    images: Seq<((Gop, FrameToken), DecodedImage)>,
    j: int,
    k: int,
)
    requires
        0 <= j <= k < targets.len(),
        forall|i: int|
            0 <= i < k ==> place_of(
                images,
                key_of(#[trigger] targets[i]),
                images.len() as int,
            ) is Some,
        place_of(images, key_of(targets[k]), images.len() as int) is None,
    ensures
        first_missing(targets, images, j) == Some(targets[k]),
    decreases k - j,
{
    if j < k {
        assert(place_of(images, key_of(targets[j]), images.len() as int) is Some);
        lemma_first_missing(targets, images, j + 1, k);
    }
}

proof fn lemma_place(
    images: Seq<((Gop, FrameToken), DecodedImage)>,
    key: (Gop, FrameToken),
    n: int,
)
    requires
        n <= images.len(),
    ensures
        place_of(images, key, n) matches Some(p) ==> 0 <= p < n && images[p].0 == key,
    decreases n,
{
    if n > 0 {
        lemma_place(images, key, n - 1);
    }
}

proof fn lemma_place_found(
    images: Seq<((Gop, FrameToken), DecodedImage)>,
    key: (Gop, FrameToken),
    n: int,
    at: int,
)
    requires
        0 <= at < n <= images.len(),
        images[at].0 == key,
    ensures
        place_of(images, key, n) matches Some(p) && at <= p < n && images[p].0 == key,
    decreases n,
{
    if images[n - 1].0 != key {
        lemma_place_found(images, key, n - 1, at);
    }
}

/// Where an image of a group stands among all.
proof fn lemma_flattened_holds(
    decoded: Seq<(Gop, Vec<(FrameToken, DecodedImage)>)>,
    n: int,
    d: int,
    k: int,
) -> (at: int)
    requires
        0 <= d < n <= decoded.len(),
        0 <= k < decoded[d].1@.len(),
    ensures
        0 <= at < flattened(decoded, n).len(),
        flattened(decoded, n)[at] == ((decoded[d].0, decoded[d].1@[k].0), decoded[d].1@[k].1),
    decreases n,
{
    let before = flattened(decoded, n - 1);
    if d == n - 1 {
        before.len() + k
    } else {
        let at = lemma_flattened_holds(decoded, n - 1, d, k);
        assert(flattened(decoded, n)[at] == before[at]);
        at
    }
}

/// Which group an image among all comes from.
proof fn lemma_flattened_from(
    decoded: Seq<(Gop, Vec<(FrameToken, DecodedImage)>)>,
    n: int,
    p: int,
) -> (r: (int, int))
    requires
        0 <= n <= decoded.len(),
        0 <= p < flattened(decoded, n).len(),
    ensures
        0 <= r.0 < n,
        0 <= r.1 < decoded[r.0].1@.len(),
        flattened(decoded, n)[p] == (
            (decoded[r.0].0, decoded[r.0].1@[r.1].0),
            decoded[r.0].1@[r.1].1,
        ),
    decreases n,
{
    let before = flattened(decoded, n - 1);
    if p < before.len() {
        assert(flattened(decoded, n)[p] == before[p]);
        lemma_flattened_from(decoded, n - 1, p)
    } else {
        (n - 1, p - before.len())
    }
}

} // verus!
