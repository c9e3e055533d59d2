//! Frame types and frame dependencies of H.264 tracks.

use vstd::prelude::*;
use crate::bytes;
use crate::bytes::read_u32_be;

verus! {

/// Frame type information for H.264 video frames
#[derive(Debug, Clone, Copy, PartialEq, Eq, Structural)]
pub enum H264FrameType {
    /// I-frame (Instantaneous Decoder Refresh): keyframe, can be decoded independently
    IFrame,
    /// P-frame (Predictive): depends on previous frame(s)
    PFrame,
    /// B-frame (Bidirectional): depends on frames before and/or after
    BFrame,
    /// Unknown frame type
    Unknown,
}

impl H264FrameType {
    /// The frame type that a NAL unit type alone tells: only IDR slices are certain.
    pub fn from_nal_type(nal_type: u8) -> (r: Self)
        ensures
            r == (if nal_type == 5 {
                H264FrameType::IFrame
            } else {
                H264FrameType::Unknown
            }),
    {
        if nal_type == 5 {
            H264FrameType::IFrame
        } else {
            H264FrameType::Unknown
        }
    }

    /// Whether a frame of this type is a keyframe.
    pub fn is_keyframe(&self) -> (r: bool)
        ensures
            r == (*self == H264FrameType::IFrame),
    {
        *self == H264FrameType::IFrame
    }
}

/// Information about frame dependencies for accurate frame selection
#[derive(Debug, Clone)]
pub struct FrameDependencyInfo {
    /// Index of this frame (0-based)
    pub frame_index: usize,
    /// Frame type (I/P/B)
    pub frame_type: H264FrameType,
    /// Is this a sync/key frame
    pub is_sync: bool,
    /// Indices of frames this frame depends on
    pub depends_on: Vec<usize>,
}

/// Whether frame `i` (0-based) is among sync sample numbers (1-based).
pub open spec fn is_sync_frame(sync: Seq<u32>, i: int) -> bool {
    exists|k: int| 0 <= k < sync.len() && #[trigger] sync[k] == i + 1
}

/// The last sync frame at or before frame `i`, the first frame where there is none.
pub open spec fn last_sync(sync: Seq<u32>, i: int) -> int
    decreases i,
{
    if i <= 0 || is_sync_frame(sync, i) {
        if i <= 0 {
            0
        } else {
            i
        }
    } else {
        last_sync(sync, i - 1)
    }
}

/// The frames `lo..hi`.
pub open spec fn frame_range(lo: int, hi: int) -> Seq<usize> {
    Seq::new((hi - lo) as nat, |k: int| (lo + k) as usize)
}

/// What frame `i` is taken to depend on when only sync samples are known:
/// nothing for a sync frame, every frame since the last sync frame otherwise.
pub open spec fn coarse_dependencies(sync: Seq<u32>, i: int) -> Seq<usize> {
    if is_sync_frame(sync, i) || last_sync(sync, i) >= i {
        Seq::empty()
    } else {
        frame_range(last_sync(sync, i), i)
    }
}

/// Marks the sync frames among the first `count` frames.
fn sync_marks(sync: &[u32], count: usize) -> (r: Vec<bool>)
    ensures
        r@.len() == count,
        forall|i: int| 0 <= i < count ==> r@[i] == is_sync_frame(sync@, i),
{
    let mut marks: Vec<bool> = Vec::new();
    while marks.len() < count
        invariant
            marks@.len() <= count,
            forall|i: int| 0 <= i < marks@.len() ==> !marks@[i],
        decreases count - marks@.len(),
    {
        marks.push(false);
    }
    let mut k: usize = 0;
    while k < sync.len()
        invariant
            k <= sync@.len(),
            marks@.len() == count,
            forall|i: int|
                0 <= i < count ==> marks@[i] == (exists|j: int|
                    0 <= j < k && #[trigger] sync@[j] == i + 1),
        decreases sync@.len() - k,
    {
        let n: u32 = sync[k];
        if n > 0 && ((n - 1) as usize) < count {
            marks.set((n - 1) as usize, true);
        }
        k = k + 1;
        assert forall|i: int| 0 <= i < count implies marks@[i] == (exists|j: int|
            0 <= j < k && #[trigger] sync@[j] == i + 1) by {
            assert(sync@[k - 1] == n);
            if n == i + 1 {
                assert(sync@[k - 1] == i + 1);
            }
        }
    }
    marks
}

/// Analyze frame dependencies from sync samples to build a dependency map:
/// one entry per frame, in order.
pub fn analyze_frame_dependencies(samples_count: usize, vstss: &[u32]) -> (r: Vec<
    FrameDependencyInfo,
>)
    ensures
        r@.len() == samples_count,
        forall|i: int|
            0 <= i < samples_count ==> {
                let f = #[trigger] r@[i];
                &&& f.frame_index == i
                &&& f.is_sync == is_sync_frame(vstss@, i)
                &&& f.frame_type == (if is_sync_frame(vstss@, i) {
                    H264FrameType::IFrame
                } else {
                    H264FrameType::Unknown
                })
                &&& f.depends_on@ == coarse_dependencies(vstss@, i)
            },
{
    let marks: Vec<bool> = sync_marks(vstss, samples_count);
    let mut deps: Vec<FrameDependencyInfo> = Vec::new();
    let mut last: usize = 0;
    let mut i: usize = 0;
    while i < samples_count
        invariant
            i <= samples_count,
            deps@.len() == i,
            marks@.len() == samples_count,
            forall|j: int| 0 <= j < samples_count ==> marks@[j] == is_sync_frame(vstss@, j),
            last == last_sync(vstss@, i - 1),
            last <= i,
            i > 0 ==> last < i,
            forall|j: int|
                0 <= j < i ==> {
                    let f = #[trigger] deps@[j];
                    &&& f.frame_index == j
                    &&& f.is_sync == is_sync_frame(vstss@, j)
                    &&& f.frame_type == (if is_sync_frame(vstss@, j) {
                        H264FrameType::IFrame
                    } else {
                        H264FrameType::Unknown
                    })
                    &&& f.depends_on@ == coarse_dependencies(vstss@, j)
                },
        decreases samples_count - i,
    {
        let is_sync: bool = marks[i];
        if is_sync {
            last = i;
        }
        assert(last == last_sync(vstss@, i as int));
        let frame_type: H264FrameType = if is_sync {
            H264FrameType::IFrame
        } else {
            H264FrameType::Unknown
        };
        let mut depends_on: Vec<usize> = Vec::new();
        if !is_sync && last < i {
            let mut k: usize = last;
            while k < i
                invariant
                    last <= k <= i,
                    depends_on@ == frame_range(last as int, k as int),
                decreases i - k,
            {
                depends_on.push(k);
                k = k + 1;
                assert(depends_on@ =~= frame_range(last as int, k as int));
            }
        }
        assert(depends_on@ =~= coarse_dependencies(vstss@, i as int));
        deps.push(FrameDependencyInfo { frame_index: i, frame_type, is_sync, depends_on });
        i = i + 1;
    }
    deps
}

/// Whether decoding frame `a` directly needs frame `b`: `a` is no sync frame and lists `b`.
pub open spec fn needs(deps: Seq<FrameDependencyInfo>, a: int, b: int) -> bool {
    &&& 0 <= a < deps.len()
    &&& 0 <= b < deps.len()
    &&& !deps[a].is_sync
    &&& exists|k: int| 0 <= k < deps[a].depends_on@.len() && #[trigger] deps[a].depends_on@[k] == b
}

/// Whether a sequence of frames leads from one to the next by direct need.
pub open spec fn is_need_path(deps: Seq<FrameDependencyInfo>, path: Seq<int>) -> bool {
    &&& path.len() > 0
    &&& 0 <= path[0] < deps.len()
    &&& forall|i: int, j: int|
        0 <= i && j == i + 1 && j < path.len() ==> needs(deps, #[trigger] path[i], #[trigger] path[j])
}

/// Whether decoding frame `target` needs frame `f`, directly or through other
/// frames. A frame needs itself, and nothing is needed through a sync frame.
pub open spec fn is_needed(deps: Seq<FrameDependencyInfo>, target: int, f: int) -> bool {
    exists|path: Seq<int>| #[trigger]
        is_need_path(deps, path) && path[0] == target && path.last() == f
}

proof fn lemma_needed_self(deps: Seq<FrameDependencyInfo>, target: int)
    requires
        0 <= target < deps.len(),
    ensures
        is_needed(deps, target, target),
{
    let path = seq![target];
    assert(is_need_path(deps, path));
    assert(path.last() == target);
}

proof fn lemma_needed_step(deps: Seq<FrameDependencyInfo>, target: int, a: int, b: int)
    requires
        is_needed(deps, target, a),
        needs(deps, a, b),
    ensures
        is_needed(deps, target, b),
{
    let path = choose|path: Seq<int>| #[trigger]
        is_need_path(deps, path) && path[0] == target && path.last() == a;
    let longer = path.push(b);
    assert(is_need_path(deps, longer)) by {
        assert forall|i: int, j: int| 0 <= i && j == i + 1 && j < longer.len() implies needs(
            deps,
            #[trigger] longer[i],
            #[trigger] longer[j],
        ) by {
            if j < path.len() {
                assert(needs(deps, path[i], path[j]));
            } else {
                assert(longer[i] == path.last());
            }
        }
    }
    assert(longer.last() == b);
}

/// Frames marked by a closed marking are all the needed ones.
proof fn lemma_closed_marks(deps: Seq<FrameDependencyInfo>, marks: Seq<bool>, path: Seq<int>)
    requires
        marks.len() == deps.len(),
        is_need_path(deps, path),
        marks[path[0]],
        forall|a: int, b: int|
            0 <= a < deps.len() && 0 <= b < deps.len() && marks[a] && needs(deps, a, b) ==> marks[b],
    ensures
        0 <= path.last() < deps.len(),
        marks[path.last()],
    decreases path.len(),
{
    if path.len() > 1 {
        let init = path.drop_last();
        assert(is_need_path(deps, init)) by {
            assert forall|i: int, j: int| 0 <= i && j == i + 1 && j < init.len() implies needs(
                deps,
                #[trigger] init[i],
                #[trigger] init[j],
            ) by {
                assert(needs(deps, path[i], path[j]));
            }
        }
        lemma_closed_marks(deps, marks, init);
        let n = path.len() as int;
        assert(needs(deps, path[n - 2], path[n - 1]));
        assert(init.last() == path[n - 2]);
    }
}

/// The number of frames not yet marked.
spec fn unmarked(marks: Seq<bool>) -> nat
    decreases marks.len(),
{
    if marks.len() == 0 {
        0
    } else {
        unmarked(marks.drop_last()) + (if marks.last() {
            0nat
        } else {
            1nat
        })
    }
}

proof fn lemma_mark_lowers(marks: Seq<bool>, i: int)
    requires
        0 <= i < marks.len(),
        !marks[i],
    ensures
        unmarked(marks.update(i, true)) + 1 == unmarked(marks),
    decreases marks.len(),
{
    let after = marks.update(i, true);
    if i == marks.len() - 1 {
        assert(after.drop_last() =~= marks.drop_last());
    } else {
        lemma_mark_lowers(marks.drop_last(), i);
        assert(after.drop_last() =~= marks.drop_last().update(i, true));
    }
}

/// Marks every frame that decoding `target` needs.
fn mark_needed(target: usize, deps: &[FrameDependencyInfo]) -> (r: Vec<bool>)
    ensures
        r@.len() == deps@.len(),
        forall|f: int| 0 <= f < deps@.len() ==> r@[f] == is_needed(deps@, target as int, f),
{
    let mut marks: Vec<bool> = Vec::new();
    while marks.len() < deps.len()
        invariant
            marks@.len() <= deps@.len(),
            forall|i: int| 0 <= i < marks@.len() ==> !marks@[i],
        decreases deps@.len() - marks@.len(),
    {
        marks.push(false);
    }
    let mut stack: Vec<usize> = Vec::new();
    stack.push(target);
    proof {
        if target < deps@.len() {
            lemma_needed_self(deps@, target as int);
        }
        assert(stack@[0] == target);
    }
    while stack.len() > 0
        invariant
            marks@.len() == deps@.len(),
            forall|f: int| 0 <= f < deps@.len() && marks@[f] ==> is_needed(deps@, target as int, f),
            forall|k: int|
                0 <= k < stack@.len() && #[trigger] stack@[k] < deps@.len() ==> is_needed(
                    deps@,
                    target as int,
                    stack@[k] as int,
                ),
            target < deps@.len() ==> marks@[target as int] || stack@.contains(target),
            forall|a: int, b: int|
                0 <= a < deps@.len() && 0 <= b < deps@.len() && marks@[a] && #[trigger] needs(
                    deps@,
                    a,
                    b,
                ) ==> marks@[b] || stack@.contains(b as usize),
        decreases unmarked(marks@), stack@.len(),
    {
        let ghost old_stack = stack@;
        let ghost old_marks = marks@;
        let idx: usize = match stack.pop() {
            Some(v) => v,
            None => {
                return marks;
            },
        };
        assert forall|x: usize| old_stack.contains(x) implies x == idx || stack@.contains(x) by {
            let k = choose|k: int| 0 <= k < old_stack.len() && old_stack[k] == x;
            if k < stack@.len() {
                assert(stack@[k] == x);
            }
        }
        if idx < deps.len() && !marks[idx] {
            marks.set(idx, true);
            proof {
                lemma_mark_lowers(old_marks, idx as int);
            }
            if !deps[idx].is_sync {
                let mut k: usize = 0;
                let ghost popped = stack@;
                while k < deps[idx].depends_on.len()
                    invariant
                        idx < deps@.len(),
                        !deps@[idx as int].is_sync,
                        k <= deps@[idx as int].depends_on@.len(),
                        marks@.len() == deps@.len(),
                        is_needed(deps@, target as int, idx as int),
                        forall|j: int|
                            0 <= j < stack@.len() && #[trigger] stack@[j] < deps@.len()
                                ==> is_needed(deps@, target as int, stack@[j] as int),
                        forall|x: usize| popped.contains(x) ==> #[trigger] stack@.contains(x),
                        forall|j: int|
                            0 <= j < k && #[trigger] deps@[idx as int].depends_on@[j] < deps@.len()
                                ==> marks@[deps@[idx as int].depends_on@[j] as int]
                                || stack@.contains(deps@[idx as int].depends_on@[j]),
                    decreases deps@[idx as int].depends_on@.len() - k,
                {
                    let d: usize = deps[idx].depends_on[k];
                    if d >= deps.len() || !marks[d] {
                        let ghost before = stack@;
                        proof {
                            if d < deps@.len() {
                                assert(deps@[idx as int].depends_on@[k as int] == d);
                                assert(needs(deps@, idx as int, d as int));
                                lemma_needed_step(deps@, target as int, idx as int, d as int);
                            }
                        }
                        stack.push(d);
                        assert(stack@[before.len() as int] == d);
                        assert forall|x: usize| before.contains(x) implies #[trigger] stack@.contains(
                            x,
                        ) by {
                            let j = choose|j: int| 0 <= j < before.len() && before[j] == x;
                            assert(stack@[j] == x);
                        }
                    }
                    k = k + 1;
                }
            }
            assert forall|a: int, b: int|
                0 <= a < deps@.len() && 0 <= b < deps@.len() && marks@[a] && #[trigger] needs(
                    deps@,
                    a,
                    b,
                ) implies marks@[b] || stack@.contains(b as usize) by {
                if a == idx {
                    let j = choose|j: int|
                        0 <= j < deps@[a].depends_on@.len() && #[trigger] deps@[a].depends_on@[j]
                            == b;
                    assert(deps@[idx as int].depends_on@[j] == b);
                } else {
                    assert(old_marks[a]);
                }
            }
        }
    }
    assert forall|f: int| 0 <= f < deps@.len() && is_needed(deps@, target as int, f) implies marks@[f] by {
        let path = choose|path: Seq<int>| #[trigger]
            is_need_path(deps@, path) && path[0] == target && path.last() == f;
        lemma_closed_marks(deps@, marks@, path);
    }
    marks
}

/// Find the minimum starting frame index that includes all dependencies for a target frame:
/// the earliest frame that is needed to decode it.
pub fn find_min_start_for_frame(target_index: usize, frame_deps: &[FrameDependencyInfo]) -> (r:
    usize)
    ensures
        target_index >= frame_deps@.len() ==> r == target_index,
        target_index < frame_deps@.len() ==> is_needed(
            frame_deps@,
            target_index as int,
            r as int,
        ) && forall|f: int| #[trigger]
            is_needed(frame_deps@, target_index as int, f) ==> r <= f,
{
    if target_index >= frame_deps.len() {
        return target_index;
    }
    let marks: Vec<bool> = mark_needed(target_index, frame_deps);
    proof {
        lemma_needed_self(frame_deps@, target_index as int);
    }
    let mut i: usize = 0;
    while !marks[i]
        invariant
            i <= target_index < marks@.len(),
            marks@[target_index as int],
            forall|j: int| 0 <= j < i ==> !marks@[j],
        decreases target_index - i,
    {
        i = i + 1;
    }
    assert forall|f: int| #[trigger] is_needed(frame_deps@, target_index as int, f) implies i
        <= f by {
        lemma_needed_in_bounds(frame_deps@, target_index as int, f);
        assert(marks@[f]);
    }
    i
}

proof fn lemma_needed_in_bounds(deps: Seq<FrameDependencyInfo>, target: int, f: int)
    requires
        is_needed(deps, target, f),
    ensures
        0 <= f < deps.len(),
{
    let path = choose|path: Seq<int>| #[trigger]
        is_need_path(deps, path) && path[0] == target && path.last() == f;
    let n = path.len() as int;
    if n > 1 {
        assert(needs(deps, path[n - 2], path[n - 1]));
    }
}

/// Find the frames needed to decode a target frame, in order.
pub fn find_required_frames_for_target(
    target_index: usize,
    frame_deps: &[FrameDependencyInfo],
) -> (r: Vec<usize>)
    ensures
        forall|i: int, j: int| 0 <= i < j < r@.len() ==> r@[i] < r@[j],
        forall|i: int|
            0 <= i < r@.len() ==> is_needed(
                frame_deps@,
                target_index as int,
                #[trigger] r@[i] as int,
            ),
        forall|f: int| #[trigger]
            is_needed(frame_deps@, target_index as int, f) ==> r@.contains(f as usize),
{
    let marks: Vec<bool> = mark_needed(target_index, frame_deps);
    let mut out: Vec<usize> = Vec::new();
    let mut i: usize = 0;
    while i < marks.len()
        invariant
            i <= marks@.len() == frame_deps@.len(),
            forall|f: int|
                0 <= f < frame_deps@.len() ==> marks@[f] == is_needed(
                    frame_deps@,
                    target_index as int,
                    f,
                ),
            forall|a: int, b: int| 0 <= a < b < out@.len() ==> out@[a] < out@[b],
            forall|a: int| 0 <= a < out@.len() ==> #[trigger] out@[a] < i,
            forall|a: int|
                0 <= a < out@.len() ==> is_needed(
                    frame_deps@,
                    target_index as int,
                    #[trigger] out@[a] as int,
                ),
            forall|f: usize| f < i && marks@[f as int] ==> #[trigger] out@.contains(f),
        decreases marks@.len() - i,
    {
        if marks[i] {
            let ghost before = out@;
            out.push(i);
            assert(out@[before.len() as int] == i);
            assert forall|f: usize| f < i + 1 && marks@[f as int] implies #[trigger] out@.contains(
                f,
            ) by {
                if f < i {
                    assert(before.contains(f));
                    let a = choose|a: int| 0 <= a < before.len() && before[a] == f;
                    assert(out@[a] == f);
                }
            }
        }
        i = i + 1;
    }
    assert forall|f: int| #[trigger]
        is_needed(frame_deps@, target_index as int, f) implies out@.contains(f as usize) by {
        lemma_needed_in_bounds(frame_deps@, target_index as int, f);
        assert(marks@[(f as usize) as int]);
    }
    out
}

/// The frame type that the length-prefixed NAL units of a sample tell, where
/// the units before told `seen`: the first IDR slice decides; else the last
/// non-IDR slice, by whether other frames refer to it. A unit that runs past
/// the end of the sample ends the walk.
pub open spec fn nal_frame_type(data: Seq<u8>, seen: H264FrameType) -> H264FrameType
    decreases data.len(),
{
    if data.len() <= 4 || 4 + bytes::be32(data, 0) > data.len() {
        seen
    } else {
        let n = bytes::be32(data, 0) as int;
        let rest = data.skip(4 + n);
        if n == 0 {
            nal_frame_type(rest, seen)
        } else if data[4] % 32 == 5 {
            H264FrameType::IFrame
        } else if data[4] % 32 == 1 && n > 1 {
            nal_frame_type(
                rest,
                if data[4] / 32 % 4 > 0 {
                    H264FrameType::PFrame
                } else {
                    H264FrameType::BFrame
                },
            )
        } else {
            nal_frame_type(rest, seen)
        }
    }
}

/// Parse the NAL unit headers of a sample to determine its frame type. The
/// references of the frame are not read from the slice headers: the second
/// part of the result is always empty.
pub fn parse_h264_nal_dependencies(nal_data: &[u8]) -> (r: (H264FrameType, Vec<usize>))
    ensures
        r.0 == nal_frame_type(nal_data@, H264FrameType::Unknown),
        r.1@.len() == 0,
{
    let mut offset: usize = 0;
    let mut frame_type: H264FrameType = H264FrameType::Unknown;
    let mut more: bool = true;
    assert(nal_data@.skip(0) =~= nal_data@);
    while more && nal_data.len() - offset > 4
        invariant
            offset <= nal_data@.len(),
            more ==> nal_frame_type(nal_data@, H264FrameType::Unknown) == nal_frame_type(
                nal_data@.skip(offset as int),
                frame_type,
            ),
            !more ==> nal_frame_type(nal_data@, H264FrameType::Unknown) == frame_type,
        decreases nal_data@.len() - offset + (if more { 1int } else { 0 }),
    {
        let ghost data = nal_data@.skip(offset as int);
        let n: usize = match read_u32_be(nal_data, offset) {
            Some(v) => v as usize,
            None => 0,
        };
        assert(bytes::be32(nal_data@, offset as int) == bytes::be32(data, 0));
        if n > nal_data.len() - offset - 4 {
            more = false;
        } else {
            assert(nal_data@.skip(offset + 4 + n) =~= data.skip(4 + n));
            if n > 0 {
                let header: u8 = nal_data[offset + 4];
                assert(header == data[4]);
                if header % 32 == 5 {
                    frame_type = H264FrameType::IFrame;
                    more = false;
                } else if header % 32 == 1 && n > 1 {
                    if header / 32 % 4 > 0 {
                        frame_type = H264FrameType::PFrame;
                    } else {
                        frame_type = H264FrameType::BFrame;
                    }
                }
            }
            offset = offset + 4 + n;
        }
    }
    (frame_type, Vec::new())
}

/// Follows the reference frames of a track while its samples are read in order.
pub struct DependencyTracker {
    sync_samples: Vec<u32>,
    next_index: usize,
    last_keyframe: usize,
    last_p_frame: Option<usize>,
}

/// The reference frames that a tracker has seen.
pub struct TrackerView {
    pub sync_samples: Seq<u32>,
    pub next_index: int,
    pub last_keyframe: usize,
    pub last_p_frame: Option<usize>,
}

impl View for DependencyTracker {
    type V = TrackerView;

    closed spec fn view(&self) -> TrackerView {
        TrackerView {
            sync_samples: self.sync_samples@,
            next_index: self.next_index as int,
            last_keyframe: self.last_keyframe,
            last_p_frame: self.last_p_frame,
        }
    }
}

/// What a frame of the given type depends on: a P-frame on the last P-frame,
/// else the last keyframe; a B-frame on the last keyframe and the last
/// P-frame; a frame of unknown type on the last keyframe.
pub open spec fn tracked_dependencies(t: TrackerView, frame_type: H264FrameType) -> Seq<usize> {
    match frame_type {
        H264FrameType::IFrame => Seq::empty(),
        H264FrameType::PFrame => match t.last_p_frame {
            Some(p) => seq![p],
            None => seq![t.last_keyframe],
        },
        H264FrameType::BFrame => match t.last_p_frame {
            Some(p) => seq![t.last_keyframe, p],
            None => seq![t.last_keyframe],
        },
        H264FrameType::Unknown => seq![t.last_keyframe],
    }
}

/// The reference frames after a frame of the given type.
pub open spec fn tracked_next(t: TrackerView, frame_type: H264FrameType) -> TrackerView {
    TrackerView {
        sync_samples: t.sync_samples,
        next_index: t.next_index + 1,
        last_keyframe: if frame_type == H264FrameType::IFrame {
            t.next_index as usize
        } else {
            t.last_keyframe
        },
        last_p_frame: match frame_type {
            H264FrameType::IFrame => None,
            H264FrameType::PFrame => Some(t.next_index as usize),
            _ => t.last_p_frame,
        },
    }
}

impl DependencyTracker {
    /// A tracker at the first frame of a track.
    pub fn new(sync_samples: &[u32]) -> (r: Self)
        ensures
            r@ == (TrackerView {
                sync_samples: sync_samples@,
                next_index: 0,
                last_keyframe: 0,
                last_p_frame: None,
            }),
    {
        let mut copy: Vec<u32> = Vec::new();
        copy.extend_from_slice(sync_samples);
        assert(copy@ =~= sync_samples@);
        DependencyTracker {
            sync_samples: copy,
            next_index: 0,
            last_keyframe: 0,
            last_p_frame: None,
        }
    }

    /// Takes the data of the next sample and tells what it depends on.
    pub fn next(&mut self, sample_data: &[u8]) -> (r: FrameDependencyInfo)
        requires
            old(self)@.next_index < usize::MAX,
        ensures
            final(self)@ == tracked_next(
                old(self)@,
                nal_frame_type(sample_data@, H264FrameType::Unknown),
            ),
            r.frame_index == old(self)@.next_index,
            r.frame_type == nal_frame_type(sample_data@, H264FrameType::Unknown),
            r.is_sync == is_sync_frame(old(self)@.sync_samples, old(self)@.next_index),
            r.depends_on@ == tracked_dependencies(old(self)@, r.frame_type),
    {
        let idx: usize = self.next_index;
        let mut is_sync: bool = false;
        let mut k: usize = 0;
        while k < self.sync_samples.len() && !is_sync
            invariant
                k <= self.sync_samples@.len(),
                self@ == old(self)@,
                idx == self@.next_index,
                is_sync ==> is_sync_frame(self.sync_samples@, idx as int),
                !is_sync ==> forall|j: int| 0 <= j < k ==> #[trigger] self.sync_samples@[j] != idx + 1,
            decreases self.sync_samples@.len() - k + (if is_sync { 0int } else { 1 }),
        {
            let n: u32 = self.sync_samples[k];
            if n > 0 && (n - 1) as usize == idx {
                assert(self.sync_samples@[k as int] == idx + 1);
                is_sync = true;
            } else {
                k = k + 1;
            }
        }
        let (frame_type, _references): (H264FrameType, Vec<usize>) = parse_h264_nal_dependencies(
            sample_data,
        );
        let mut depends_on: Vec<usize> = Vec::new();
        match frame_type {
            H264FrameType::IFrame => {},
            H264FrameType::PFrame => match self.last_p_frame {
                Some(p) => {
                    depends_on.push(p);
                },
                None => {
                    depends_on.push(self.last_keyframe);
                },
            },
            H264FrameType::BFrame => {
                depends_on.push(self.last_keyframe);
                match self.last_p_frame {
                    Some(p) => {
                        depends_on.push(p);
                    },
                    None => {},
                }
            },
            H264FrameType::Unknown => {
                depends_on.push(self.last_keyframe);
            },
        }
        assert(depends_on@ =~= tracked_dependencies(old(self)@, frame_type));
        match frame_type {
            H264FrameType::IFrame => {
                self.last_keyframe = idx;
                self.last_p_frame = None;
            },
            H264FrameType::PFrame => {
                self.last_p_frame = Some(idx);
            },
            _ => {},
        }
        self.next_index = idx + 1;
        FrameDependencyInfo { frame_index: idx, frame_type, is_sync, depends_on }
    }
}

/// A frame needs itself. A sync frame needs nothing else, and any other frame needs
/// what the frames that it lists need.
pub proof fn law_needed_frames(deps: Seq<FrameDependencyInfo>, target: int, by: int, f: int)
    requires
        0 <= target < deps.len(),
        0 <= by < deps.len(),
    ensures
        is_needed(deps, target, target),
        deps[target].is_sync && is_needed(deps, target, f) ==> f == target,
        !deps[target].is_sync && is_needed(deps, by, f) && (exists|k: int|
            0 <= k < deps[target].depends_on@.len() && #[trigger] deps[target].depends_on@[k] == by)
            ==> is_needed(deps, target, f),
{
    assert(is_need_path(deps, seq![target]));
    assert(seq![target].last() == target);
    if deps[target].is_sync && is_needed(deps, target, f) {
        let path = choose|path: Seq<int>| #[trigger]
            is_need_path(deps, path) && path[0] == target && path.last() == f;
        if path.len() > 1 {
            assert(needs(deps, path[0], path[1]));
        }
    }
    if needs(deps, target, by) && is_needed(deps, by, f) {
        let path = choose|path: Seq<int>| #[trigger]
            is_need_path(deps, path) && path[0] == by && path.last() == f;
        let longer = seq![target] + path;
        assert forall|i: int, j: int| 0 <= i && j == i + 1 && j < longer.len() implies needs(
            deps,
            #[trigger] longer[i],
            #[trigger] longer[j],
        ) by {
            if i > 0 {
                assert(longer[i] == path[i - 1] && longer[j] == path[j - 1]);
                assert(needs(deps, path[i - 1], path[j - 1]));
            }
        }
        assert(is_need_path(deps, longer));
        assert(longer.last() == path.last());
    }
}

} // verus!
