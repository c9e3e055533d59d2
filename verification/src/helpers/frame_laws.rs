//! What is told of the frames of written samples.

use vstd::prelude::*;
use crate::bytes;
use crate::decoders::h264::laws;
use crate::helpers::frames;
use crate::helpers::frames::{H264FrameType, TrackerView};

verus! {

/// Whether a unit is a slice of a picture that others do not need to decode.
pub open spec fn is_refresh(unit: Seq<u8>) -> bool {
    unit.len() > 0 && unit[0] % 32 == 5
}

/// Whether a unit is a slice of another picture.
pub open spec fn is_slice(unit: Seq<u8>) -> bool {
    unit.len() > 1 && unit[0] % 32 == 1
}

/// Whether other pictures refer to the one of a unit.
pub open spec fn is_referred_to(unit: Seq<u8>) -> bool {
    unit[0] / 32 % 4 != 0
}

/// Whether all units have lengths of 32 bits.
pub open spec fn fit_words(units: Seq<Seq<u8>>) -> bool {
    forall|i: int| 0 <= i < units.len() ==> (#[trigger] units[i]).len() < 0x1_0000_0000
}

proof fn lemma_first_unit(units: Seq<Seq<u8>>)
    requires
        units.len() > 0,
        fit_words(units),
    ensures
        ({
            let data = laws::prefixed(units, 4);
            let n = units[0].len() as int;
            &&& data.len() >= 4 + n
            &&& bytes::be32(data, 0) == n
            &&& data.skip(4 + n) == laws::prefixed(units.skip(1), 4)
            &&& n > 0 ==> data[4] == units[0][0]
            &&& fit_words(units.skip(1))
        }),
{
    let data = laws::prefixed(units, 4);
    let n = units[0].len() as int;
    reveal_with_fuel(laws::length_bytes, 5);
    assert(laws::length_bytes(n, 4) =~= bytes::be32_bytes(n as u32));
    assert(data.subrange(0, 4) =~= bytes::be32_bytes(n as u32));
    bytes::lemma_be32_roundtrip(data, 0, n as u32);
    assert(data.skip(4 + n) =~= laws::prefixed(units.skip(1), 4));
    let rest = units.skip(1);
    assert forall|i: int| 0 <= i < rest.len() implies (#[trigger] rest[i]).len()
        < 0x1_0000_0000 by {
        assert(rest[i] == units[i + 1]);
    }
}

#[verifier::spinoff_prover]
#[verifier::rlimit(40)]
proof fn lemma_frame_type(units: Seq<Seq<u8>>, seen: H264FrameType)
    requires
        fit_words(units),
    ensures
        ({
            let found = frames::nal_frame_type(laws::prefixed(units, 4), seen);
            &&& (exists|k: int| 0 <= k < units.len() && is_refresh(#[trigger] units[k]))
                ==> found == H264FrameType::IFrame
            &&& (forall|k: int| 0 <= k < units.len() ==> !is_refresh(#[trigger] units[k])) ==> (
            forall|k: int|
                0 <= k < units.len() && is_slice(#[trigger] units[k]) && (forall|j: int|
                    k < j < units.len() ==> !is_slice(#[trigger] units[j])) ==> found == (
                if is_referred_to(units[k]) {
                    H264FrameType::PFrame
                } else {
                    H264FrameType::BFrame
                }))
            &&& (forall|k: int|
                0 <= k < units.len() ==> !is_refresh(#[trigger] units[k]) && !is_slice(units[k]))
                ==> found == seen
        }),
    decreases units.len(),
{
    if units.len() > 0 {
        lemma_first_unit(units);
        let rest = units.skip(1);
        let first = units[0];
        let next = if is_slice(first) {
            if is_referred_to(first) {
                H264FrameType::PFrame
            } else {
                H264FrameType::BFrame
            }
        } else {
            seen
        };
        lemma_frame_type(rest, next);
        let found = frames::nal_frame_type(laws::prefixed(units, 4), seen);
        let later = frames::nal_frame_type(laws::prefixed(rest, 4), next);
        assert(forall|k: int| 0 <= k < rest.len() ==> #[trigger] rest[k] == units[k + 1]);
        if !is_refresh(first) {
            if rest.len() == 0 {
                assert(later == next);
            }
            if laws::prefixed(units, 4).len() > 4 {
                assert(found == later);
            } else {
                assert(first.len() == 0 && laws::prefixed(rest, 4).len() == 0);
                assert(rest.len() == 0) by {
                    if rest.len() > 0 {
                        lemma_first_unit(rest);
                    }
                }
            }
            if exists|k: int| 0 <= k < units.len() && is_refresh(#[trigger] units[k]) {
                let k = choose|k: int| 0 <= k < units.len() && is_refresh(#[trigger] units[k]);
                assert(is_refresh(rest[k - 1]));
            }
            if forall|k: int| 0 <= k < units.len() ==> !is_refresh(#[trigger] units[k]) {
                assert forall|k: int| 0 <= k < rest.len() implies !is_refresh(
                    #[trigger] rest[k],
                ) by {
                    assert(rest[k] == units[k + 1]);
                }
                assert forall|k: int|
                    0 <= k < units.len() && is_slice(#[trigger] units[k]) && (forall|j: int|
                        k < j < units.len() ==> !is_slice(#[trigger] units[j])) implies found == (
                if is_referred_to(units[k]) {
                    H264FrameType::PFrame
                } else {
                    H264FrameType::BFrame
                }) by {
                    if k == 0 {
                        assert forall|j: int| 0 <= j < rest.len() implies !is_refresh(
                            #[trigger] rest[j],
                        ) && !is_slice(rest[j]) by {
                            assert(rest[j] == units[j + 1]);
                        }
                    } else {
                        assert(rest[k - 1] == units[k]);
                        assert forall|j: int| k - 1 < j < rest.len() implies !is_slice(
                            #[trigger] rest[j],
                        ) by {
                            assert(rest[j] == units[j + 1]);
                        }
                    }
                }
            }
            if forall|k: int|
                0 <= k < units.len() ==> !is_refresh(#[trigger] units[k]) && !is_slice(units[k]) {
                assert forall|k: int| 0 <= k < rest.len() implies !is_refresh(#[trigger] rest[k])
                    && !is_slice(rest[k]) by {
                    assert(rest[k] == units[k + 1]);
                }
            }
        }
    }
}

/// The type of a frame is told by its units: one that refreshes the decoder
/// makes an I-frame; otherwise the last slice tells a P-frame where other
/// pictures refer to it, and a B-frame where none does.
pub proof fn law_units_tell_the_frame_type(units: Seq<Seq<u8>>, k: int)
    requires
        fit_words(units),
        0 <= k < units.len(),
    ensures
        ({
            let found = frames::nal_frame_type(
                laws::prefixed(units, 4),
                H264FrameType::Unknown,
            );
            &&& is_refresh(units[k]) ==> found == H264FrameType::IFrame
            &&& is_slice(units[k]) && (forall|j: int|
                0 <= j < units.len() ==> !is_refresh(#[trigger] units[j])) && (forall|j: int|
                k < j < units.len() ==> !is_slice(#[trigger] units[j])) ==> found == (
            if is_referred_to(units[k]) {
                H264FrameType::PFrame
            } else {
                H264FrameType::BFrame
            })
            &&& (forall|j: int|
                0 <= j < units.len() ==> !is_refresh(#[trigger] units[j]) && !is_slice(units[j]))
                ==> found == H264FrameType::Unknown
        }),
{
    lemma_frame_type(units, H264FrameType::Unknown);
}

// --------------------
// Dependencies
// --------------------

/// A frame depends on those from the last sync frame before it on, or from the
/// first frame on where there is none; a sync frame on no other.
pub proof fn law_frame_depends_on_its_group(sync: Seq<u32>, s: int, i: int, f: usize)
    requires
        0 <= s <= i <= usize::MAX,
        s == 0 || frames::is_sync_frame(sync, s),
        forall|j: int| s < j <= i ==> !#[trigger] frames::is_sync_frame(sync, j),
    ensures
        frames::is_sync_frame(sync, i) ==> frames::coarse_dependencies(sync, i).len() == 0,
        !frames::is_sync_frame(sync, i) ==> (frames::coarse_dependencies(sync, i).contains(f)
            <==> s <= f < i),
{
    lemma_last_sync(sync, s, i);
    if !frames::is_sync_frame(sync, i) {
        let list = frames::coarse_dependencies(sync, i);
        if s <= f < i {
            assert(list[f - s] == f);
        }
    }
}

proof fn lemma_last_sync(sync: Seq<u32>, s: int, i: int)
    requires
        0 <= s <= i,
        s == 0 || frames::is_sync_frame(sync, s),
        forall|j: int| s < j <= i ==> !#[trigger] frames::is_sync_frame(sync, j),
    ensures
        frames::last_sync(sync, i) == s,
    decreases i,
{
    if i > s {
        assert(!frames::is_sync_frame(sync, i));
        lemma_last_sync(sync, s, i - 1);
    }
}

/// What a tracker knows after the first `n` frames.
pub open spec fn known_after(t: TrackerView, types: Seq<H264FrameType>, n: int) -> TrackerView
    decreases n,
{
    if n <= 0 {
        t
    } else {
        frames::tracked_next(known_after(t, types, n - 1), types[n - 1])
    }
}

/// A frame depends on the last I-frame and on the last P-frame behind that: a
/// P-frame on the latter, or on the I-frame where there is none; a B-frame on
/// both; an I-frame on none.
pub proof fn law_frame_depends_on_the_frames_before_it(
    t: TrackerView,
    types: Seq<H264FrameType>,
    n: int,
    key: int,
    p: int,
)
    requires
        t.next_index == 0,
        0 <= key < n <= types.len() <= usize::MAX,
        types[key] == H264FrameType::IFrame,
        forall|j: int| key < j < n ==> #[trigger] types[j] != H264FrameType::IFrame,
        key <= p < n,
        p > key ==> types[p] == H264FrameType::PFrame,
        forall|j: int| p < j < n ==> #[trigger] types[j] != H264FrameType::PFrame,
    ensures
        ({
            let now = known_after(t, types, n);
            &&& now.next_index == n
            &&& frames::tracked_dependencies(now, H264FrameType::IFrame).len() == 0
            &&& frames::tracked_dependencies(now, H264FrameType::PFrame) == seq![p as usize]
            &&& frames::tracked_dependencies(now, H264FrameType::BFrame) == (if p > key {
                seq![key as usize, p as usize]
            } else {
                seq![key as usize]
            })
        }),
{
    lemma_tracked(t, types, n, key, p);
}

proof fn lemma_tracked(t: TrackerView, types: Seq<H264FrameType>, n: int, key: int, p: int)
    requires
        t.next_index == 0,
        0 <= key < n <= types.len() <= usize::MAX,
        types[key] == H264FrameType::IFrame,
        forall|j: int| key < j < n ==> #[trigger] types[j] != H264FrameType::IFrame,
        key <= p < n,
        p > key ==> types[p] == H264FrameType::PFrame,
        forall|j: int| p < j < n ==> #[trigger] types[j] != H264FrameType::PFrame,
    ensures
        known_after(t, types, n).next_index == n,
        known_after(t, types, n).last_keyframe == key,
        known_after(t, types, n).last_p_frame == (if p > key {
            Some(p as usize)
        } else {
            None
        }),
    decreases n,
{
    lemma_tracked_index(t, types, n - 1);
    if key < n - 1 {
        assert(types[n - 1] != H264FrameType::IFrame);
        if p < n - 1 {
            assert(types[n - 1] != H264FrameType::PFrame);
            lemma_tracked(t, types, n - 1, key, p);
        } else {
            lemma_key(t, types, n - 1, key);
        }
    }
}

proof fn lemma_tracked_index(t: TrackerView, types: Seq<H264FrameType>, n: int)
    requires
        t.next_index == 0,
        0 <= n,
    ensures
        known_after(t, types, n).next_index == n,
    decreases n,
{
    if n > 0 {
        lemma_tracked_index(t, types, n - 1);
    }
}

proof fn lemma_key(t: TrackerView, types: Seq<H264FrameType>, n: int, key: int)
    requires
        t.next_index == 0,
        0 <= key < n <= types.len() <= usize::MAX,
        types[key] == H264FrameType::IFrame,
        forall|j: int| key < j < n ==> #[trigger] types[j] != H264FrameType::IFrame,
    ensures
        known_after(t, types, n).last_keyframe == key,
    decreases n,
{
    lemma_tracked_index(t, types, n - 1);
    if key < n - 1 {
        assert(types[n - 1] != H264FrameType::IFrame);
        lemma_key(t, types, n - 1, key);
    }
}

} // verus!
