//! AVC sample entries.

use vstd::prelude::*;
use super::budget::TableParseError;
use super::media::visual_dimensions;
use super::read;
use super::read::iter_boxes;
use crate::boxes;
use crate::boxes::{same_type, tail, type_at};
use crate::bytes;
use crate::bytes::read_u16_be;
use crate::decoders::h264;
use crate::decoders::h264::{AvcColorMetadata, AvcConfig, MAX_AVC_PARAMETER_SET_BYTES};
use crate::helpers::entries;
use crate::helpers::entries::set_at;
use crate::tags::Tag;

verus! {

/// The color that is known of a track without a color box.
pub open spec fn no_color() -> AvcColorMetadata {
    AvcColorMetadata { matrix_coefficients: None, full_range: None }
}

/// What a `colr` payload says of the color, where it is of a known type and
/// long enough to hold the matrix. The matrix number 2 leaves it open. Only
/// an `nclx` payload tells the range, in the flags behind the matrix.
pub open spec fn color_of(payload: Seq<u8>) -> Option<AvcColorMetadata> {
    if payload.len() < 10 || (payload.subrange(0, 4) != Tag::Nclx.code() && payload.subrange(0, 4)
        != Tag::Nclc.code()) {
        None
    } else {
        Some(
            AvcColorMetadata {
                matrix_coefficients: if bytes::be16(payload, 8) == 2 {
                    None
                } else {
                    Some(bytes::be16(payload, 8))
                },
                full_range: if payload.subrange(0, 4) == Tag::Nclx.code() && payload.len() > 10 {
                    Some(payload[10] >= 128)
                } else {
                    None
                },
            },
        )
    }
}

/// The color of the first usable `colr` box of a list.
pub open spec fn first_color(list: Seq<(Seq<u8>, Seq<u8>)>) -> Option<AvcColorMetadata>
    decreases list.len(),
{
    if list.len() == 0 {
        None
    } else if list[0].0 == Tag::Colr.code() && color_of(list[0].1) is Some {
        color_of(list[0].1)
    } else {
        first_color(list.skip(1))
    }
}

/// `n` length-prefixed parameter sets from `pos` on, and where they end.
pub open spec fn sets_from(data: Seq<u8>, pos: int, n: nat) -> Option<(Seq<Seq<u8>>, int)>
    decreases n,
{
    if n == 0 {
        Some((Seq::empty(), pos))
    } else {
        match sets_from(data, pos, (n - 1) as nat) {
            Some((sets, end)) => match entries::parameter_set(data, end) {
                Some(set) => Some((sets.push(set), end + 2 + set.len() as int)),
                None => None,
            },
            None => None,
        }
    }
}

/// The decoder configuration in the payload of an AVC sample entry: the
/// parameter sets of its first `avcC` box, the color of its first usable
/// `colr` box and the displayed size.
pub open spec fn config_of(entry: Seq<u8>) -> Option<h264::AvcConfigView> {
    if entry.len() < 78 {
        None
    } else {
        let children = read::boxes_in(entry.skip(78));
        match entries::first_of(children, Tag::AvcC.code()) {
            Some(avcc) => if avcc.len() < 7 || avcc[0] != 1 {
                None
            } else {
                match sets_from(avcc, 6, (avcc[5] % 32) as nat) {
                    Some((sps, pos)) => if pos >= avcc.len() {
                        None
                    } else {
                        match sets_from(avcc, pos + 1, avcc[pos] as nat) {
                            Some((pps, end)) => Some(
                                h264::AvcConfigView {
                                    length_size: (avcc[4] % 4 + 1) as usize,
                                    sps,
                                    pps,
                                    color: match first_color(children) {
                                        Some(color) => color,
                                        None => no_color(),
                                    },
                                    display_width: bytes::be16(entry, 24) as u32,
                                    display_height: bytes::be16(entry, 26) as u32,
                                    max_input_size: None,
                                    resolved_full_range: None,
                                },
                            ),
                            None => None,
                        }
                    },
                    None => None,
                }
            },
            None => None,
        }
    }
}

/// What an optional configuration holds.
pub open spec fn config_view(config: Option<AvcConfig>) -> Option<h264::AvcConfigView> {
    match config {
        Some(c) => Some(c@),
        None => None,
    }
}

/// The bytes in a list of parameter sets.
pub open spec fn set_bytes(sets: Seq<Seq<u8>>) -> int
    decreases sets.len(),
{
    if sets.len() == 0 {
        0
    } else {
        set_bytes(sets.drop_last()) + sets.last().len()
    }
}

/// Reads the matrix and range hints from an `nclx`/`nclc` colour box.
///
/// `None` for other parameter types and for bodies too short to carry a
/// matrix, so that the caller keeps looking at later `colr` boxes. Colour is
/// a presentation hint: an unreadable one never invalidates the `avcC` it
/// sits next to.
fn parse_colr(payload: &[u8]) -> (r: Option<AvcColorMetadata>)
    ensures
        r == color_of(payload@),
{
    if payload.len() < 10 {
        return None;
    }
    let nclx: bool = type_at(payload, 0, &Tag::Nclx.bytes());
    if !nclx && !type_at(payload, 0, &Tag::Nclc.bytes()) {
        return None;
    }
    let matrix: u16 = match read_u16_be(payload, 8) {
        Some(v) => v,
        None => {
            return None;
        },
    };
    Some(
        AvcColorMetadata {
            matrix_coefficients: if matrix == 2 {
                None
            } else {
                Some(matrix)
            },
            full_range: if nclx && payload.len() > 10 {
                Some(payload[10] >= 128)
            } else {
                None
            },
        },
    )
}

/// A list that breaks off stays broken off.
proof fn lemma_sets_break_off(data: Seq<u8>, pos: int, k: nat, n: nat)
    requires
        k <= n,
        sets_from(data, pos, k) is None,
    ensures
        sets_from(data, pos, n) is None,
    decreases n,
{
    if k < n {
        lemma_sets_break_off(data, pos, k, (n - 1) as nat);
    }
}

/// `n` length-prefixed parameter sets from `pos` on, and where they end.
fn parse_sets(data: &[u8], pos: usize, n: u8) -> (r: Option<(Vec<Vec<u8>>, usize)>)
    requires
        pos <= data@.len(),
    ensures
        match r {
            Some((sets, end)) => sets_from(data@, pos as int, n as nat) == Some(
                (h264::sets_view(sets@), end as int),
            ) && end <= data@.len(),
            None => sets_from(data@, pos as int, n as nat) is None,
        },
{
    let mut sets: Vec<Vec<u8>> = Vec::new();
    let mut end: usize = pos;
    let mut i: u8 = 0;
    let len: usize = data.len();
    assert(h264::sets_view(sets@) =~= Seq::empty());
    while i < n
        invariant
            i <= n,
            len == data@.len(),
            pos <= data@.len(),
            end <= data@.len(),
            sets_from(data@, pos as int, i as nat) == Some((h264::sets_view(sets@), end as int)),
        decreases n - i,
    {
        let ghost before = sets@;
        match set_at(data, end) {
            Some(set) => {
                assert(end + 2 + set@.len() <= len);
                end = end + 2 + set.len();
                let ghost added = set@;
                sets.push(set);
                assert(h264::sets_view(sets@) =~= h264::sets_view(before).push(added));
            },
            None => {
                proof {
                    lemma_sets_break_off(data@, pos as int, (i + 1) as nat, n as nat);
                }
                return None;
            },
        }
        i = i + 1;
    }
    Some((sets, end))
}

/// The decoder configuration in the payload of an AVC sample entry.
pub fn parse_avc_config(sample_entry_payload: &[u8]) -> (r: Option<AvcConfig>)
    ensures
        config_view(r) == config_of(sample_entry_payload@),
{
    if sample_entry_payload.len() < 78 {
        return None;
    }
    let (display_width, display_height): (Option<u32>, Option<u32>) = visual_dimensions(
        sample_entry_payload,
    );
    let children: &[u8] = tail(sample_entry_payload, 78);
    let ghost list = read::boxes_in(children@);
    let mut avcc: Option<&[u8]> = None;
    let mut color: Option<AvcColorMetadata> = None;
    let mut it = iter_boxes(children);
    loop
        invariant
            entries::first_of(list, Tag::AvcC.code()) == (match avcc {
                Some(found) => Some(found@),
                None => entries::first_of(it@, Tag::AvcC.code()),
            }),
            first_color(list) == (match color {
                Some(found) => Some(found),
                None => first_color(it@),
            }),
        ensures
            entries::first_of(list, Tag::AvcC.code()) == boxes::slice_view(avcc),
            first_color(list) == color,
        decreases it@.len(),
    {
        match it.next() {
            Some((fourcc, payload)) => {
                if same_type(&fourcc, &Tag::AvcC.bytes()) {
                    if avcc.is_none() {
                        avcc = Some(payload);
                    }
                } else if same_type(&fourcc, &Tag::Colr.bytes()) && color.is_none() {
                    color = parse_colr(payload);
                }
                assert(Tag::AvcC.code()[0] != Tag::Colr.code()[0]);
            },
            None => {
                break;
            },
        }
    }
    let avcc: &[u8] = match avcc {
        Some(found) => found,
        None => {
            return None;
        },
    };
    if avcc.len() < 7 || avcc[0] != 1 {
        return None;
    }
    let (sps, pos): (Vec<Vec<u8>>, usize) = match parse_sets(avcc, 6, avcc[5] % 32) {
        Some(found) => found,
        None => {
            return None;
        },
    };
    if pos >= avcc.len() {
        return None;
    }
    let (pps, _end): (Vec<Vec<u8>>, usize) = match parse_sets(avcc, pos + 1, avcc[pos]) {
        Some(found) => found,
        None => {
            return None;
        },
    };
    match (display_width, display_height) {
        (Some(display_width), Some(display_height)) => Some(
            AvcConfig {
                length_size: (avcc[4] % 4 + 1) as usize,
                sps,
                pps,
                color: match color {
                    Some(found) => found,
                    None => AvcColorMetadata { matrix_coefficients: None, full_range: None },
                },
                display_width,
                display_height,
                max_input_size: None,
                resolved_full_range: None,
            },
        ),
        _ => None,
    }
}

/// Whether a list of parameter sets leaves a byte budget, and how much of it.
fn bytes_left(sets: &Vec<Vec<u8>>, budget: usize) -> (r: Option<usize>)
    ensures
        match r {
            Some(left) => left == budget - set_bytes(h264::sets_view(sets@)),
            None => set_bytes(h264::sets_view(sets@)) > budget,
        },
{
    let mut left: usize = budget;
    let mut i: usize = 0;
    let ghost all = h264::sets_view(sets@);
    assert(all.take(0) =~= Seq::empty());
    while i < sets.len()
        invariant
            i <= sets@.len(),
            all == h264::sets_view(sets@),
            left == budget - set_bytes(all.take(i as int)),
        decreases sets@.len() - i,
    {
        proof {
            assert(all.take(i + 1).drop_last() =~= all.take(i as int));
            lemma_set_bytes_grow(all, i + 1);
        }
        if sets[i].len() > left {
            return None;
        }
        left = left - sets[i].len();
        i = i + 1;
    }
    assert(all.take(all.len() as int) =~= all);
    Some(left)
}

/// The first sets of a list have no more bytes than the whole list.
proof fn lemma_set_bytes_grow(sets: Seq<Seq<u8>>, k: int)
    requires
        0 <= k <= sets.len(),
    ensures
        set_bytes(sets.take(k)) <= set_bytes(sets),
    decreases sets.len(),
{
    if k == sets.len() {
        assert(sets.take(k) =~= sets);
    } else {
        lemma_set_bytes_grow(sets.drop_last(), k);
        assert(sets.drop_last().take(k) =~= sets.take(k));
    }
}

/// The decoder configuration in the payload of an AVC sample entry, refused
/// where its parameter sets take more than `MAX_AVC_PARAMETER_SET_BYTES`.
pub fn parse_avc_config_checked(sample_entry_payload: &[u8]) -> (r: Result<
    Option<AvcConfig>,
    TableParseError,
>)
    ensures
        match config_of(sample_entry_payload@) {
            Some(c) => if set_bytes(c.sps) + set_bytes(c.pps) > MAX_AVC_PARAMETER_SET_BYTES {
                r == Err::<Option<AvcConfig>, TableParseError>(TableParseError::BudgetExceeded)
            } else {
                r matches Ok(Some(found)) && found@ == c
            },
            None => r matches Ok(None),
        },
{
    match parse_avc_config(sample_entry_payload) {
        Some(config) => {
            let left: Option<usize> = match bytes_left(&config.sps, MAX_AVC_PARAMETER_SET_BYTES) {
                Some(left) => bytes_left(&config.pps, left),
                None => {
                    proof {
                        lemma_set_bytes_grow(config@.pps, 0);
                        assert(config@.pps.take(0) =~= Seq::empty());
                    }
                    None
                },
            };
            if left.is_none() {
                Err(TableParseError::BudgetExceeded)
            } else {
                Ok(Some(config))
            }
        },
        None => Ok(None),
    }
}

} // verus!
