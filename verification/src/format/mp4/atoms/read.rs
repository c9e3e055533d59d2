//! Boxes with 32-bit and 64-bit sizes.

use vstd::prelude::*;
use crate::boxes;
use crate::boxes::same_type;
use crate::bytes;
use crate::bytes::{read_u32_be, read_u64_be};
use crate::helpers::entries;

verus! {

/// One box: its type, its payload and its whole size.
#[derive(Debug, Clone, Copy)]
pub struct BoxRead<'a> {
    pub fourcc: [u8; 4],
    pub payload: &'a [u8],
    pub total_size: usize,
}

/// What a box holds.
pub struct BoxView {
    pub fourcc: Seq<u8>,
    pub payload: Seq<u8>,
    pub total_size: int,
}

impl<'a> View for BoxRead<'a> {
    type V = BoxView;

    open spec fn view(&self) -> BoxView {
        BoxView {
            fourcc: self.fourcc@,
            payload: self.payload@,
            total_size: self.total_size as int,
        }
    }
}

/// The length of the header of the box that `data` starts with: a 32-bit
/// size of 1 announces a 64-bit one.
pub open spec fn header_len(data: Seq<u8>) -> int {
    if bytes::be32(data, 0) == 1 {
        16
    } else {
        8
    }
}

/// The declared size of the box that `data` starts with.
pub open spec fn declared_size(data: Seq<u8>) -> int {
    if bytes::be32(data, 0) == 1 {
        bytes::be64(data, 8) as int
    } else {
        bytes::be32(data, 0) as int
    }
}

/// The box that `data` starts with, where it fits.
pub open spec fn first_box(data: Seq<u8>) -> Option<BoxView> {
    if data.len() < 8 || data.len() < header_len(data) || declared_size(data) < header_len(data)
        || declared_size(data) > data.len() {
        None
    } else {
        Some(
            BoxView {
                fourcc: data.subrange(4, 8),
                payload: data.subrange(header_len(data), declared_size(data)),
                total_size: declared_size(data),
            },
        )
    }
}

/// The boxes that `data` starts with, as (type, payload) pairs, up to the
/// first one that does not fit.
pub open spec fn boxes_in(data: Seq<u8>) -> Seq<(Seq<u8>, Seq<u8>)>
    decreases data.len(),
{
    match first_box(data) {
        Some(b) => if 0 < b.total_size <= data.len() {
            seq![(b.fourcc, b.payload)] + boxes_in(data.skip(b.total_size))
        } else {
            Seq::empty()
        },
        None => Seq::empty(),
    }
}

/// The payload of the first box of a type.
pub open spec fn child(data: Seq<u8>, fourcc: Seq<u8>) -> Option<Seq<u8>> {
    entries::first_of(boxes_in(data), fourcc)
}

/// The payload of the first box of a type in a payload that may be absent.
pub open spec fn child_in(data: Option<Seq<u8>>, fourcc: Seq<u8>) -> Option<Seq<u8>> {
    match data {
        Some(d) => child(d, fourcc),
        None => None,
    }
}

/// What an optional box holds.
pub open spec fn box_view(b: Option<BoxRead>) -> Option<BoxView> {
    match b {
        Some(found) => Some(found@),
        None => None,
    }
}

/// Reads the box at `offset`, where it fits.
pub fn read_box(buf: &[u8], offset: usize) -> (r: Option<BoxRead<'_>>)
    ensures
        box_view(r) == (if offset <= buf@.len() {
            first_box(buf@.skip(offset as int))
        } else {
            None
        }),
        r matches Some(b) ==> 8 <= b.total_size <= buf@.len() - offset,
{
    if offset > buf.len() || buf.len() - offset < 8 {
        return None;
    }
    let ghost rest = buf@.skip(offset as int);
    let small: u32 = match read_u32_be(buf, offset) {
        Some(v) => v,
        None => {
            return None;
        },
    };
    assert(bytes::be32(buf@, offset as int) == bytes::be32(rest, 0));
    let room: usize = buf.len() - offset;
    let (header, total): (usize, usize) = if small == 1 {
        if room < 16 {
            return None;
        }
        let wide: u64 = match read_u64_be(buf, offset + 8) {
            Some(v) => v,
            None => {
                return None;
            },
        };
        assert(bytes::be64(buf@, offset + 8) == bytes::be64(rest, 8));
        if wide > room as u64 {
            return None;
        }
        (16, wide as usize)
    } else {
        if small as u64 > room as u64 {
            return None;
        }
        (8, small as usize)
    };
    if total < header {
        return None;
    }
    let fourcc: [u8; 4] = [
        buf[offset + 4],
        buf[offset + 5],
        buf[offset + 6],
        buf[offset + 7],
    ];
    let payload: &[u8] = &buf[offset + header..offset + total];
    proof {
        assert(fourcc@ =~= rest.subrange(4, 8));
        assert(payload@ =~= rest.subrange(header as int, total as int));
    }
    Some(BoxRead { fourcc, payload, total_size: total })
}

/// The (type, payload) pairs that remain to be walked.
pub struct BoxIter<'a> {
    data: &'a [u8],
    offset: usize,
}

impl<'a> View for BoxIter<'a> {
    type V = Seq<(Seq<u8>, Seq<u8>)>;

    closed spec fn view(&self) -> Seq<(Seq<u8>, Seq<u8>)> {
        boxes_in(self.data@.skip(self.offset as int))
    }
}

impl<'a> BoxIter<'a> {
    #[verifier::type_invariant]
    closed spec fn in_bounds(self) -> bool {
        self.offset <= self.data@.len()
    }

    /// Takes the next box off the walk.
    pub fn next(&mut self) -> (r: Option<([u8; 4], &'a [u8])>)
        ensures
            match r {
                Some((fourcc, payload)) => {
                    &&& old(self)@.len() > 0
                    &&& old(self)@[0] == (fourcc@, payload@)
                    &&& final(self)@ == old(self)@.skip(1)
                },
                None => old(self)@.len() == 0 && final(self)@ == old(self)@,
            },
    {
        proof {
            use_type_invariant(&*self);
        }
        let data: &'a [u8] = self.data;
        let offset: usize = self.offset;
        let ghost rest = data@.skip(offset as int);
        let len: usize = data.len();
        match read_box(data, offset) {
            Some(b) => {
                assert(offset + b.total_size <= len);
                proof {
                    assert(data@.skip(offset + b.total_size) =~= rest.skip(b.total_size as int));
                    let all = boxes_in(rest);
                    assert(all.skip(1) =~= boxes_in(rest.skip(b.total_size as int)));
                }
                self.offset = offset + b.total_size;
                Some((b.fourcc, b.payload))
            },
            None => None,
        }
    }
}

/// A walk over the boxes of `data`.
pub fn iter_boxes(data: &[u8]) -> (r: BoxIter<'_>)
    ensures
        r@ == boxes_in(data@),
{
    assert(data@.skip(0) =~= data@);
    BoxIter { data, offset: 0 }
}

/// The payload of the first box of type `fourcc`.
pub fn find_box_ref<'a>(data: &'a [u8], fourcc: &[u8; 4]) -> (r: Option<&'a [u8]>)
    ensures
        boxes::slice_view(r) == child(data@, fourcc@),
{
    let mut it = iter_boxes(data);
    loop
        invariant
            child(data@, fourcc@) == entries::first_of(it@, fourcc@),
        decreases it@.len(),
    {
        match it.next() {
            Some((typ, payload)) => {
                if same_type(&typ, fourcc) {
                    return Some(payload);
                }
            },
            None => {
                return None;
            },
        }
    }
}

/// The payload of the first box of type `fourcc` in a payload that may be absent.
pub fn find_in_ref<'a>(data: Option<&'a [u8]>, fourcc: &[u8; 4]) -> (r: Option<&'a [u8]>)
    ensures
        boxes::slice_view(r) == child_in(boxes::slice_view(data), fourcc@),
{
    match data {
        Some(d) => find_box_ref(d, fourcc),
        None => None,
    }
}

/// A framed payload is read back by both readers alike.
pub proof fn law_written_box_is_read(fourcc: Seq<u8>, payload: Seq<u8>, rest: Seq<u8>)
    requires
        fourcc.len() == 4,
        payload.len() + 8 <= u32::MAX,
    ensures
        first_box(boxes::box_bytes(fourcc, payload) + rest) == Some(
            BoxView { fourcc, payload, total_size: payload.len() as int + 8 },
        ),
        boxes_in(boxes::box_bytes(fourcc, payload) + rest) == seq![(fourcc, payload)] + boxes_in(
            rest,
        ),
{
    let data = boxes::box_bytes(fourcc, payload) + rest;
    let size = boxes::wrap32(payload.len() + 8);
    assert(data.subrange(0, 4) =~= bytes::be32_bytes(size));
    bytes::lemma_be32_roundtrip(data, 0, size);
    assert(data.subrange(4, 8) =~= fourcc);
    assert(data.subrange(8, size as int) =~= payload);
    assert(data.skip(size as int) =~= rest);
}

} // verus!
