//! ISO base media boxes: the size, type and payload framing shared by every
//! reader and writer of the crate.

use vstd::prelude::*;
use crate::bytes;
use crate::bytes::{push_bytes, push_u32_be, read_u32_be};

verus! {

/// The low 32 bits of a length.
pub open spec fn wrap32(n: nat) -> u32 {
    (n % 0x1_0000_0000) as u32
}

/// The bytes of a box: its 32-bit size, its type, its payload.
pub open spec fn box_bytes(fourcc: Seq<u8>, payload: Seq<u8>) -> Seq<u8> {
    bytes::be32_bytes(wrap32(payload.len() + 8)) + fourcc + payload
}

/// The declared size of the box that `data` starts with.
pub open spec fn box_size(data: Seq<u8>) -> int {
    bytes::be32(data, 0) as int
}

/// The type of the box that `data` starts with.
pub open spec fn box_type(data: Seq<u8>) -> Seq<u8> {
    data.subrange(4, 8)
}

/// The payload of the first box of type `fourcc` among the boxes laid out one
/// after the other in `data`. A box of that type whose declared size is too
/// small or runs past the end hides the ones behind it, and a declared size of
/// zero ends the walk.
pub open spec fn find_box(data: Seq<u8>, fourcc: Seq<u8>) -> Option<Seq<u8>>
    decreases data.len(),
{
    if data.len() < 8 {
        None
    } else if box_type(data) == fourcc {
        if 8 <= box_size(data) <= data.len() {
            Some(data.subrange(8, box_size(data)))
        } else {
            None
        }
    } else if 0 < box_size(data) <= data.len() {
        find_box(data.skip(box_size(data)), fourcc)
    } else {
        None
    }
}

/// The first box of type `fourcc` inside an enclosing payload that may be absent.
pub open spec fn find_in(outer: Option<Seq<u8>>, fourcc: Seq<u8>) -> Option<Seq<u8>> {
    match outer {
        Some(data) => find_box(data, fourcc),
        None => None,
    }
}

/// The payload reached from `data` by taking the first box of each type of
/// `path` in turn.
pub open spec fn nav_path(data: Seq<u8>, path: Seq<Seq<u8>>) -> Option<Seq<u8>>
    decreases path.len(),
{
    if path.len() == 0 {
        Some(data)
    } else {
        match find_box(data, path[0]) {
            Some(inner) => nav_path(inner, path.skip(1)),
            None => None,
        }
    }
}

/// The well-formed boxes at the start of `data`, as (type, payload) pairs, up
/// to the first one that does not fit.
pub open spec fn box_list(data: Seq<u8>) -> Seq<(Seq<u8>, Seq<u8>)>
    decreases data.len(),
{
    if data.len() < 8 || box_size(data) < 8 || box_size(data) > data.len() {
        Seq::empty()
    } else {
        seq![(box_type(data), data.subrange(8, box_size(data)))] + box_list(
            data.skip(box_size(data)),
        )
    }
}

/// What an optional slice holds.
pub open spec fn slice_view(s: Option<&[u8]>) -> Option<Seq<u8>> {
    match s {
        Some(data) => Some(data@),
        None => None,
    }
}

/// What a path of box types holds.
pub open spec fn path_view(path: Seq<[u8; 4]>) -> Seq<Seq<u8>> {
    Seq::new(path.len(), |i: int| path[i]@)
}

proof fn lemma_box_header(fourcc: Seq<u8>, payload: Seq<u8>, rest: Seq<u8>)
    requires
        fourcc.len() == 4,
        payload.len() + 8 <= u32::MAX,
    ensures
        ({
            let data = box_bytes(fourcc, payload) + rest;
            &&& data.len() == payload.len() + 8 + rest.len()
            &&& box_size(data) == payload.len() + 8
            &&& box_type(data) == fourcc
            &&& data.subrange(8, box_size(data)) == payload
            &&& data.skip(box_size(data)) == rest
        }),
{
    let data = box_bytes(fourcc, payload) + rest;
    assert(data.subrange(0, 4) =~= bytes::be32_bytes(wrap32(payload.len() + 8)));
    bytes::lemma_be32_roundtrip(data, 0, wrap32(payload.len() + 8));
    assert(box_type(data) =~= fourcc);
    assert(data.subrange(8, box_size(data)) =~= payload);
    assert(data.skip(box_size(data)) =~= rest);
}

/// A box found first is handed back whole.
pub proof fn lemma_find_box_hit(fourcc: Seq<u8>, payload: Seq<u8>, rest: Seq<u8>)
    requires
        fourcc.len() == 4,
        payload.len() + 8 <= u32::MAX,
    ensures
        find_box(box_bytes(fourcc, payload) + rest, fourcc) == Some(payload),
{
    lemma_box_header(fourcc, payload, rest);
}

/// A box of another type is stepped over.
pub proof fn lemma_find_box_skip(
    fourcc: Seq<u8>,
    payload: Seq<u8>,
    rest: Seq<u8>,
    wanted: Seq<u8>,
)
    requires
        fourcc.len() == 4,
        payload.len() + 8 <= u32::MAX,
        fourcc != wanted,
    ensures
        find_box(box_bytes(fourcc, payload) + rest, wanted) == find_box(rest, wanted),
{
    lemma_box_header(fourcc, payload, rest);
}

/// A written box is listed first, followed by what is listed behind it.
pub proof fn lemma_box_list_cons(fourcc: Seq<u8>, payload: Seq<u8>, rest: Seq<u8>)
    requires
        fourcc.len() == 4,
        payload.len() + 8 <= u32::MAX,
    ensures
        box_list(box_bytes(fourcc, payload) + rest) == seq![(fourcc, payload)] + box_list(rest),
{
    lemma_box_header(fourcc, payload, rest);
}

/// Whether the four bytes behind `offset` are `fourcc`.
pub fn type_at(data: &[u8], offset: usize, fourcc: &[u8; 4]) -> (r: bool)
    requires
        offset + 4 <= data@.len(),
    ensures
        r == (data@.subrange(offset as int, offset + 4) == fourcc@),
{
    let r: bool = data[offset] == fourcc[0] && data[offset + 1] == fourcc[1] && data[offset + 2]
        == fourcc[2] && data[offset + 3] == fourcc[3];
    proof {
        let t = data@.subrange(offset as int, offset + 4);
        assert(t[0] == data@[offset as int] && t[1] == data@[offset + 1] && t[2] == data@[offset
            + 2] && t[3] == data@[offset + 3]);
        if r {
            assert(t =~= fourcc@);
        }
    }
    r
}

/// Whether two box types are the same.
pub fn same_type(a: &[u8; 4], b: &[u8; 4]) -> (r: bool)
    ensures
        r == (a@ == b@),
{
    let r: bool = a[0] == b[0] && a[1] == b[1] && a[2] == b[2] && a[3] == b[3];
    proof {
        if r {
            assert(a@ =~= b@);
        }
    }
    r
}

/// The part of a slice from `start` on.
pub fn tail(data: &[u8], start: usize) -> (r: &[u8])
    requires
        start <= data@.len(),
    ensures
        r@ == data@.skip(start as int),
{
    let r: &[u8] = &data[start..data.len()];
    assert(r@ =~= data@.skip(start as int));
    r
}

/// The payload of the first box of type `fourcc` in `data`.
pub fn find_child<'a>(data: &'a [u8], fourcc: &[u8; 4]) -> (r: Option<&'a [u8]>)
    ensures
        slice_view(r) == find_box(data@, fourcc@),
{
    let mut offset: usize = 0;
    let mut found: Option<&'a [u8]> = None;
    let mut done: bool = false;
    assert(data@.skip(0) =~= data@);
    while !done && offset <= data.len() && data.len() - offset >= 8
        invariant
            offset <= data@.len(),
            !done ==> found is None && find_box(data@, fourcc@) == find_box(
                data@.skip(offset as int),
                fourcc@,
            ),
            done ==> slice_view(found) == find_box(data@, fourcc@),
        decreases (if done { 0int } else { 1 + data@.len() - offset }),
    {
        let ghost rest = data@.skip(offset as int);
        let size: usize = match read_u32_be(data, offset) {
            Some(v) => v as usize,
            None => 0,
        };
        proof {
            assert(bytes::be32(data@, offset as int) == bytes::be32(rest, 0));
            assert(box_type(rest) =~= data@.subrange(offset + 4, offset + 8));
        }
        if type_at(data, offset + 4, fourcc) {
            if size >= 8 && size <= data.len() - offset {
                let payload: &'a [u8] = &data[offset + 8..offset + size];
                assert(payload@ =~= rest.subrange(8, size as int));
                found = Some(payload);
            }
            done = true;
        } else if size == 0 || size > data.len() - offset {
            done = true;
        } else {
            assert(data@.skip(offset + size) =~= rest.skip(size as int));
            offset = offset + size;
        }
    }
    found
}

/// The (type, payload) pairs that remain to be walked.
pub struct Mp4BoxIter<'a> {
    data: &'a [u8],
    offset: usize,
}

impl<'a> View for Mp4BoxIter<'a> {
    type V = Seq<(Seq<u8>, Seq<u8>)>;

    closed spec fn view(&self) -> Seq<(Seq<u8>, Seq<u8>)> {
        box_list(self.data@.skip(self.offset as int))
    }
}

impl<'a> Mp4BoxIter<'a> {
    #[verifier::type_invariant]
    closed spec fn in_bounds(self) -> bool {
        self.offset <= self.data@.len()
    }

    /// Takes the next box off the walk.
    pub fn next(&mut self) -> (r: Option<([u8; 4], &'a [u8])>)
        ensures
            match r {
                Some((fourcc, payload)) => {
                    &&& old(self)@.len() > 0
                    &&& old(self)@[0] == (fourcc@, payload@)
                    &&& final(self)@ == old(self)@.skip(1)
                },
                None => old(self)@.len() == 0 && final(self)@ == old(self)@,
            },
    {
        proof {
            use_type_invariant(&*self);
        }
        let data: &'a [u8] = self.data;
        let offset: usize = self.offset;
        let ghost rest = data@.skip(offset as int);
        if data.len() - offset < 8 {
            return None;
        }
        let size: usize = match read_u32_be(data, offset) {
            Some(v) => v as usize,
            None => 0,
        };
        proof {
            assert(bytes::be32(data@, offset as int) == bytes::be32(rest, 0));
        }
        if size < 8 || size > data.len() - offset {
            return None;
        }
        let fourcc: [u8; 4] = [
            data[offset + 4],
            data[offset + 5],
            data[offset + 6],
            data[offset + 7],
        ];
        let payload: &'a [u8] = &data[offset + 8..offset + size];
        proof {
            assert(fourcc@ =~= box_type(rest));
            assert(payload@ =~= rest.subrange(8, size as int));
            assert(data@.skip(offset + size) =~= rest.skip(size as int));
            let all = box_list(rest);
            assert(all.skip(1) =~= box_list(rest.skip(size as int)));
        }
        self.offset = offset + size;
        Some((fourcc, payload))
    }
}

/// A walk over the boxes of `data`.
pub fn iter_boxes(data: &[u8]) -> (r: Mp4BoxIter<'_>)
    ensures
        r@ == box_list(data@),
{
    assert(data@.skip(0) =~= data@);
    Mp4BoxIter { data, offset: 0 }
}

/// The low 32 bits of a length.
pub fn low32(len: usize) -> (r: u32)
    ensures
        r == wrap32(len as nat),
{
    (len as u64 % 0x1_0000_0000u64) as u32
}

/// The low 32 bits of the size of a box with a payload.
fn boxed_size(len: usize) -> (r: u32)
    ensures
        r == wrap32(len as nat + 8),
{
    let low: u64 = len as u64 % 0x1_0000_0000u64;
    let size: u64 = (low + 8) % 0x1_0000_0000u64;
    assert(size == (len as nat + 8) % 0x1_0000_0000);
    size as u32
}

/// Frames a payload as a box.
#[verifier::spinoff_prover]
pub fn make_box(fourcc: &[u8; 4], payload: &[u8]) -> (r: Vec<u8>)
    ensures
        r@ == box_bytes(fourcc@, payload@),
{
    let size: u32 = boxed_size(payload.len());
    let mut out: Vec<u8> = Vec::new();
    push_u32_be(&mut out, size);
    let ghost head = out@;
    assert(head =~= bytes::be32_bytes(size));
    let t: &[u8] = fourcc;
    push_bytes(&mut out, t);
    push_bytes(&mut out, payload);
    assert(out@ == head + fourcc@ + payload@);
    out
}

} // verus!
