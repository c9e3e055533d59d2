//! Search for the `moov` box of a file that is read piece by piece.

use vstd::prelude::*;
use crate::boxes::type_at;
use crate::bytes;
use crate::bytes::{read_u32_be, read_u64_be};
use crate::helpers::Mp4Box;

verus! {

/// Bytes per probe, from the start and from the end of the file.
pub const INITIAL_SEARCH_SIZE: u64 = 8192;

/// How far from the start the forward scan goes.
pub const FALLBACK_SEARCH_LIMIT: u64 = 524288;

/// How far from the end the backward scan goes.
pub const TRAILER_SEARCH_LIMIT: u64 = 524288;

/// Where a `moov` box lies in a file, its header counted in.
#[derive(Debug, Clone, Copy, PartialEq, Eq, Structural)]
pub struct MoovBoxInfo {
    pub position: u64,
    pub size: u64,
}

/// The sum of two offsets, held at the largest 64-bit integer.
pub open spec fn capped64(a: int) -> u64 {
    if a > u64::MAX {
        u64::MAX
    } else {
        a as u64
    }
}

/// Whether the box that `data` starts with has a 64-bit size.
pub open spec fn has_large_size(data: Seq<u8>) -> bool {
    bytes::be32(data, 0) == 1
}

/// The size of the box that `data` starts with.
pub open spec fn full_box_size(data: Seq<u8>) -> u64 {
    if has_large_size(data) {
        bytes::be64(data, 8)
    } else {
        bytes::be32(data, 0) as u64
    }
}

/// The header length of the box that `data` starts with.
pub open spec fn full_header_len(data: Seq<u8>) -> int {
    if has_large_size(data) {
        16
    } else {
        8
    }
}

/// The first `moov` box that fits into the file, among the boxes laid out one
/// after the other from offset `at` of the file. The walk ends where a header
/// is cut off, a size is too small, or a box reaches past the data.
pub open spec fn scan(data: Seq<u8>, at: int, file_size: u64) -> Option<MoovBoxInfo>
    decreases data.len(),
{
    if data.len() < 8 || data.len() < full_header_len(data) || full_box_size(data)
        < full_header_len(data) {
        None
    } else if data.subrange(4, 8) == Mp4Box::Moov.fourcc() && capped64(
        capped64(at) + full_box_size(data),
    ) <= file_size {
        Some(MoovBoxInfo { position: capped64(at), size: full_box_size(data) })
    } else if full_box_size(data) <= data.len() {
        scan(data.skip(full_box_size(data) as int), at + full_box_size(data), file_size)
    } else {
        None
    }
}

/// Looks for a `moov` box in data read at `base_offset` of the file.
pub fn scan_buffer(buf: &[u8], base_offset: u64, file_size: u64) -> (r: Option<MoovBoxInfo>)
    ensures
        r == scan(buf@, base_offset as int, file_size),
{
    let mut off: usize = 0;
    assert(buf@.skip(0) =~= buf@);
    while buf.len() - off >= 8
        invariant
            off <= buf@.len(),
            scan(buf@, base_offset as int, file_size) == scan(
                buf@.skip(off as int),
                base_offset + off,
                file_size,
            ),
        decreases buf@.len() - off,
    {
        let ghost data = buf@.skip(off as int);
        let size32: u32 = match read_u32_be(buf, off) {
            Some(v) => v,
            None => 0,
        };
        assert(bytes::be32(buf@, off as int) == bytes::be32(data, 0));
        let mut box_size: u64 = size32 as u64;
        let mut header_len: u64 = 8;
        if size32 == 1 {
            if buf.len() - off < 16 {
                return None;
            }
            box_size = match read_u64_be(buf, off + 8) {
                Some(v) => v,
                None => 0,
            };
            assert(bytes::be64(buf@, off + 8) == bytes::be64(data, 8));
            header_len = 16;
        }
        if box_size < header_len {
            return None;
        }
        assert(buf@.subrange(off + 4, off + 8) =~= data.subrange(4, 8));
        if type_at(buf, off + 4, &Mp4Box::Moov.bytes()) {
            let position: u64 = base_offset.saturating_add(off as u64);
            if position.saturating_add(box_size) <= file_size {
                return Some(MoovBoxInfo { position, size: box_size });
            }
        }
        if box_size <= (buf.len() - off) as u64 {
            assert(buf@.skip(off + box_size) =~= data.skip(box_size as int));
            off = off + box_size as usize;
        } else {
            return None;
        }
    }
    None
}

/// A box that a scan finds lies inside the file.
pub proof fn law_found_box_is_inside(data: Seq<u8>, at: int, file_size: u64)
    requires
        0 <= at,
    ensures
        scan(data, at, file_size) matches Some(info) ==> info.size >= 8 && (info.position
            + info.size <= file_size || file_size == u64::MAX),
    decreases data.len(),
{
    if data.len() >= 8 && data.len() >= full_header_len(data) && full_box_size(data)
        >= full_header_len(data) && full_box_size(data) <= data.len() {
        law_found_box_is_inside(
            data.skip(full_box_size(data) as int),
            at + full_box_size(data),
            file_size,
        );
    }
}

/// What the search reads next.
#[derive(Debug, Clone, Copy, PartialEq, Eq, Structural)]
pub enum Probe {
    /// The start of the file.
    Head,
    /// The end of the file.
    Tail,
    /// A piece of the forward scan.
    Forward(u64),
    /// A piece of the backward scan.
    Backward(u64),
}

/// What follows from a piece that was read.
#[derive(Debug, Clone, Copy, PartialEq, Eq, Structural)]
pub enum SearchStep {
    /// The box was found.
    Found(MoovBoxInfo),
    /// Another piece is to be read.
    Read(Probe),
    /// There is no box to be found.
    NotFound,
}

/// The smaller of two lengths.
pub open spec fn lesser(a: int, b: int) -> int {
    if a < b {
        a
    } else {
        b
    }
}

/// The length of the probes at the start and at the end.
pub open spec fn probe_len(file_size: u64) -> int {
    lesser(INITIAL_SEARCH_SIZE as int, file_size as int)
}

/// Where a probe reads.
pub open spec fn probe_offset(file_size: u64, probe: Probe) -> int {
    match probe {
        Probe::Head => 0,
        Probe::Tail => file_size - probe_len(file_size),
        Probe::Forward(offset) => offset as int,
        Probe::Backward(offset) => offset as int,
    }
}

/// How much a probe reads.
pub open spec fn probe_size(file_size: u64, probe: Probe) -> int {
    match probe {
        Probe::Head => probe_len(file_size),
        Probe::Tail => probe_len(file_size),
        Probe::Forward(offset) => lesser(
            INITIAL_SEARCH_SIZE as int,
            lesser(FALLBACK_SEARCH_LIMIT as int, file_size as int) - offset,
        ),
        Probe::Backward(offset) => lesser(INITIAL_SEARCH_SIZE as int, file_size - offset),
    }
}

/// Whether a probe belongs to a search through a file of this size.
pub open spec fn probe_ok(file_size: u64, probe: Probe) -> bool {
    match probe {
        Probe::Head => true,
        Probe::Tail => file_size > probe_len(file_size),
        Probe::Forward(offset) => probe_len(file_size) <= offset < lesser(
            FALLBACK_SEARCH_LIMIT as int,
            file_size as int,
        ),
        Probe::Backward(offset) => offset <= file_size - probe_len(file_size),
    }
}

/// The forward scan from `offset` on, or the backward scan where its limit is reached.
pub open spec fn forward_from(file_size: u64, offset: int) -> SearchStep {
    if offset < lesser(FALLBACK_SEARCH_LIMIT as int, file_size as int) {
        SearchStep::Read(Probe::Forward(offset as u64))
    } else {
        SearchStep::Read(Probe::Backward((file_size - probe_len(file_size)) as u64))
    }
}

/// What follows where a probe read `len` bytes without finding the box: the
/// end of the file behind its start, then forward in pieces, then backward
/// from the end in pieces.
pub open spec fn after_miss(file_size: u64, probe: Probe, len: int) -> SearchStep {
    match probe {
        Probe::Head => if file_size > probe_len(file_size) {
            SearchStep::Read(Probe::Tail)
        } else {
            forward_from(file_size, probe_len(file_size))
        },
        Probe::Tail => forward_from(file_size, probe_len(file_size)),
        Probe::Forward(offset) => if len == 0 {
            SearchStep::Read(Probe::Backward((file_size - probe_len(file_size)) as u64))
        } else {
            forward_from(file_size, offset + len)
        },
        Probe::Backward(offset) => if offset + TRAILER_SEARCH_LIMIT <= file_size || offset
            < INITIAL_SEARCH_SIZE || offset == 0 {
            SearchStep::NotFound
        } else {
            SearchStep::Read(Probe::Backward((offset - INITIAL_SEARCH_SIZE) as u64))
        },
    }
}

/// What follows from the data that a probe read.
pub open spec fn search_step(file_size: u64, probe: Probe, data: Seq<u8>) -> SearchStep {
    match scan(data, probe_offset(file_size, probe), file_size) {
        Some(info) => SearchStep::Found(info),
        None => after_miss(file_size, probe, data.len() as int),
    }
}

fn min64(a: u64, b: u64) -> (r: u64)
    ensures
        r == lesser(a as int, b as int),
{
    if a < b {
        a
    } else {
        b
    }
}

/// The offset and the length that a probe reads.
pub fn probe_range(file_size: u64, probe: Probe) -> (r: (u64, usize))
    requires
        probe_ok(file_size, probe),
    ensures
        r.0 == probe_offset(file_size, probe),
        r.1 == probe_size(file_size, probe),
        r.0 + r.1 <= file_size,
{
    let len: u64 = min64(INITIAL_SEARCH_SIZE, file_size);
    match probe {
        Probe::Head => (0, len as usize),
        Probe::Tail => (file_size - len, len as usize),
        Probe::Forward(offset) => (
            offset,
            min64(INITIAL_SEARCH_SIZE, min64(FALLBACK_SEARCH_LIMIT, file_size) - offset) as usize,
        ),
        Probe::Backward(offset) => (offset, min64(INITIAL_SEARCH_SIZE, file_size - offset) as usize),
    }
}

/// Takes the data that a probe read, and tells what follows.
pub fn next_probe(file_size: u64, probe: Probe, data: &[u8]) -> (r: SearchStep)
    requires
        probe_ok(file_size, probe),
        data@.len() <= probe_size(file_size, probe),
    ensures
        r == search_step(file_size, probe, data@),
        r matches SearchStep::Read(next) ==> probe_ok(file_size, next) && rank(file_size, next)
            < rank(file_size, probe),
{
    let len: u64 = min64(INITIAL_SEARCH_SIZE, file_size);
    let limit: u64 = min64(FALLBACK_SEARCH_LIMIT, file_size);
    let (base, _size): (u64, usize) = probe_range(file_size, probe);
    match scan_buffer(data, base, file_size) {
        Some(info) => {
            return SearchStep::Found(info);
        },
        None => {},
    }
    let backward: SearchStep = SearchStep::Read(Probe::Backward(file_size - len));
    match probe {
        Probe::Head => if file_size > len {
            SearchStep::Read(Probe::Tail)
        } else if len < limit {
            SearchStep::Read(Probe::Forward(len))
        } else {
            backward
        },
        Probe::Tail => if len < limit {
            SearchStep::Read(Probe::Forward(len))
        } else {
            backward
        },
        Probe::Forward(offset) => if data.len() == 0 {
            backward
        } else {
            let next: u64 = offset + data.len() as u64;
            if next < limit {
                SearchStep::Read(Probe::Forward(next))
            } else {
                backward
            }
        },
        Probe::Backward(offset) => if offset <= file_size.saturating_sub(TRAILER_SEARCH_LIMIT)
            || offset < INITIAL_SEARCH_SIZE {
            SearchStep::NotFound
        } else {
            SearchStep::Read(Probe::Backward(offset - INITIAL_SEARCH_SIZE))
        },
    }
}

/// How much of a search is left at most: every step lowers it.
pub open spec fn rank(file_size: u64, probe: Probe) -> int {
    match probe {
        Probe::Head => 3 + file_size + file_size,
        Probe::Tail => 2 + file_size + file_size,
        Probe::Forward(offset) => 1 + file_size + (file_size - offset),
        Probe::Backward(offset) => offset as int,
    }
}

/// Whether `next` is the piece that a backward scan starts with: the last of the file.
pub open spec fn is_last_piece(file_size: u64, next: Probe) -> bool {
    next matches Probe::Backward(at) && probe_offset(file_size, next) == at && at + probe_size(
        file_size,
        next,
    ) == file_size && (at == 0 || at == file_size - 8192)
}

/// A search leaves no gap. It starts with the first bytes of the file, goes on with
/// the last ones, then forward from where the first piece ended, each piece behind
/// the one before, through the first 512 KiB, and then backward from the end, each
/// piece right before the one before, until fewer than 8 KiB are left in front or
/// 512 KiB at the end are read.
pub proof fn law_search_leaves_no_gap(file_size: u64, probe: Probe, data: Seq<u8>)
    requires
        probe_ok(file_size, probe),
        data.len() == probe_size(file_size, probe),
        scan(data, probe_offset(file_size, probe), file_size) is None,
    ensures
        probe is Head ==> probe_offset(file_size, probe) == 0 && (data.len() == 8192 || data.len()
            == file_size < 8192) && (if file_size > 8192 {
            search_step(file_size, probe, data) == SearchStep::Read(Probe::Tail)
        } else {
            search_step(file_size, probe, data) == SearchStep::Read(Probe::Backward(0))
        }),
        probe is Tail ==> probe_offset(file_size, probe) + data.len() == file_size && data.len()
            == 8192 && search_step(file_size, probe, data) == SearchStep::Read(
            Probe::Forward(8192),
        ),
        probe matches Probe::Forward(at) ==> probe_offset(file_size, probe) == at && data.len() > 0
            && (search_step(file_size, probe, data) matches SearchStep::Read(next) && if at
            + data.len() < file_size && at + data.len() < 524288 {
            next == Probe::Forward((at + data.len()) as u64)
        } else {
            is_last_piece(file_size, next)
        }),
        probe matches Probe::Backward(at) ==> probe_offset(file_size, probe) == at && if at < 8192
            || at + 524288 <= file_size {
            search_step(file_size, probe, data) == SearchStep::NotFound
        } else {
            search_step(file_size, probe, data) matches SearchStep::Read(next)
                && next is Backward && probe_size(file_size, next) == 8192 && probe_offset(
                file_size,
                next,
            ) + 8192 == at
        },
{
}

/// A search ends with the box that the piece read holds, wherever it was read.
pub proof fn law_box_in_a_piece_ends_the_search(file_size: u64, probe: Probe, data: Seq<u8>)
    requires
        probe_ok(file_size, probe),
    ensures
        scan(data, probe_offset(file_size, probe), file_size) matches Some(info) ==> search_step(
            file_size,
            probe,
            data,
        ) == SearchStep::Found(info),
{
}

} // verus!
