//! Readers for the boxes of a `moov`: navigation, sample tables, sample
//! entries, sample selection and frame dependencies.

use vstd::prelude::*;
use crate::boxes;
use crate::boxes::find_child;
use crate::bytes;
use crate::bytes::{read_u32_be, read_u64_be};

pub mod entries;
pub mod frame_laws;
pub mod frames;
pub mod laws;
pub mod moov;
pub mod runs;
pub mod tables;
pub mod timing;

verus! {

/// The boxes that the readers navigate by name.
#[derive(Debug, Clone, Copy)]
pub enum Mp4Box {
    Moov,
    Trak,
    Tkhd,
    Mdia,
    Hdlr,
    Minf,
    Stbl,
    Stsz,
    Stco,
    Co64,
    Stts,
    Stsc,
    Ctts,
    Stsd,
    Stss,
    Mvhd,
    Mdhd,
    Udta,
    Meta,
    Ilst,
    Data,
}

impl Mp4Box {
    /// The four bytes of the box type.
    pub open spec fn fourcc(self) -> Seq<u8> {
        match self {
            Mp4Box::Moov => seq![0x6du8, 0x6f, 0x6f, 0x76],
            Mp4Box::Trak => seq![0x74u8, 0x72, 0x61, 0x6b],
            Mp4Box::Tkhd => seq![0x74u8, 0x6b, 0x68, 0x64],
            Mp4Box::Mdia => seq![0x6du8, 0x64, 0x69, 0x61],
            Mp4Box::Hdlr => seq![0x68u8, 0x64, 0x6c, 0x72],
            Mp4Box::Minf => seq![0x6du8, 0x69, 0x6e, 0x66],
            Mp4Box::Stbl => seq![0x73u8, 0x74, 0x62, 0x6c],
            Mp4Box::Stsz => seq![0x73u8, 0x74, 0x73, 0x7a],
            Mp4Box::Stco => seq![0x73u8, 0x74, 0x63, 0x6f],
            Mp4Box::Co64 => seq![0x63u8, 0x6f, 0x36, 0x34],
            Mp4Box::Stts => seq![0x73u8, 0x74, 0x74, 0x73],
            Mp4Box::Stsc => seq![0x73u8, 0x74, 0x73, 0x63],
            Mp4Box::Ctts => seq![0x63u8, 0x74, 0x74, 0x73],
            Mp4Box::Stsd => seq![0x73u8, 0x74, 0x73, 0x64],
            Mp4Box::Stss => seq![0x73u8, 0x74, 0x73, 0x73],
            Mp4Box::Mvhd => seq![0x6du8, 0x76, 0x68, 0x64],
            Mp4Box::Mdhd => seq![0x6du8, 0x64, 0x68, 0x64],
            Mp4Box::Udta => seq![0x75u8, 0x64, 0x74, 0x61],
            Mp4Box::Meta => seq![0x6du8, 0x65, 0x74, 0x61],
            Mp4Box::Ilst => seq![0x69u8, 0x6c, 0x73, 0x74],
            Mp4Box::Data => seq![0x64u8, 0x61, 0x74, 0x61],
        }
    }

    /// The four bytes of the box type.
    pub fn bytes(self) -> (r: [u8; 4])
        ensures
            r@ == self.fourcc(),
    {
        let r: [u8; 4] = match self {
            Mp4Box::Moov => [0x6d, 0x6f, 0x6f, 0x76],
            Mp4Box::Trak => [0x74, 0x72, 0x61, 0x6b],
            Mp4Box::Tkhd => [0x74, 0x6b, 0x68, 0x64],
            Mp4Box::Mdia => [0x6d, 0x64, 0x69, 0x61],
            Mp4Box::Hdlr => [0x68, 0x64, 0x6c, 0x72],
            Mp4Box::Minf => [0x6d, 0x69, 0x6e, 0x66],
            Mp4Box::Stbl => [0x73, 0x74, 0x62, 0x6c],
            Mp4Box::Stsz => [0x73, 0x74, 0x73, 0x7a],
            Mp4Box::Stco => [0x73, 0x74, 0x63, 0x6f],
            Mp4Box::Co64 => [0x63, 0x6f, 0x36, 0x34],
            Mp4Box::Stts => [0x73, 0x74, 0x74, 0x73],
            Mp4Box::Stsc => [0x73, 0x74, 0x73, 0x63],
            Mp4Box::Ctts => [0x63, 0x74, 0x74, 0x73],
            Mp4Box::Stsd => [0x73, 0x74, 0x73, 0x64],
            Mp4Box::Stss => [0x73, 0x74, 0x73, 0x73],
            Mp4Box::Mvhd => [0x6d, 0x76, 0x68, 0x64],
            Mp4Box::Mdhd => [0x6d, 0x64, 0x68, 0x64],
            Mp4Box::Udta => [0x75, 0x64, 0x74, 0x61],
            Mp4Box::Meta => [0x6d, 0x65, 0x74, 0x61],
            Mp4Box::Ilst => [0x69, 0x6c, 0x73, 0x74],
            Mp4Box::Data => [0x64, 0x61, 0x74, 0x61],
        };
        assert(r@ =~= self.fourcc());
        r
    }
}

/// The number of complete entries of a table: the count declared at
/// `count_off`, cut down to the `item_len`-byte entries that the data holds.
pub open spec fn table_len(data: Seq<u8>, count_off: int, item_len: int) -> nat {
    if data.len() < count_off + 4 {
        0
    } else {
        let room = (data.len() - (count_off + 4)) / item_len;
        if bytes::be32(data, count_off) <= room {
            bytes::be32(data, count_off) as nat
        } else {
            room as nat
        }
    }
}

/// The 32-bit entries of a table with its count at offset 8.
pub open spec fn u32_table(data: Seq<u8>) -> Seq<u32> {
    Seq::new(table_len(data, 8, 4), |i: int| bytes::be32(data, 12 + 4 * i))
}

/// The 32-bit entries of a table with its count at offset 4, widened.
pub open spec fn widened_table(data: Seq<u8>) -> Seq<u64> {
    Seq::new(table_len(data, 4, 4), |i: int| bytes::be32(data, 8 + 4 * i) as u64)
}

/// The 64-bit entries of a table with its count at offset 4.
pub open spec fn u64_table(data: Seq<u8>) -> Seq<u64> {
    Seq::new(table_len(data, 4, 8), |i: int| bytes::be64(data, 8 + 8 * i))
}

/// The pairs of 32-bit integers at the start of each `item_len`-byte entry of
/// a table with its count at offset 4.
pub open spec fn pair_table(data: Seq<u8>, item_len: int) -> Seq<(u32, u32)> {
    Seq::new(
        table_len(data, 4, item_len),
        |i: int|
            (bytes::be32(data, 8 + item_len * i), bytes::be32(data, 12 + item_len * i)),
    )
}

/// Every entry of a table lies inside the data.
pub proof fn lemma_entry_in_bounds(data: Seq<u8>, count_off: int, item_len: int, i: int)
    requires
        0 < item_len,
        0 <= count_off,
        0 <= i < table_len(data, count_off, item_len),
    ensures
        count_off + 4 + item_len * i + item_len <= data.len(),
        0 <= item_len * i,
{
    let avail = data.len() - (count_off + 4);
    let room = avail / item_len;
    vstd::arithmetic::div_mod::lemma_fundamental_div_mod(avail, item_len);
    assert(item_len * i + item_len <= item_len * room) by (nonlinear_arith)
        requires
            i + 1 <= room,
            0 < item_len,
    ;
    assert(0 <= avail % item_len) by (nonlinear_arith)
        requires
            0 < item_len,
    ;
    assert(0 <= item_len * i) by (nonlinear_arith)
        requires
            0 < item_len,
            0 <= i,
    ;
}

/// Number of complete entries, see `table_len`.
fn entries(data: &[u8], count_off: usize, item_len: usize) -> (r: usize)
    requires
        count_off <= 8,
        0 < item_len,
    ensures
        r == table_len(data@, count_off as int, item_len as int),
{
    match read_u32_be(data, count_off) {
        Some(count) => {
            let room: usize = (data.len() - (count_off + 4)) / item_len;
            if count as usize <= room {
                count as usize
            } else {
                room
            }
        },
        None => 0,
    }
}

/// Navigation and table extraction over the payload of a box.
pub trait Mp4Nav {
    /// The bytes that are navigated.
    spec fn content(&self) -> Seq<u8>;

    /// The payload reached by taking the first box of each type of `path` in turn.
    fn nav(&self, path: &[[u8; 4]]) -> (r: Option<&[u8]>)
        ensures
            boxes::slice_view(r) == boxes::nav_path(self.content(), boxes::path_view(path@)),
    ;

    /// The 32-bit integer at `offset` of the payload that `path` leads to.
    fn extract_u32(&self, path: &[[u8; 4]], offset: usize) -> (r: Option<u32>)
        ensures
            r == (match boxes::nav_path(self.content(), boxes::path_view(path@)) {
                Some(data) => if offset + 4 <= data.len() {
                    Some(bytes::be32(data, offset as int))
                } else {
                    None
                },
                None => None,
            }),
    ;

    /// The 32-bit entries of a table with its count at offset 8.
    fn extract_u32_array(&self) -> (r: Vec<u32>)
        ensures
            r@ == u32_table(self.content()),
    ;

    /// The 32-bit entries of a table with its count at offset 4, widened.
    fn extract_u64_array(&self) -> (r: Vec<u64>)
        ensures
            r@ == widened_table(self.content()),
    ;

    /// The 64-bit entries of a table with its count at offset 4.
    fn extract_u64_array64(&self) -> (r: Vec<u64>)
        ensures
            r@ == u64_table(self.content()),
    ;

    /// The (count, delta) entries of an `stts` table.
    fn extract_timing_pairs(&self) -> (r: Vec<(u32, u32)>)
        ensures
            r@ == pair_table(self.content(), 8),
    ;

    /// The (first chunk, samples per chunk) fields of an `stsc` table.
    fn extract_stsc_pairs(&self) -> (r: Vec<(u32, u32)>)
        ensures
            r@ == pair_table(self.content(), 12),
    ;
}

/// The 32-bit integer at an offset that is known to be in bounds.
pub(crate) fn u32_at(data: &[u8], offset: usize) -> (r: u32)
    requires
        offset + 4 <= data@.len(),
    ensures
        r == bytes::be32(data@, offset as int),
{
    match read_u32_be(data, offset) {
        Some(v) => v,
        None => 0,
    }
}

/// The first fields of each entry, see `pair_table`.
fn pairs_of(data: &[u8], item_len: usize) -> (r: Vec<(u32, u32)>)
    requires
        8 <= item_len <= 12,
    ensures
        r@ == pair_table(data@, item_len as int),
{
    let n: usize = entries(data, 4, item_len);
    let len: usize = data.len();
    let mut out: Vec<(u32, u32)> = Vec::new();
    let mut i: usize = 0;
    while i < n
        invariant
            n == table_len(data@, 4, item_len as int),
            len == data@.len(),
            8 <= item_len <= 12,
            i <= n,
            out@ == pair_table(data@, item_len as int).take(i as int),
        decreases n - i,
    {
        proof {
            lemma_entry_in_bounds(data@, 4, item_len as int, i as int);
        }
        let pos: usize = 8 + item_len * i;
        out.push((u32_at(data, pos), u32_at(data, pos + 4)));
        i = i + 1;
        assert(out@ =~= pair_table(data@, item_len as int).take(i as int));
    }
    assert(out@ =~= pair_table(data@, item_len as int));
    out
}

impl Mp4Nav for [u8] {
    open spec fn content(&self) -> Seq<u8> {
        self@
    }

    fn nav(&self, path: &[[u8; 4]]) -> (r: Option<&[u8]>) {
        let mut data: &[u8] = self;
        let mut i: usize = 0;
        assert(boxes::path_view(path@).skip(0) =~= boxes::path_view(path@));
        while i < path.len()
            invariant
                i <= path@.len(),
                boxes::nav_path(self@, boxes::path_view(path@)) == boxes::nav_path(
                    data@,
                    boxes::path_view(path@).skip(i as int),
                ),
            decreases path@.len() - i,
        {
            let ghost rest = boxes::path_view(path@).skip(i as int);
            match find_child(data, &path[i]) {
                Some(inner) => {
                    data = inner;
                },
                None => {
                    return None;
                },
            }
            assert(boxes::path_view(path@).skip(i + 1) =~= rest.skip(1));
            i = i + 1;
        }
        Some(data)
    }

    fn extract_u32(&self, path: &[[u8; 4]], offset: usize) -> (r: Option<u32>) {
        match self.nav(path) {
            Some(data) => read_u32_be(data, offset),
            None => None,
        }
    }

    fn extract_u32_array(&self) -> (r: Vec<u32>) {
        let n: usize = entries(self, 8, 4);
        let len: usize = self.len();
        let mut out: Vec<u32> = Vec::new();
        let mut i: usize = 0;
        while i < n
            invariant
                n == table_len(self@, 8, 4),
                len == self@.len(),
                i <= n,
                out@ == u32_table(self@).take(i as int),
            decreases n - i,
        {
            proof {
                lemma_entry_in_bounds(self@, 8, 4, i as int);
            }
            out.push(u32_at(self, 12 + 4 * i));
            i = i + 1;
            assert(out@ =~= u32_table(self@).take(i as int));
        }
        assert(out@ =~= u32_table(self@));
        out
    }

    fn extract_u64_array(&self) -> (r: Vec<u64>) {
        let n: usize = entries(self, 4, 4);
        let len: usize = self.len();
        let mut out: Vec<u64> = Vec::new();
        let mut i: usize = 0;
        while i < n
            invariant
                n == table_len(self@, 4, 4),
                len == self@.len(),
                i <= n,
                out@ == widened_table(self@).take(i as int),
            decreases n - i,
        {
            proof {
                lemma_entry_in_bounds(self@, 4, 4, i as int);
            }
            out.push(u32_at(self, 8 + 4 * i) as u64);
            i = i + 1;
            assert(out@ =~= widened_table(self@).take(i as int));
        }
        assert(out@ =~= widened_table(self@));
        out
    }

    fn extract_u64_array64(&self) -> (r: Vec<u64>) {
        let n: usize = entries(self, 4, 8);
        let len: usize = self.len();
        let mut out: Vec<u64> = Vec::new();
        let mut i: usize = 0;
        while i < n
            invariant
                n == table_len(self@, 4, 8),
                len == self@.len(),
                i <= n,
                out@ == u64_table(self@).take(i as int),
            decreases n - i,
        {
            proof {
                lemma_entry_in_bounds(self@, 4, 8, i as int);
            }
            match read_u64_be(self, 8 + 8 * i) {
                Some(v) => {
                    out.push(v);
                },
                None => {},
            }
            i = i + 1;
            assert(out@ =~= u64_table(self@).take(i as int));
        }
        assert(out@ =~= u64_table(self@));
        out
    }

    fn extract_timing_pairs(&self) -> (r: Vec<(u32, u32)>) {
        pairs_of(self, 8)
    }

    fn extract_stsc_pairs(&self) -> (r: Vec<(u32, u32)>) {
        pairs_of(self, 12)
    }
}

} // verus!
