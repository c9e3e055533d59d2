//! Sample tables: sizes, chunks and sync samples.

use vstd::prelude::*;
use super::read;
use super::read::find_box_ref;
use crate::bytes;
use crate::bytes::{read_u32_be, read_u64_be};
use crate::helpers::timing;
use crate::helpers::Mp4Box;

verus! {

// --------------------
// Tables
// --------------------

/// The declared entries of a table with its count at offset 4, where
/// `entry_size`-byte entries of that number fit the data.
pub open spec fn counted(data: Seq<u8>, entry_size: int) -> Option<nat> {
    if data.len() < 8 || bytes::be32(data, 4) > (data.len() - 8) / entry_size {
        None
    } else {
        Some(bytes::be32(data, 4) as nat)
    }
}

/// Reads the entry count of a full-box table (8-byte header of version/flags
/// plus entry count) and validates that `entry_size`-byte entries fit in the
/// box payload.
pub fn table_entries(buf: &[u8], entry_size: usize) -> (r: Option<usize>)
    requires
        entry_size > 0,
    ensures
        match r {
            Some(n) => counted(buf@, entry_size as int) == Some(n as nat),
            None => counted(buf@, entry_size as int) is None,
        },
{
    if buf.len() < 8 {
        return None;
    }
    let count: u32 = match read_u32_be(buf, 4) {
        Some(n) => n,
        None => {
            return None;
        },
    };
    let room: usize = (buf.len() - 8) / entry_size;
    if count as u64 > room as u64 {
        None
    } else {
        Some(count as usize)
    }
}

/// Every entry of a table lies inside the data.
pub proof fn lemma_counted_in_bounds(data: Seq<u8>, entry_size: int, i: int)
    requires
        0 < entry_size,
        counted(data, entry_size) is Some,
        0 <= i < counted(data, entry_size)->0,
    ensures
        8 + entry_size * i + entry_size <= data.len(),
        0 <= entry_size * i,
{
    let room = data.len() - 8;
    let n = counted(data, entry_size)->0 as int;
    assert(entry_size * i + entry_size <= room) by (nonlinear_arith)
        requires
            0 < entry_size,
            0 <= i < n,
            n <= room / entry_size,
    ;
    assert(0 <= entry_size * i) by (nonlinear_arith)
        requires
            0 < entry_size,
            0 <= i,
    ;
}

/// One run of chunks with the same layout.
#[derive(Debug, Clone, Copy, PartialEq, Eq, Structural)]
pub struct StscEntry {
    pub first_chunk: u32,
    pub samples_per_chunk: u32,
    pub sample_description_index: u32,
}

// --------------------
// Sample sizes
// --------------------

/// How many samples lie between two recorded prefixes.
pub const SAMPLE_SIZE_PREFIX_INTERVAL: usize = 256;

/// The sizes of the samples of a track: all the same, or one by one with
/// prefix sums recorded at intervals.
#[derive(Debug)]
pub struct SampleSizes {
    fixed_size: u32,
    sizes: Vec<u32>,
    sample_count: u32,
    size_prefixes: Vec<u64>,
}

/// What the sizes of the samples of a track are.
pub struct SizesView {
    pub fixed: u32,
    pub sizes: Seq<u32>,
    pub count: u32,
}

impl SizesView {
    /// The bytes of the first `n` samples.
    pub open spec fn bytes_before(self, n: int) -> int {
        if self.fixed != 0 {
            self.fixed * n
        } else {
            timing::size_sum(self.sizes, 0, n) as int
        }
    }

    /// The size of a sample (1-based).
    pub open spec fn size_of(self, i: int) -> u32 {
        if self.fixed != 0 {
            self.fixed
        } else {
            self.sizes[i - 1]
        }
    }
}

impl View for SampleSizes {
    type V = SizesView;

    closed spec fn view(&self) -> SizesView {
        SizesView { fixed: self.fixed_size, sizes: self.sizes@, count: self.sample_count }
    }
}

/// What the sizes of a track are made from: one fixed size, or a list with
/// one size for each sample.
pub open spec fn consistent_sizes(fixed: u32, sizes: Seq<u32>, count: u32) -> bool {
    if fixed != 0 {
        sizes.len() == 0
    } else {
        sizes.len() == count
    }
}

proof fn lemma_size_sum_bound(sizes: Seq<u32>, n: int)
    requires
        0 <= n <= sizes.len(),
    ensures
        timing::size_sum(sizes, 0, n) <= n * 0xffff_ffff,
    decreases n,
{
    if n > 0 {
        lemma_size_sum_bound(sizes, n - 1);
    }
}

proof fn lemma_size_sum_mono(sizes: Seq<u32>, a: int, b: int)
    requires
        0 <= a <= b,
    ensures
        timing::size_sum(sizes, 0, a) <= timing::size_sum(sizes, 0, b),
    decreases b - a,
{
    if a < b {
        lemma_size_sum_mono(sizes, a, b - 1);
    }
}

/// The bytes of fewer samples are fewer, and fit 64 bits.
pub proof fn lemma_bytes_before(v: SizesView, a: int, b: int)
    requires
        0 <= a <= b <= v.count,
        consistent_sizes(v.fixed, v.sizes, v.count),
    ensures
        0 <= v.bytes_before(a) <= v.bytes_before(b) <= 0xffff_ffff * 0xffff_ffff,
{
    if v.fixed != 0 {
        let f = v.fixed as int;
        assert(0 <= f * a <= f * b <= 0xffff_ffff * 0xffff_ffff) by (nonlinear_arith)
            requires
                0 <= a <= b <= 0xffff_ffff,
                0 <= f <= 0xffff_ffff,
        ;
    } else {
        lemma_size_sum_mono(v.sizes, a, b);
        lemma_size_sum_bound(v.sizes, b);
    }
}

impl SampleSizes {
    #[verifier::type_invariant]
    closed spec fn well_formed(self) -> bool {
        &&& consistent_sizes(self.fixed_size, self.sizes@, self.sample_count)
        &&& self.fixed_size == 0 ==> {
            &&& 256 * self.size_prefixes@.len() >= self.sizes@.len()
            &&& forall|k: int|
                0 <= k < self.size_prefixes@.len() ==> 256 * k < self.sizes@.len()
                    && #[trigger] self.size_prefixes@[k] == timing::size_sum(
                    self.sizes@,
                    0,
                    256 * k,
                )
        }
    }

    /// Samples that all have one size, which is not zero.
    pub fn fixed(sample_count: u32, fixed_size: u32) -> (r: Option<Self>)
        ensures
            r is Some == (fixed_size != 0),
            r matches Some(s) ==> s@ == (SizesView {
                fixed: fixed_size,
                sizes: Seq::empty(),
                count: sample_count,
            }),
    {
        if fixed_size == 0 {
            return None;
        }
        let sizes: Vec<u32> = Vec::new();
        assert(sizes@ =~= Seq::empty());
        Self::from_parts(fixed_size, sizes, sample_count)
    }

    /// Samples with a size each.
    pub fn variable(sizes: Vec<u32>) -> (r: Option<Self>)
        ensures
            r is Some == (sizes@.len() <= u32::MAX),
            r matches Some(s) ==> s@ == (SizesView {
                fixed: 0,
                sizes: sizes@,
                count: sizes@.len() as u32,
            }),
    {
        if sizes.len() as u64 > u32::MAX as u64 {
            return None;
        }
        let count: u32 = sizes.len() as u32;
        Self::from_parts(0, sizes, count)
    }

    /// The sizes of a track, where a fixed size comes without a list and a
    /// list has a size for each sample.
    pub fn from_parts(fixed_size: u32, sizes: Vec<u32>, sample_count: u32) -> (r: Option<Self>)
        ensures
            r is Some == consistent_sizes(fixed_size, sizes@, sample_count),
            r matches Some(s) ==> s@ == (SizesView {
                fixed: fixed_size,
                sizes: sizes@,
                count: sample_count,
            }),
    {
        if fixed_size != 0 {
            if sizes.len() != 0 {
                return None;
            }
            return Some(SampleSizes { fixed_size, sizes, sample_count, size_prefixes: Vec::new() });
        }
        if sample_count as u64 != sizes.len() as u64 {
            return None;
        }
        let mut size_prefixes: Vec<u64> = Vec::new();
        let mut total: u64 = 0;
        let mut index: usize = 0;
        while index < sizes.len()
            invariant
                index <= sizes@.len() <= u32::MAX,
                total == timing::size_sum(sizes@, 0, index as int),
                256 * size_prefixes@.len() >= index,
                256 * size_prefixes@.len() < index + 256,
                forall|k: int|
                    0 <= k < size_prefixes@.len() ==> 256 * k < sizes@.len()
                        && #[trigger] size_prefixes@[k] == timing::size_sum(sizes@, 0, 256 * k),
            decreases sizes@.len() - index,
        {
            if index % SAMPLE_SIZE_PREFIX_INTERVAL == 0 {
                size_prefixes.push(total);
            }
            proof {
                lemma_size_sum_bound(sizes@, index + 1);
            }
            total = total + sizes[index] as u64;
            index = index + 1;
        }
        Some(SampleSizes { fixed_size, sizes, sample_count, size_prefixes })
    }

    /// The number of samples.
    pub fn sample_count(&self) -> (r: u32)
        ensures
            r == self@.count,
            consistent_sizes(self@.fixed, self@.sizes, self@.count),
    {
        proof {
            use_type_invariant(self);
        }
        self.sample_count
    }

    /// Bytes occupied by samples preceding `sample_index` (1-based), plus the
    /// number of raw variable-size entries examined after the nearest prefix.
    pub fn byte_offset_before(&self, sample_index: u32) -> (r: Option<(u64, usize)>)
        ensures
            r is Some == (1 <= sample_index <= self@.count),
            r matches Some((offset, steps)) ==> offset == self@.bytes_before(sample_index - 1)
                && steps == (if self@.fixed != 0 {
                0
            } else {
                (sample_index - 1) % 256
            }),
    {
        proof {
            use_type_invariant(self);
        }
        if sample_index == 0 || sample_index > self.sample_count {
            return None;
        }
        let preceding: u32 = sample_index - 1;
        proof {
            lemma_bytes_before(self@, preceding as int, preceding as int);
        }
        if self.fixed_size != 0 {
            proof {
                let f = self.fixed_size as int;
                assert(f * preceding <= 0xffff_ffff * 0xffff_ffff) by (nonlinear_arith)
                    requires
                        0 <= f <= 0xffff_ffff,
                        0 <= preceding <= 0xffff_ffff,
                ;
            }
            return Some((self.fixed_size as u64 * preceding as u64, 0));
        }
        let before: usize = preceding as usize;
        let block: usize = before / SAMPLE_SIZE_PREFIX_INTERVAL;
        let start: usize = before - before % SAMPLE_SIZE_PREFIX_INTERVAL;
        assert(start == 256 * block);
        let mut offset: u64 = self.size_prefixes[block];
        let mut i: usize = start;
        while i < before
            invariant
                start <= i <= before < self.sizes@.len() <= u32::MAX,
                offset == timing::size_sum(self.sizes@, 0, i as int),
            decreases before - i,
        {
            proof {
                lemma_size_sum_bound(self.sizes@, i + 1);
            }
            offset = offset + self.sizes[i] as u64;
            i = i + 1;
        }
        Some((offset, before - start))
    }

    /// The size of a sample (1-based).
    pub fn size_of(&self, sample_index: u32) -> (r: Option<u32>)
        ensures
            r == (if 1 <= sample_index <= self@.count {
                Some(self@.size_of(sample_index as int))
            } else {
                None
            }),
    {
        proof {
            use_type_invariant(self);
        }
        if sample_index == 0 || sample_index > self.sample_count {
            return None;
        }
        if self.fixed_size != 0 {
            Some(self.fixed_size)
        } else {
            Some(self.sizes[(sample_index - 1) as usize])
        }
    }
}

/// The size of a sample (1-based).
pub fn sample_size(sample_index: u32, sizes: &SampleSizes) -> (r: Option<u32>)
    ensures
        r == (if 1 <= sample_index <= sizes@.count {
            Some(sizes@.size_of(sample_index as int))
        } else {
            None
        }),
{
    sizes.size_of(sample_index)
}

/// The sizes in an `stsz` payload.
pub open spec fn stsz_sizes(stsz: Seq<u8>) -> Option<SizesView> {
    if stsz.len() < 12 {
        None
    } else {
        let fixed = bytes::be32(stsz, 4);
        let count = bytes::be32(stsz, 8);
        if fixed != 0 {
            Some(SizesView { fixed, sizes: Seq::empty(), count })
        } else if count > (stsz.len() - 12) / 4 {
            None
        } else {
            Some(
                SizesView {
                    fixed,
                    sizes: Seq::new(count as nat, |i: int| bytes::be32(stsz, 12 + 4 * i)),
                    count,
                },
            )
        }
    }
}

/// What optional sizes are.
pub open spec fn sizes_view(s: Option<SampleSizes>) -> Option<SizesView> {
    match s {
        Some(sizes) => Some(sizes@),
        None => None,
    }
}

/// Reads the sizes in an `stsz` payload.
pub fn parse_sample_sizes(stsz: &[u8]) -> (r: Option<SampleSizes>)
    ensures
        sizes_view(r) == stsz_sizes(stsz@),
{
    let len: usize = stsz.len();
    if len < 12 {
        return None;
    }
    let (fixed_size, count): (u32, u32) = match (read_u32_be(stsz, 4), read_u32_be(stsz, 8)) {
        (Some(f), Some(c)) => (f, c),
        _ => {
            return None;
        },
    };
    let mut sizes: Vec<u32> = Vec::new();
    if fixed_size == 0 {
        if count as u64 > ((len - 12) / 4) as u64 {
            return None;
        }
        let n: usize = count as usize;
        let ghost want = Seq::new(n as nat, |i: int| bytes::be32(stsz@, 12 + 4 * i));
        let mut i: usize = 0;
        while i < n
            invariant
                i <= n <= (len - 12) / 4,
                len == stsz@.len(),
                len >= 12,
                want == Seq::new(n as nat, |i: int| bytes::be32(stsz@, 12 + 4 * i)),
                sizes@ == want.take(i as int),
            decreases n - i,
        {
            match read_u32_be(stsz, 12 + i * 4) {
                Some(v) => {
                    sizes.push(v);
                },
                None => {},
            }
            i = i + 1;
            assert(sizes@ =~= want.take(i as int));
        }
        assert(sizes@ =~= want);
    } else {
        assert(sizes@ =~= Seq::empty());
    }
    SampleSizes::from_parts(fixed_size, sizes, count)
}

// --------------------
// Chunks and sync samples
// --------------------

/// Entry `i` of an `stsc` payload.
pub open spec fn stsc_entry(stsc: Seq<u8>, i: int) -> StscEntry {
    StscEntry {
        first_chunk: bytes::be32(stsc, 8 + 12 * i),
        samples_per_chunk: bytes::be32(stsc, 12 + 12 * i),
        sample_description_index: bytes::be32(stsc, 16 + 12 * i),
    }
}

/// Whether no field of an entry is zero.
pub open spec fn is_filled(e: StscEntry) -> bool {
    e.first_chunk != 0 && e.samples_per_chunk != 0 && e.sample_description_index != 0
}

/// Whether the runs of a table are filled and come in order.
pub open spec fn is_ordered(entries: Seq<StscEntry>) -> bool {
    &&& forall|i: int| 0 <= i < entries.len() ==> is_filled(#[trigger] entries[i])
    &&& forall|i: int, j: int|
        0 <= i < j < entries.len() ==> (#[trigger] entries[i]).first_chunk < (
        #[trigger] entries[j]).first_chunk
}

/// The runs in an `stsc` payload, where they are filled and in order.
pub open spec fn stsc_entries(stsc: Seq<u8>) -> Option<Seq<StscEntry>> {
    match counted(stsc, 12) {
        Some(n) => {
            let list = Seq::new(n, |i: int| stsc_entry(stsc, i));
            if is_ordered(list) {
                Some(list)
            } else {
                None
            }
        },
        None => None,
    }
}

/// What an optional list holds.
pub open spec fn list_of<T>(v: Option<Vec<T>>) -> Option<Seq<T>> {
    match v {
        Some(list) => Some(list@),
        None => None,
    }
}

/// Reads the runs in an `stsc` payload.
pub fn parse_stsc(stsc: &[u8]) -> (r: Option<Vec<StscEntry>>)
    ensures
        list_of(r) == stsc_entries(stsc@),
{
    let n: usize = match table_entries(stsc, 12) {
        Some(n) => n,
        None => {
            return None;
        },
    };
    let len: usize = stsc.len();
    let ghost want = Seq::new(n as nat, |i: int| stsc_entry(stsc@, i));
    let mut out: Vec<StscEntry> = Vec::new();
    let mut i: usize = 0;
    while i < n
        invariant
            i <= n,
            len == stsc@.len(),
            counted(stsc@, 12) == Some(n as nat),
            want == Seq::new(n as nat, |i: int| stsc_entry(stsc@, i)),
            out@ == want.take(i as int),
            is_ordered(out@),
        decreases n - i,
    {
        proof {
            lemma_counted_in_bounds(stsc@, 12, i as int);
        }
        let at: usize = 8 + i * 12;
        let entry: StscEntry = match (
            read_u32_be(stsc, at),
            read_u32_be(stsc, at + 4),
            read_u32_be(stsc, at + 8),
        ) {
            (Some(first_chunk), Some(samples_per_chunk), Some(sample_description_index)) => {
                StscEntry { first_chunk, samples_per_chunk, sample_description_index }
            },
            _ => {
                return None;
            },
        };
        assert(entry == want[i as int]);
        if entry.first_chunk == 0 || entry.samples_per_chunk == 0
            || entry.sample_description_index == 0 {
            assert(!is_filled(want[i as int]));
            return None;
        }
        if i > 0 && out[i - 1].first_chunk >= entry.first_chunk {
            assert(out@[i - 1] == want[i - 1]);
            return None;
        }
        let ghost before = out@;
        out.push(entry);
        proof {
            assert(is_ordered(out@)) by {
                assert forall|a: int, b: int| 0 <= a < b < out@.len() implies (
                #[trigger] out@[a]).first_chunk < (#[trigger] out@[b]).first_chunk by {
                    if b == i {
                        assert(out@[a] == before[a]);
                        if a < i - 1 {
                            assert(before[a].first_chunk < before[i - 1].first_chunk);
                        }
                    } else {
                        assert(out@[a] == before[a] && out@[b] == before[b]);
                    }
                }
            }
        }
        i = i + 1;
        assert(out@ =~= want.take(i as int));
    }
    assert(out@ =~= want);
    Some(out)
}

/// The 32-bit entries of a table.
pub open spec fn words_of(data: Seq<u8>) -> Option<Seq<u32>> {
    match counted(data, 4) {
        Some(n) => Some(Seq::new(n, |i: int| bytes::be32(data, 8 + 4 * i))),
        None => None,
    }
}

fn read_words(data: &[u8]) -> (r: Option<Vec<u32>>)
    ensures
        list_of(r) == words_of(data@),
{
    let n: usize = match table_entries(data, 4) {
        Some(n) => n,
        None => {
            return None;
        },
    };
    let len: usize = data.len();
    let ghost want = Seq::new(n as nat, |i: int| bytes::be32(data@, 8 + 4 * i));
    let mut out: Vec<u32> = Vec::new();
    let mut i: usize = 0;
    while i < n
        invariant
            i <= n,
            len == data@.len(),
            counted(data@, 4) == Some(n as nat),
            want == Seq::new(n as nat, |i: int| bytes::be32(data@, 8 + 4 * i)),
            out@ == want.take(i as int),
        decreases n - i,
    {
        proof {
            lemma_counted_in_bounds(data@, 4, i as int);
        }
        match read_u32_be(data, 8 + i * 4) {
            Some(v) => {
                out.push(v);
            },
            None => {},
        }
        i = i + 1;
        assert(out@ =~= want.take(i as int));
    }
    assert(out@ =~= want);
    Some(out)
}

/// The 64-bit entries of a table.
pub open spec fn numbers_of(data: Seq<u8>) -> Option<Seq<u64>> {
    match counted(data, 8) {
        Some(n) => Some(Seq::new(n, |i: int| bytes::be64(data, 8 + 8 * i))),
        None => None,
    }
}

fn read_numbers(data: &[u8]) -> (r: Option<Vec<u64>>)
    ensures
        list_of(r) == numbers_of(data@),
{
    let n: usize = match table_entries(data, 8) {
        Some(n) => n,
        None => {
            return None;
        },
    };
    let len: usize = data.len();
    let ghost want = Seq::new(n as nat, |i: int| bytes::be64(data@, 8 + 8 * i));
    let mut out: Vec<u64> = Vec::new();
    let mut i: usize = 0;
    while i < n
        invariant
            i <= n,
            len == data@.len(),
            counted(data@, 8) == Some(n as nat),
            want == Seq::new(n as nat, |i: int| bytes::be64(data@, 8 + 8 * i)),
            out@ == want.take(i as int),
        decreases n - i,
    {
        proof {
            lemma_counted_in_bounds(data@, 8, i as int);
        }
        match read_u64_be(data, 8 + i * 8) {
            Some(v) => {
                out.push(v);
            },
            None => {},
        }
        i = i + 1;
        assert(out@ =~= want.take(i as int));
    }
    assert(out@ =~= want);
    Some(out)
}

/// The chunk offsets of a sample table: those of its `stco`, which must be
/// readable where there is one, else those of its `co64`.
pub open spec fn chunk_offsets_of(stbl: Seq<u8>) -> Option<Seq<u64>> {
    match read::child(stbl, Mp4Box::Stco.fourcc()) {
        Some(stco) => match words_of(stco) {
            Some(list) => Some(Seq::new(list.len(), |i: int| list[i] as u64)),
            None => None,
        },
        None => match read::child(stbl, Mp4Box::Co64.fourcc()) {
            Some(co64) => numbers_of(co64),
            None => None,
        },
    }
}

/// Reads the chunk offsets of a sample table.
pub fn parse_chunk_offsets(stbl: &[u8]) -> (r: Option<Vec<u64>>)
    ensures
        list_of(r) == chunk_offsets_of(stbl@),
{
    match find_box_ref(stbl, &Mp4Box::Stco.bytes()) {
        Some(stco) => {
            let list: Vec<u32> = match read_words(stco) {
                Some(list) => list,
                None => {
                    return None;
                },
            };
            let ghost want = Seq::new(list@.len(), |i: int| list@[i] as u64);
            let mut out: Vec<u64> = Vec::new();
            let mut i: usize = 0;
            while i < list.len()
                invariant
                    i <= list@.len(),
                    want == Seq::new(list@.len(), |i: int| list@[i] as u64),
                    out@ == want.take(i as int),
                decreases list@.len() - i,
            {
                out.push(list[i] as u64);
                i = i + 1;
                assert(out@ =~= want.take(i as int));
            }
            assert(out@ =~= want);
            Some(out)
        },
        None => match find_box_ref(stbl, &Mp4Box::Co64.bytes()) {
            Some(co64) => read_numbers(co64),
            None => None,
        },
    }
}

/// Whether each number is larger than those before it.
pub open spec fn is_increasing(list: Seq<u32>) -> bool {
    forall|i: int, j: int| 0 <= i < j < list.len() ==> #[trigger] list[i] < #[trigger] list[j]
}

/// The sync samples in an `stss` payload, where they are increasing.
pub open spec fn sync_samples_of(stss: Seq<u8>) -> Option<Seq<u32>> {
    match words_of(stss) {
        Some(list) => if is_increasing(list) {
            Some(list)
        } else {
            None
        },
        None => None,
    }
}

/// Reads the sync samples in an `stss` payload.
pub fn parse_stss(stss: &[u8]) -> (r: Option<Vec<u32>>)
    ensures
        list_of(r) == sync_samples_of(stss@),
{
    let list: Vec<u32> = match read_words(stss) {
        Some(list) => list,
        None => {
            return None;
        },
    };
    let mut i: usize = 1;
    while i < list.len()
        invariant
            1 <= i,
            i <= list@.len() || list@.len() == 0,
            words_of(stss@) == Some(list@),
            forall|a: int, b: int|
                0 <= a < b < i && b < list@.len() ==> #[trigger] list@[a] < #[trigger] list@[b],
        decreases list@.len() - i,
    {
        if list[i - 1] >= list[i] {
            assert(!is_increasing(list@)) by {
                let k = i - 1;
                assert(list@[k] >= list@[i as int]);
            }
            return None;
        }
        proof {
            assert forall|a: int, b: int| 0 <= a < b < i + 1 && b < list@.len() implies
                #[trigger] list@[a] < #[trigger] list@[b] by {
                if b == i && a < i - 1 {
                    assert(list@[a] < list@[i - 1]);
                }
            }
        }
        i = i + 1;
    }
    Some(list)
}

/// The last number of a list that is no larger than `x`.
pub open spec fn last_through(list: Seq<u32>, x: u32) -> Option<u32>
    decreases list.len(),
{
    if list.len() == 0 {
        None
    } else if list.last() <= x {
        Some(list.last())
    } else {
        last_through(list.drop_last(), x)
    }
}

/// The first number of a list that is larger than `x`.
pub open spec fn first_after(list: Seq<u32>, x: u32) -> Option<u32>
    decreases list.len(),
{
    if list.len() == 0 {
        None
    } else if list[0] > x {
        Some(list[0])
    } else {
        first_after(list.skip(1), x)
    }
}

/// The sync sample that a sample is decoded from: the last one at or before
/// it, else the first sample. Without a list every sample is one.
pub open spec fn nearest_sync(sample_index: u32, sync: Option<Seq<u32>>) -> u32 {
    match sync {
        Some(list) => match last_through(list, sample_index) {
            Some(n) => n,
            None => 1,
        },
        None => sample_index,
    }
}

/// The sync sample behind a sample, as far as the track reaches. Without a
/// list every sample is one.
pub open spec fn next_sync(sample_index: u32, sync: Option<Seq<u32>>, count: u32) -> Option<u32> {
    match sync {
        Some(list) => match first_after(list, sample_index) {
            Some(n) => if n <= count {
                Some(n)
            } else {
                None
            },
            None => None,
        },
        None => if sample_index + 1 <= count {
            Some((sample_index + 1) as u32)
        } else {
            None
        },
    }
}

proof fn lemma_last_through(list: Seq<u32>, x: u32, p: int)
    requires
        0 <= p <= list.len(),
        forall|k: int| p <= k < list.len() ==> #[trigger] list[k] > x,
        p > 0 ==> list[p - 1] <= x,
    ensures
        last_through(list, x) == (if p > 0 {
            Some(list[p - 1])
        } else {
            None
        }),
    decreases list.len(),
{
    if list.len() > p {
        assert(list.last() > x);
        lemma_last_through(list.drop_last(), x, p);
    }
}

proof fn lemma_first_after(list: Seq<u32>, x: u32, p: int)
    requires
        0 <= p <= list.len(),
        forall|k: int| 0 <= k < p ==> #[trigger] list[k] <= x,
        p < list.len() ==> list[p] > x,
    ensures
        first_after(list, x) == (if p < list.len() {
            Some(list[p])
        } else {
            None
        }),
    decreases list.len(),
{
    if p > 0 {
        assert(list[0] <= x);
        assert forall|k: int| 0 <= k < p - 1 implies #[trigger] list.skip(1)[k] <= x by {
            assert(list.skip(1)[k] == list[k + 1]);
        }
        lemma_first_after(list.skip(1), x, p - 1);
    }
}

/// How many numbers of an increasing list are no larger than `x`.
fn count_through(list: &[u32], x: u32) -> (r: usize)
    requires
        is_increasing(list@),
    ensures
        r <= list@.len(),
        forall|k: int| 0 <= k < r ==> #[trigger] list@[k] <= x,
        forall|k: int| r <= k < list@.len() ==> #[trigger] list@[k] > x,
{
    let mut lo: usize = 0;
    let mut hi: usize = list.len();
    while lo < hi
        invariant
            lo <= hi <= list@.len(),
            is_increasing(list@),
            forall|k: int| 0 <= k < lo ==> #[trigger] list@[k] <= x,
            forall|k: int| hi <= k < list@.len() ==> #[trigger] list@[k] > x,
        decreases hi - lo,
    {
        let mid: usize = lo + (hi - lo) / 2;
        if list[mid] <= x {
            assert forall|k: int| 0 <= k < mid + 1 implies #[trigger] list@[k] <= x by {
                if k < mid {
                    assert(list@[k] < list@[mid as int]);
                }
            }
            lo = mid + 1;
        } else {
            assert forall|k: int| mid <= k < list@.len() implies #[trigger] list@[k] > x by {
                if k > mid {
                    assert(list@[mid as int] < list@[k]);
                }
            }
            hi = mid;
        }
    }
    lo
}

/// The sync sample that a sample is decoded from, see `nearest_sync`.
pub fn nearest_sync_sample(sample_index: u32, sync_samples: Option<&[u32]>) -> (r: u32)
    requires
        sync_samples matches Some(list) ==> is_increasing(list@),
    ensures
        r == nearest_sync(sample_index, timing::list_view(sync_samples)),
{
    match sync_samples {
        Some(list) => {
            let p: usize = count_through(list, sample_index);
            proof {
                lemma_last_through(list@, sample_index, p as int);
            }
            if p == 0 {
                1
            } else {
                list[p - 1]
            }
        },
        None => sample_index,
    }
}

/// The sync sample behind a sample, see `next_sync`.
pub fn next_sync_sample(
    sample_index: u32,
    sync_samples: Option<&[u32]>,
    sample_count: u32,
) -> (r: Option<u32>)
    requires
        sync_samples matches Some(list) ==> is_increasing(list@),
    ensures
        r == next_sync(sample_index, timing::list_view(sync_samples), sample_count),
{
    match sync_samples {
        Some(list) => {
            let p: usize = count_through(list, sample_index);
            proof {
                lemma_first_after(list@, sample_index, p as int);
            }
            if p < list.len() && list[p] <= sample_count {
                Some(list[p])
            } else {
                None
            }
        },
        None => if sample_index < sample_count {
            Some(sample_index + 1)
        } else {
            None
        },
    }
}

/// A sample lies between the sync sample that it is decoded from, the last one
/// listed at or before it, and the next one, where the list starts with the
/// first sample.
pub proof fn law_sample_lies_in_its_group(list: Seq<u32>, x: u32, count: u32)
    requires
        is_increasing(list),
        list.len() > 0,
        list[0] == 1,
        1 <= x <= count,
    ensures
        list.contains(nearest_sync(x, Some(list))),
        nearest_sync(x, Some(list)) <= x,
        next_sync(nearest_sync(x, Some(list)), Some(list), count) matches Some(n) ==> x < n,
        forall|k: int|
            0 <= k < list.len() && #[trigger] list[k] <= x ==> list[k] <= nearest_sync(
                x,
                Some(list),
            ),
{
    lemma_group(list, x);
}

proof fn lemma_group(list: Seq<u32>, x: u32)
    requires
        is_increasing(list),
        list.len() > 0,
        list[0] <= x,
    ensures
        last_through(list, x) matches Some(s) && list.contains(s) && s <= x && (first_after(
            list,
            s,
        ) matches Some(n) ==> x < n) && forall|k: int|
            0 <= k < list.len() && #[trigger] list[k] <= x ==> list[k] <= s,
{
    let p = choose_partition(list, x);
    lemma_last_through(list, x, p);
    let s = list[p - 1];
    assert forall|k: int| 0 <= k < p implies #[trigger] list[k] <= s by {
        if k < p - 1 {
            assert(list[k] < list[p - 1]);
        }
    }
    if p < list.len() {
        assert(list[p] > x);
    }
    lemma_first_after(list, s, p);
}

proof fn choose_partition(list: Seq<u32>, x: u32) -> (p: int)
    requires
        is_increasing(list),
        list.len() > 0,
        list[0] <= x,
    ensures
        0 < p <= list.len(),
        list[p - 1] <= x,
        forall|k: int| p <= k < list.len() ==> #[trigger] list[k] > x,
    decreases list.len(),
{
    if list.last() <= x {
        list.len() as int
    } else {
        let q = choose_partition(list.drop_last(), x);
        assert forall|k: int| q <= k < list.len() implies #[trigger] list[k] > x by {
            if k < list.len() - 1 {
                assert(list.drop_last()[k] == list[k]);
            }
        }
        q
    }
}

// --------------------
// Runs of chunks
// --------------------

/// The chunk behind run `k`: the first one of the next run, or the end.
pub open spec fn next_chunk(stsc: Seq<StscEntry>, end: int, k: int) -> int {
    if k + 1 < stsc.len() {
        stsc[k + 1].first_chunk as int
    } else {
        end
    }
}

/// The samples in run `k`.
pub open spec fn run_samples(stsc: Seq<StscEntry>, end: int, k: int) -> int {
    (next_chunk(stsc, end, k) - stsc[k].first_chunk) * stsc[k].samples_per_chunk
}

/// The samples in the first `k` runs.
pub open spec fn samples_before(stsc: Seq<StscEntry>, end: int, k: int) -> int
    decreases k,
{
    if k <= 0 {
        0
    } else {
        samples_before(stsc, end, k - 1) + run_samples(stsc, end, k - 1)
    }
}

/// Whether run `k` has chunks, ends with the table at the latest, and its
/// samples can be counted.
pub open spec fn run_ok(stsc: Seq<StscEntry>, end: int, k: int) -> bool {
    &&& stsc[k].first_chunk < next_chunk(stsc, end, k) <= end
    &&& run_samples(stsc, end, k) <= u32::MAX
    &&& samples_before(stsc, end, k + 1) <= u32::MAX
}

/// The run, at `k` or behind, that holds the sample `t` (0-based). A run that
/// is no good hides those behind it.
pub open spec fn run_of(stsc: Seq<StscEntry>, end: int, t: int, k: int) -> Option<int>
    decreases stsc.len() - k,
{
    if k < 0 || k >= stsc.len() || !run_ok(stsc, end, k) {
        None
    } else if t < samples_before(stsc, end, k + 1) {
        Some(k)
    } else {
        run_of(stsc, end, t, k + 1)
    }
}

/// Whether the first `k` runs are good.
pub open spec fn runs_ok(stsc: Seq<StscEntry>, end: int, k: int) -> bool {
    forall|j: int| 0 <= j < k ==> #[trigger] run_ok(stsc, end, j)
}

/// The samples before a run can be counted, and no earlier run has more before it.
pub proof fn lemma_samples_before(stsc: Seq<StscEntry>, end: int, k: int)
    requires
        0 <= k <= stsc.len(),
        runs_ok(stsc, end, k),
    ensures
        0 <= samples_before(stsc, end, k) <= u32::MAX,
        forall|j: int| 0 <= j <= k ==> #[trigger] samples_before(stsc, end, j) <= samples_before(
            stsc,
            end,
            k,
        ),
    decreases k,
{
    if k > 0 {
        assert(run_ok(stsc, end, k - 1));
        lemma_samples_before(stsc, end, k - 1);
        let n = next_chunk(stsc, end, k - 1) - stsc[k - 1].first_chunk;
        let per = stsc[k - 1].samples_per_chunk as int;
        assert(n * per >= 0) by (nonlinear_arith)
            requires
                n >= 0,
                per >= 0,
        ;
    }
}

/// The sample that a run is found for lies inside that run.
pub proof fn law_sample_lies_in_its_run(stsc: Seq<StscEntry>, end: int, t: int, k: int)
    requires
        0 <= k <= stsc.len(),
        runs_ok(stsc, end, k),
        samples_before(stsc, end, k) <= t,
    ensures
        run_of(stsc, end, t, k) matches Some(r) ==> k <= r < stsc.len() && runs_ok(stsc, end, r + 1)
            && samples_before(stsc, end, r) <= t < samples_before(stsc, end, r + 1),
    decreases stsc.len() - k,
{
    if k < stsc.len() && run_ok(stsc, end, k) {
        assert(runs_ok(stsc, end, k + 1));
        if t >= samples_before(stsc, end, k + 1) {
            law_sample_lies_in_its_run(stsc, end, t, k + 1);
        }
    }
}

/// One run of chunks: consecutive chunks of `samples_per_chunk` samples each,
/// starting at 0-based `first_sample_index`.
#[derive(Debug, Clone, Copy)]
pub struct StscRun {
    pub first_chunk: u32,
    pub samples_per_chunk: u32,
    pub sample_description_index: u32,
    pub first_sample_index: u32,
    pub sample_count: u32,
}

/// Run `k` of a table.
pub open spec fn run_at(stsc: Seq<StscEntry>, end: int, k: int) -> StscRun {
    StscRun {
        first_chunk: stsc[k].first_chunk,
        samples_per_chunk: stsc[k].samples_per_chunk,
        sample_description_index: stsc[k].sample_description_index,
        first_sample_index: samples_before(stsc, end, k) as u32,
        sample_count: run_samples(stsc, end, k) as u32,
    }
}

/// A walk over the runs of a table. It ends at the first run that is no good
/// and then tells so.
pub struct StscRuns<'a> {
    stsc: &'a [StscEntry],
    final_chunk: u32,
    next_entry: usize,
    first_sample_index: u32,
    failed: bool,
}

impl<'a> StscRuns<'a> {
    /// The table.
    pub closed spec fn table(self) -> Seq<StscEntry> {
        self.stsc@
    }

    /// The chunk behind the last one.
    pub closed spec fn end(self) -> int {
        self.final_chunk as int
    }

    /// The number of runs walked.
    pub closed spec fn walked(self) -> int {
        self.next_entry as int
    }

    /// Whether the walk met a run that is no good.
    pub closed spec fn met_bad(self) -> bool {
        self.failed
    }

    #[verifier::type_invariant]
    closed spec fn well_formed(self) -> bool {
        &&& self.next_entry <= self.stsc@.len()
        &&& runs_ok(self.stsc@, self.final_chunk as int, self.next_entry as int)
        &&& self.first_sample_index == samples_before(
            self.stsc@,
            self.final_chunk as int,
            self.next_entry as int,
        )
        &&& self.failed ==> self.next_entry < self.stsc@.len() && !run_ok(
            self.stsc@,
            self.final_chunk as int,
            self.next_entry as int,
        )
    }

    /// A walk over a table for `chunk_count` chunks.
    pub fn new(stsc: &'a [StscEntry], chunk_count: usize) -> (r: Option<Self>)
        ensures
            r is Some == (chunk_count < u32::MAX),
            r matches Some(runs) ==> runs.table() == stsc@ && runs.end() == chunk_count + 1
                && runs.walked() == 0 && !runs.met_bad(),
    {
        if chunk_count as u64 >= u32::MAX as u64 {
            return None;
        }
        Some(
            StscRuns {
                stsc,
                final_chunk: chunk_count as u32 + 1,
                next_entry: 0,
                first_sample_index: 0,
                failed: false,
            },
        )
    }

    /// Whether the walk met a run that is no good.
    pub fn failed(&self) -> (r: bool)
        ensures
            r == self.met_bad(),
            r ==> self.walked() < self.table().len() && !run_ok(
                self.table(),
                self.end(),
                self.walked(),
            ),
            runs_ok(self.table(), self.end(), self.walked()),
            0 <= self.walked() <= self.table().len(),
    {
        proof {
            use_type_invariant(self);
        }
        self.failed
    }

    /// Takes the next run off the walk.
    pub fn next(&mut self) -> (r: Option<StscRun>)
        ensures
            final(self).table() == old(self).table(),
            final(self).end() == old(self).end(),
            0 <= old(self).walked() <= old(self).table().len(),
            runs_ok(old(self).table(), old(self).end(), old(self).walked()),
            match r {
                Some(run) => {
                    &&& old(self).walked() < old(self).table().len()
                    &&& run_ok(old(self).table(), old(self).end(), old(self).walked())
                    &&& run == run_at(old(self).table(), old(self).end(), old(self).walked())
                    &&& final(self).walked() == old(self).walked() + 1
                    &&& !final(self).met_bad() && !old(self).met_bad()
                },
                None => {
                    &&& final(self).walked() == old(self).walked()
                    &&& final(self).met_bad() == (old(self).walked() < old(self).table().len())
                    &&& old(self).walked() < old(self).table().len() ==> !run_ok(
                        old(self).table(),
                        old(self).end(),
                        old(self).walked(),
                    )
                },
            },
    {
        proof {
            use_type_invariant(&*self);
        }
        if self.failed {
            return None;
        }
        if self.next_entry >= self.stsc.len() {
            return None;
        }
        let k: usize = self.next_entry;
        let ghost stsc = self.stsc@;
        let ghost end = self.final_chunk as int;
        let entry: StscEntry = self.stsc[k];
        let next: u32 = if k + 1 < self.stsc.len() {
            self.stsc[k + 1].first_chunk
        } else {
            self.final_chunk
        };
        let mut sample_count: Option<u32> = None;
        if entry.first_chunk < next && next <= self.final_chunk {
            sample_count = (next - entry.first_chunk).checked_mul(entry.samples_per_chunk);
        }
        match sample_count {
            Some(n) => match self.first_sample_index.checked_add(n) {
                Some(run_end) => {
                    let run = StscRun {
                        first_chunk: entry.first_chunk,
                        samples_per_chunk: entry.samples_per_chunk,
                        sample_description_index: entry.sample_description_index,
                        first_sample_index: self.first_sample_index,
                        sample_count: n,
                    };
                    proof {
                        assert(run_ok(stsc, end, k as int));
                        assert(runs_ok(stsc, end, k + 1));
                    }
                    *self = StscRuns {
                        stsc: self.stsc,
                        final_chunk: self.final_chunk,
                        next_entry: k + 1,
                        first_sample_index: run_end,
                        failed: false,
                    };
                    Some(run)
                },
                None => {
                    self.failed = true;
                    None
                },
            },
            None => {
                self.failed = true;
                None
            },
        }
    }
}

/// Whether a sample table has chunks and its first run starts with the first one.
pub open spec fn starts_at_first_chunk(stsc: Seq<StscEntry>, chunk_count: int) -> bool {
    stsc.len() > 0 && stsc[0].first_chunk == 1 && 0 < chunk_count < u32::MAX
}

/// The sample description of a sample (1-based).
pub open spec fn description_of(
    sample_index: u32,
    count: u32,
    stsc: Seq<StscEntry>,
    chunk_count: int,
) -> Option<u32> {
    if sample_index == 0 || sample_index > count || !starts_at_first_chunk(stsc, chunk_count) {
        None
    } else {
        match run_of(stsc, chunk_count + 1, sample_index - 1, 0) {
            Some(k) => Some(stsc[k].sample_description_index),
            None => None,
        }
    }
}

/// The sample description of a sample (1-based), see `description_of`.
pub fn sample_description_index(
    sample_index: u32,
    sizes: &SampleSizes,
    stsc: &[StscEntry],
    chunk_offsets: &[u64],
) -> (r: Option<u32>)
    ensures
        r == description_of(sample_index, sizes@.count, stsc@, chunk_offsets@.len() as int),
{
    if sample_index == 0 || sample_index > sizes.sample_count() || stsc.len() == 0
        || stsc[0].first_chunk != 1 || chunk_offsets.len() == 0 {
        return None;
    }
    let target: u32 = sample_index - 1;
    let ghost end = chunk_offsets@.len() as int + 1;
    let mut runs: StscRuns = match StscRuns::new(stsc, chunk_offsets.len()) {
        Some(runs) => runs,
        None => {
            return None;
        },
    };
    loop
        invariant
            runs.table() == stsc@,
            runs.end() == end,
            0 <= runs.walked() <= stsc@.len(),
            run_of(stsc@, end, target as int, 0) == run_of(
                stsc@,
                end,
                target as int,
                runs.walked(),
            ),
            end == chunk_offsets@.len() as int + 1,
            sample_index > 0,
            target == sample_index - 1,
            sample_index <= sizes@.count,
            starts_at_first_chunk(stsc@, chunk_offsets@.len() as int),
        decreases stsc@.len() - runs.walked(),
    {
        let ghost k = runs.walked();
        match runs.next() {
            Some(run) => {
                proof {
                    assert(runs_ok(stsc@, end, k + 1));
                    lemma_samples_before(stsc@, end, k);
                    lemma_samples_before(stsc@, end, k + 1);
                }
                if target < run.first_sample_index + run.sample_count {
                    return Some(run.sample_description_index);
                }
            },
            None => {
                return None;
            },
        }
    }
}

/// Whether the run at `k` or behind that holds the sample `t` uses a description.
pub open spec fn sample_uses(stsc: Seq<StscEntry>, end: int, t: int, index: u32, k: int) -> bool {
    match run_of(stsc, end, t, k) {
        Some(r) => stsc[r].sample_description_index == index,
        None => false,
    }
}

/// Whether each of the samples `first..=last` uses a description, looked up
/// from run `k` on.
pub open spec fn each_uses(
    stsc: Seq<StscEntry>,
    end: int,
    first: int,
    last: int,
    index: u32,
    k: int,
) -> bool {
    forall|t: int| first <= t <= last ==> #[trigger] sample_uses(stsc, end, t, index, k)
}

/// Whether each of the samples `start_sample..=end_sample` (1-based) uses a
/// description. There must be such a range.
pub open spec fn range_uses(
    start_sample: u32,
    end_sample: u32,
    index: u32,
    stsc: Seq<StscEntry>,
    chunk_count: int,
) -> bool {
    &&& 1 <= start_sample <= end_sample
    &&& chunk_count < u32::MAX
    &&& each_uses(stsc, chunk_count + 1, start_sample - 1, end_sample - 1, index, 0)
}

/// Whether the runs with samples from `k` on that reach past `first` use one
/// description until one of them reaches past `last`.
spec fn range_shares(
    stsc: Seq<StscEntry>,
    end: int,
    first: int,
    last: int,
    index: u32,
    k: int,
) -> bool
    decreases stsc.len() - k,
{
    if k < 0 || k >= stsc.len() || !run_ok(stsc, end, k) {
        false
    } else if samples_before(stsc, end, k + 1) <= first || run_samples(stsc, end, k) == 0 {
        range_shares(stsc, end, first, last, index, k + 1)
    } else if stsc[k].sample_description_index != index {
        false
    } else if samples_before(stsc, end, k + 1) > last {
        true
    } else {
        range_shares(stsc, end, first, last, index, k + 1)
    }
}

proof fn lemma_each_uses_next(
    stsc: Seq<StscEntry>,
    end: int,
    first: int,
    last: int,
    index: u32,
    k: int,
)
    requires
        0 <= k < stsc.len(),
        run_ok(stsc, end, k),
        samples_before(stsc, end, k + 1) <= first,
    ensures
        each_uses(stsc, end, first, last, index, k) == each_uses(
            stsc,
            end,
            first,
            last,
            index,
            k + 1,
        ),
{
    assert forall|t: int| first <= t <= last implies #[trigger] sample_uses(stsc, end, t, index, k)
        == sample_uses(stsc, end, t, index, k + 1) by {}
    if each_uses(stsc, end, first, last, index, k) {
        assert forall|t: int| first <= t <= last implies #[trigger] sample_uses(
            stsc,
            end,
            t,
            index,
            k + 1,
        ) by {
            assert(sample_uses(stsc, end, t, index, k));
        }
    }
}

proof fn lemma_range_shares(
    stsc: Seq<StscEntry>,
    end: int,
    first: int,
    last: int,
    index: u32,
    k: int,
)
    requires
        0 <= k <= stsc.len(),
        0 <= first <= last,
        runs_ok(stsc, end, k),
        samples_before(stsc, end, k) <= last,
    ensures
        range_shares(stsc, end, first, last, index, k) == each_uses(
            stsc,
            end,
            if samples_before(stsc, end, k) > first {
                samples_before(stsc, end, k)
            } else {
                first
            },
            last,
            index,
            k,
        ),
    decreases stsc.len() - k,
{
    let b = samples_before(stsc, end, k);
    let lo = if b > first {
        b
    } else {
        first
    };
    if k >= stsc.len() || !run_ok(stsc, end, k) {
        assert(!sample_uses(stsc, end, last, index, k));
    } else {
        assert(runs_ok(stsc, end, k + 1));
        let e = samples_before(stsc, end, k + 1);
        let n = next_chunk(stsc, end, k) - stsc[k].first_chunk;
        let per = stsc[k].samples_per_chunk as int;
        assert(n * per >= 0) by (nonlinear_arith)
            requires
                n >= 1,
                per >= 0,
        ;
        if e <= first || e == b {
            lemma_range_shares(stsc, end, first, last, index, k + 1);
            lemma_each_uses_next(stsc, end, lo, last, index, k);
        } else if stsc[k].sample_description_index != index {
            assert(!sample_uses(stsc, end, lo, index, k));
        } else if e > last {
            assert forall|t: int| lo <= t <= last implies #[trigger] sample_uses(
                stsc,
                end,
                t,
                index,
                k,
            ) by {}
        } else {
            lemma_range_shares(stsc, end, first, last, index, k + 1);
            lemma_each_uses_next(stsc, end, e, last, index, k);
            if each_uses(stsc, end, e, last, index, k) {
                assert forall|t: int| lo <= t <= last implies #[trigger] sample_uses(
                    stsc,
                    end,
                    t,
                    index,
                    k,
                ) by {}
            } else {
                let t = choose|t: int|
                    e <= t <= last && !#[trigger] sample_uses(stsc, end, t, index, k);
                assert(!sample_uses(stsc, end, t, index, k));
            }
        }
    }
}

/// A range of the samples of a table that starts with the first chunk uses a
/// description just when each of its samples has that description.
pub proof fn law_range_uses_when_each_sample_does(
    stsc: Seq<StscEntry>,
    chunk_count: int,
    count: u32,
    start_sample: u32,
    end_sample: u32,
    index: u32,
)
    requires
        1 <= start_sample <= end_sample <= count,
        starts_at_first_chunk(stsc, chunk_count),
    ensures
        range_uses(start_sample, end_sample, index, stsc, chunk_count) == (forall|s: u32|
            start_sample <= s <= end_sample ==> #[trigger] description_of(
                s,
                count,
                stsc,
                chunk_count,
            ) == Some(index)),
{
    let end = chunk_count + 1;
    if range_uses(start_sample, end_sample, index, stsc, chunk_count) {
        assert forall|s: u32| start_sample <= s <= end_sample implies #[trigger] description_of(
            s,
            count,
            stsc,
            chunk_count,
        ) == Some(index) by {
            assert(sample_uses(stsc, end, s - 1, index, 0));
        }
    }
    if forall|s: u32|
        start_sample <= s <= end_sample ==> #[trigger] description_of(s, count, stsc, chunk_count)
            == Some(index) {
        assert forall|t: int| start_sample - 1 <= t <= end_sample - 1 implies #[trigger] sample_uses(
            stsc,
            end,
            t,
            index,
            0,
        ) by {
            assert(description_of((t + 1) as u32, count, stsc, chunk_count) == Some(index));
        }
    }
}

/// Checks whether every sample in `start_sample..=end_sample` (1-based) uses
/// `description_index`, walking the runs once.
pub fn range_uses_description_index(
    start_sample: u32,
    end_sample: u32,
    description_index: u32,
    stsc: &[StscEntry],
    chunk_offsets: &[u64],
) -> (r: bool)
    ensures
        r == range_uses(
            start_sample,
            end_sample,
            description_index,
            stsc@,
            chunk_offsets@.len() as int,
        ),
{
    if start_sample == 0 || end_sample < start_sample {
        return false;
    }
    let first: u32 = start_sample - 1;
    let last: u32 = end_sample - 1;
    let ghost end = chunk_offsets@.len() as int + 1;
    let mut runs: StscRuns = match StscRuns::new(stsc, chunk_offsets.len()) {
        Some(runs) => runs,
        None => {
            return false;
        },
    };
    proof {
        lemma_range_shares(stsc@, end, first as int, last as int, description_index, 0);
    }
    loop
        invariant
            runs.table() == stsc@,
            runs.end() == end,
            0 <= runs.walked() <= stsc@.len(),
            range_uses(
                start_sample,
                end_sample,
                description_index,
                stsc@,
                chunk_offsets@.len() as int,
            ) == range_shares(
                stsc@,
                end,
                first as int,
                last as int,
                description_index,
                runs.walked(),
            ),
        decreases stsc@.len() - runs.walked(),
    {
        let ghost k = runs.walked();
        match runs.next() {
            Some(run) => {
                proof {
                    assert(runs_ok(stsc@, end, k + 1));
                    lemma_samples_before(stsc@, end, k);
                    lemma_samples_before(stsc@, end, k + 1);
                }
                let run_end: u32 = run.first_sample_index + run.sample_count;
                if run_end > first && run.sample_count > 0 {
                    if run.sample_description_index != description_index {
                        return false;
                    }
                    if run_end > last {
                        return true;
                    }
                }
            },
            None => {
                return false;
            },
        }
    }
}

} // verus!
