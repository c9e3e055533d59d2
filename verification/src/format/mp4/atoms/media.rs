//! Track, media and sample description headers.

use vstd::prelude::*;
use super::budget::{RetainedBudget, TableParseError};
use super::read;
use super::read::{read_box, BoxRead};
use crate::boxes::tail;
use crate::bytes;
use crate::bytes::{read_u16_be, read_u32_be, read_u64_be};
use crate::text;
use crate::text::utf8_lossy;

verus! {

/// The header of a track.
#[derive(Debug, Clone, Copy, PartialEq, Eq, Structural)]
pub struct TrackHeader {
    pub id: u32,
    pub track_enabled: bool,
    pub duration: u64,
    pub width: u32,
    pub height: u32,
}

/// The header of the media of a track.
#[derive(Debug, Clone, Copy)]
pub struct MediaHeader {
    pub timescale: u32,
    pub duration: u64,
    pub language: Option<[u8; 3]>,
}

/// What a media header holds.
pub struct MediaHeaderView {
    pub timescale: u32,
    pub duration: u64,
    pub language: Option<Seq<u8>>,
}

/// What an optional language code holds.
pub open spec fn code_view(code: Option<[u8; 3]>) -> Option<Seq<u8>> {
    match code {
        Some(c) => Some(c@),
        None => None,
    }
}

impl View for MediaHeader {
    type V = MediaHeaderView;

    open spec fn view(&self) -> MediaHeaderView {
        MediaHeaderView {
            timescale: self.timescale,
            duration: self.duration,
            language: code_view(self.language),
        }
    }
}

/// The first entry of a sample description, decoded.
#[derive(Debug, Clone)]
pub struct SampleDescription<T> {
    pub codec: String,
    pub entry_count: u32,
    pub entry: T,
}

/// The codec of one entry of a sample description.
#[derive(Debug, Clone)]
pub struct SampleDescriptionEntry {
    pub codec: String,
}

/// The integral part of a 16.16 fixed-point number, zero where it is cut off.
pub open spec fn fixed_at(data: Seq<u8>, at: int) -> u32 {
    if at + 4 <= data.len() {
        bytes::be32(data, at) / 0x1_0000
    } else {
        0
    }
}

/// The track header in a `tkhd` payload. Version 0 has 32-bit times, version 1
/// has 64-bit ones.
pub open spec fn track_header(tkhd: Seq<u8>) -> Option<TrackHeader> {
    if tkhd.len() == 0 {
        None
    } else if tkhd[0] == 0 && tkhd.len() >= 24 {
        Some(
            TrackHeader {
                id: bytes::be32(tkhd, 12),
                track_enabled: tkhd[3] % 2 == 1,
                duration: bytes::be32(tkhd, 20) as u64,
                width: fixed_at(tkhd, 76),
                height: fixed_at(tkhd, 80),
            },
        )
    } else if tkhd[0] == 1 && tkhd.len() >= 36 {
        Some(
            TrackHeader {
                id: bytes::be32(tkhd, 20),
                track_enabled: tkhd[3] % 2 == 1,
                duration: bytes::be64(tkhd, 28),
                width: fixed_at(tkhd, 88),
                height: fixed_at(tkhd, 92),
            },
        )
    } else {
        None
    }
}

/// The whole part of the 16.16 number at an offset, 0 where the data ends before.
pub fn read_fixed_16_16(buf: &[u8], offset: usize) -> (r: u32)
    ensures
        r == fixed_at(buf@, offset as int),
{
    match read_u32_be(buf, offset) {
        Some(v) => v / 0x1_0000,
        None => 0,
    }
}

/// Reads a track header.
pub fn parse_tkhd(tkhd: &[u8]) -> (r: Option<TrackHeader>)
    ensures
        r == track_header(tkhd@),
{
    if tkhd.len() == 0 {
        return None;
    }
    if tkhd[0] == 0 && tkhd.len() >= 24 {
        match (read_u32_be(tkhd, 12), read_u32_be(tkhd, 20)) {
            (Some(id), Some(duration)) => Some(
                TrackHeader {
                    id,
                    track_enabled: tkhd[3] % 2 == 1,
                    duration: duration as u64,
                    width: read_fixed_16_16(tkhd, 76),
                    height: read_fixed_16_16(tkhd, 80),
                },
            ),
            _ => None,
        }
    } else if tkhd[0] == 1 && tkhd.len() >= 36 {
        match (read_u32_be(tkhd, 20), read_u64_be(tkhd, 28)) {
            (Some(id), Some(duration)) => Some(
                TrackHeader {
                    id,
                    track_enabled: tkhd[3] % 2 == 1,
                    duration,
                    width: read_fixed_16_16(tkhd, 88),
                    height: read_fixed_16_16(tkhd, 92),
                },
            ),
            _ => None,
        }
    } else {
        None
    }
}

/// The three letters of a packed language code.
pub open spec fn code_letters(code: u16) -> Seq<u8> {
    seq![
        (0x60 + code / 1024 % 32) as u8,
        (0x60 + code / 32 % 32) as u8,
        (0x60 + code % 32) as u8,
    ]
}

/// Whether a byte is one of the letters a to z.
pub open spec fn is_lower(b: u8) -> bool {
    0x61 <= b <= 0x7a
}

/// The language that a packed code names: none for zero, for `und` and for
/// what is not made of three letters.
pub open spec fn language_of(code: u16) -> Option<Seq<u8>> {
    let l = code_letters(code);
    if code == 0 || !(is_lower(l[0]) && is_lower(l[1]) && is_lower(l[2])) || l == seq![
        0x75u8,
        0x6e,
        0x64,
    ] {
        None
    } else {
        Some(l)
    }
}

/// Unpacks a language code.
pub fn decode_language(code: u16) -> (r: Option<[u8; 3]>)
    ensures
        code_view(r) == language_of(code),
{
    if code == 0 {
        return None;
    }
    let chars: [u8; 3] = [
        0x60 + (code / 1024 % 32) as u8,
        0x60 + (code / 32 % 32) as u8,
        0x60 + (code % 32) as u8,
    ];
    assert(chars@ =~= code_letters(code));
    let lower: bool = 0x61 <= chars[0] && chars[0] <= 0x7a && 0x61 <= chars[1] && chars[1] <= 0x7a
        && 0x61 <= chars[2] && chars[2] <= 0x7a;
    let und: bool = chars[0] == 0x75 && chars[1] == 0x6e && chars[2] == 0x64;
    proof {
        if und {
            assert(chars@ =~= seq![0x75u8, 0x6e, 0x64]);
        }
    }
    if lower && !und {
        Some(chars)
    } else {
        None
    }
}

/// The language at an offset of an `mdhd` payload.
pub open spec fn language_at(mdhd: Seq<u8>, at: int) -> Option<Seq<u8>> {
    if at + 2 <= mdhd.len() {
        language_of(bytes::be16(mdhd, at))
    } else {
        None
    }
}

/// The media header in an `mdhd` payload. Version 0 has 32-bit times, version
/// 1 has 64-bit ones.
pub open spec fn media_header(mdhd: Seq<u8>) -> Option<MediaHeaderView> {
    if mdhd.len() == 0 {
        None
    } else if mdhd[0] == 0 && mdhd.len() >= 20 {
        Some(
            MediaHeaderView {
                timescale: bytes::be32(mdhd, 12),
                duration: bytes::be32(mdhd, 16) as u64,
                language: language_at(mdhd, 20),
            },
        )
    } else if mdhd[0] == 1 && mdhd.len() >= 32 {
        Some(
            MediaHeaderView {
                timescale: bytes::be32(mdhd, 20),
                duration: bytes::be64(mdhd, 24),
                language: language_at(mdhd, 32),
            },
        )
    } else {
        None
    }
}

/// Reads the language at an offset of an `mdhd` payload.
pub fn read_language(mdhd: &[u8], at: usize) -> (r: Option<[u8; 3]>)
    ensures
        code_view(r) == language_at(mdhd@, at as int),
{
    match read_u16_be(mdhd, at) {
        Some(code) => decode_language(code),
        None => None,
    }
}

/// What an optional media header holds.
pub open spec fn header_view(h: Option<MediaHeader>) -> Option<MediaHeaderView> {
    match h {
        Some(header) => Some(header@),
        None => None,
    }
}

/// Reads a media header.
pub fn parse_mdhd(mdhd: &[u8]) -> (r: Option<MediaHeader>)
    ensures
        header_view(r) == media_header(mdhd@),
{
    if mdhd.len() == 0 {
        return None;
    }
    if mdhd[0] == 0 && mdhd.len() >= 20 {
        match (read_u32_be(mdhd, 12), read_u32_be(mdhd, 16)) {
            (Some(timescale), Some(duration)) => Some(
                MediaHeader {
                    timescale,
                    duration: duration as u64,
                    language: read_language(mdhd, 20),
                },
            ),
            _ => None,
        }
    } else if mdhd[0] == 1 && mdhd.len() >= 32 {
        match (read_u32_be(mdhd, 20), read_u64_be(mdhd, 24)) {
            (Some(timescale), Some(duration)) => Some(
                MediaHeader { timescale, duration, language: read_language(mdhd, 32) },
            ),
            _ => None,
        }
    } else {
        None
    }
}

/// The handler type in an `hdlr` payload.
pub open spec fn handler_type(hdlr: Seq<u8>) -> Option<Seq<u8>> {
    if hdlr.len() >= 12 {
        Some(hdlr.subrange(8, 12))
    } else {
        None
    }
}

/// What an optional four-character code holds.
pub open spec fn fourcc_view(f: Option<[u8; 4]>) -> Option<Seq<u8>> {
    match f {
        Some(c) => Some(c@),
        None => None,
    }
}

/// Reads the handler type.
pub fn parse_hdlr(hdlr: &[u8]) -> (r: Option<[u8; 4]>)
    ensures
        fourcc_view(r) == handler_type(hdlr@),
{
    if hdlr.len() < 12 {
        return None;
    }
    let f: [u8; 4] = [hdlr[8], hdlr[9], hdlr[10], hdlr[11]];
    assert(f@ =~= hdlr@.subrange(8, 12));
    Some(f)
}

/// The first entry of a sample description.
pub open spec fn first_description(stsd: Seq<u8>) -> Option<read::BoxView> {
    if stsd.len() < 8 {
        None
    } else {
        read::first_box(stsd.skip(8))
    }
}

/// Whether a decoder may make `out` of a payload.
pub open spec fn decodes_to<T, F: FnOnce(&[u8]) -> T>(f: F, payload: Seq<u8>, out: T) -> bool {
    exists|p: &[u8]| #[trigger] p@ == payload && call_ensures(f, (p,), out)
}

/// Reads the first entry of a sample description and decodes its payload.
pub fn parse_stsd<T, F: FnOnce(&[u8]) -> T>(stsd: &[u8], decode_entry: F) -> (r: Option<
    SampleDescription<T>,
>)
    requires
        forall|p: &[u8]| #[trigger] call_requires(decode_entry, (p,)),
    ensures
        r is Some == first_description(stsd@) is Some,
        r matches Some(d) ==> {
            &&& d.entry_count == bytes::be32(stsd@, 4)
            &&& d.codec@ == text::lossy_utf8(first_description(stsd@)->0.fourcc)
            &&& decodes_to(decode_entry, first_description(stsd@)->0.payload, d.entry)
        },
{
    if stsd.len() < 8 {
        return None;
    }
    let entry_count: u32 = match read_u32_be(stsd, 4) {
        Some(n) => n,
        None => {
            return None;
        },
    };
    match read_box(tail(stsd, 8), 0) {
        Some(b) => {
            assert(stsd@.skip(8).skip(0) =~= stsd@.skip(8));
            let ghost decoder = decode_entry;
            let payload: &[u8] = b.payload;
            let entry: T = decode_entry(payload);
            assert(decodes_to(decoder, payload@, entry)) by {
                assert(payload@ == payload@ && call_ensures(decoder, (payload,), entry));
            }
            let d = SampleDescription { codec: fourcc_string(b.fourcc), entry_count, entry };
            assert(payload@ == first_description(stsd@)->0.payload);
            assert(d.codec@ == text::lossy_utf8(first_description(stsd@)->0.fourcc));
            assert(d.entry_count == bytes::be32(stsd@, 4));
            Some(d)
        },
        None => {
            assert(stsd@.skip(8).skip(0) =~= stsd@.skip(8));
            None
        },
    }
}

/// The bytes accounted for each entry kept, besides its text.
pub const ENTRY_BYTES: usize = 24;

/// The first `count` boxes of `data` with what follows them, where there are that many.
pub open spec fn split_boxes(data: Seq<u8>, count: nat) -> Option<(Seq<Seq<u8>>, Seq<u8>)>
    decreases count,
{
    if count == 0 {
        Some((Seq::empty(), data))
    } else {
        match split_boxes(data, (count - 1) as nat) {
            Some((before, rest)) => match read::first_box(rest) {
                Some(b) => Some((before.push(b.fourcc), rest.skip(b.total_size))),
                None => None,
            },
            None => None,
        }
    }
}

/// The types of the entries of a sample description that holds just the
/// entries that it counts.
pub open spec fn description_types(stsd: Seq<u8>) -> Option<Seq<Seq<u8>>> {
    if stsd.len() < 8 {
        None
    } else {
        match split_boxes(stsd.skip(8), bytes::be32(stsd, 4) as nat) {
            Some((types, rest)) => if rest.len() == 0 {
                Some(types)
            } else {
                None
            },
            None => None,
        }
    }
}

/// The bytes that the entries of a sample description are accounted for.
pub open spec fn types_cost(types: Seq<Seq<u8>>) -> int
    decreases types.len(),
{
    if types.len() == 0 {
        0
    } else {
        types_cost(types.drop_last()) + vstd::utf8::encode_utf8(
            text::lossy_utf8(types.last()),
        ).len()
    }
}

/// Whether the entries kept are named after the types of a sample description.
pub open spec fn named_after(entries: Seq<SampleDescriptionEntry>, types: Seq<Seq<u8>>) -> bool {
    &&& entries.len() == types.len()
    &&& forall|i: int|
        0 <= i < types.len() ==> (#[trigger] entries[i]).codec@ == text::lossy_utf8(types[i])
}

/// The prefix of a split is that of a shorter one.
proof fn lemma_split_shorter(data: Seq<u8>, k: nat, n: nat)
    requires
        k <= n,
        split_boxes(data, n) is Some,
    ensures
        split_boxes(data, k) is Some,
    decreases n,
{
    if k < n {
        lemma_split_shorter(data, k, (n - 1) as nat);
    }
}

/// A split takes at least eight bytes for each box.
proof fn lemma_split_len(data: Seq<u8>, n: nat)
    ensures
        split_boxes(data, n) matches Some((types, rest)) ==> types.len() == n && 8 * n
            + rest.len() <= data.len(),
    decreases n,
{
    if n > 0 {
        lemma_split_len(data, (n - 1) as nat);
    }
}

/// Reads the types of all entries of a sample description, accounting for
/// each entry and its text. Nothing is accounted for where the count cannot
/// fit the data.
pub fn parse_stsd_entries_bounded(stsd: &[u8], budget: &mut RetainedBudget) -> (r: Result<
    Vec<SampleDescriptionEntry>,
    TableParseError,
>)
    ensures
        final(budget).limit() == old(budget).limit(),
        match r {
            Ok(list) => {
                &&& description_types(stsd@) is Some
                &&& named_after(list@, description_types(stsd@)->0)
                &&& final(budget).used() == old(budget).used() + ENTRY_BYTES * list@.len()
                    + types_cost(description_types(stsd@)->0)
            },
            Err(TableParseError::Invalid(_)) => description_types(stsd@) is None,
            Err(TableParseError::BudgetExceeded) => {
                &&& stsd@.len() >= 8
                &&& bytes::be32(stsd@, 4) <= (stsd@.len() - 8) / 8
                &&& description_types(stsd@) matches Some(types) ==> old(budget).used()
                    + ENTRY_BYTES * types.len() + types_cost(types) > old(budget).limit()
            },
        },
        stsd@.len() < 8 || bytes::be32(stsd@, 4) > (stsd@.len() - 8) / 8 ==> r is Err
            && final(budget).used() == old(budget).used(),
{
    if stsd.len() < 8 {
        return Err(TableParseError::Invalid("malformed stsd table"));
    }
    let raw_count: u32 = match read_u32_be(stsd, 4) {
        Some(n) => n,
        None => {
            return Err(TableParseError::Invalid("malformed stsd table"));
        },
    };
    let entries_bytes: &[u8] = tail(stsd, 8);
    let ghost data = entries_bytes@;
    proof {
        lemma_split_len(data, raw_count as nat);
    }
    if raw_count as u64 > (entries_bytes.len() / 8) as u64 {
        return Err(TableParseError::Invalid("malformed stsd entry count"));
    }
    let count: usize = raw_count as usize;
    proof {
        if split_boxes(data, count as nat) is Some {
            lemma_cost_nonneg(split_boxes(data, count as nat)->Some_0.0, count as int);
        }
    }
    let keep: usize = match count.checked_mul(ENTRY_BYTES) {
        Some(n) => n,
        None => {
            let _used: usize = budget.used_bytes();
            return Err(TableParseError::BudgetExceeded);
        },
    };
    match budget.charge_bytes(keep) {
        Ok(()) => {},
        Err(e) => {
            return Err(e);
        },
    }
    let mut out: Vec<SampleDescriptionEntry> = Vec::new();
    let mut offset: usize = 0;
    let mut i: usize = 0;
    assert(data.skip(0) =~= data);
    let len: usize = entries_bytes.len();
    while i < count
        invariant
            i <= count,
            count == bytes::be32(stsd@, 4),
            stsd@.len() >= 8,
            count <= (stsd@.len() - 8) / 8,
            data == stsd@.skip(8),
            data == entries_bytes@,
            len == data.len(),
            offset <= len,
            split_boxes(data, i as nat) matches Some((types, rest)) && rest == data.skip(
                offset as int,
            ) && named_after(out@, types) && budget.used() == old(budget).used() + ENTRY_BYTES
                * count + types_cost(types),
            budget.limit() == old(budget).limit(),
        decreases count - i,
    {
        let ghost before = split_boxes(data, i as nat)->Some_0.0;
        proof {
            if split_boxes(data, count as nat) is Some {
                lemma_split_shorter(data, (i + 1) as nat, count as nat);
                lemma_split_len(data, count as nat);
                lemma_cost_grows(data, (i + 1) as nat, count as nat);
            }
        }
        let b: BoxRead = match read_box(entries_bytes, offset) {
            Some(b) => b,
            None => {
                return Err(TableParseError::Invalid("malformed stsd entry"));
            },
        };
        let codec: String = fourcc_string(b.fourcc);
        proof {
            let next = before.push(b.fourcc@);
            assert(next.drop_last() =~= before);
            assert(split_boxes(data, (i + 1) as nat)->Some_0.0 == next);
        }
        match budget.charge_bytes(codec.as_str().as_bytes().len()) {
            Ok(()) => {},
            Err(e) => {
                return Err(e);
            },
        }
        assert(data.skip(offset as int).skip(b.total_size as int) =~= data.skip(
            offset + b.total_size,
        ));
        offset = offset + b.total_size;
        out.push(SampleDescriptionEntry { codec });
        i = i + 1;
    }
    if offset != len {
        return Err(TableParseError::Invalid("trailing bytes in stsd table"));
    }
    Ok(out)
}

proof fn lemma_cost_nonneg(types: Seq<Seq<u8>>, n: int)
    ensures
        types_cost(types) >= 0,
    decreases types.len(),
{
    if types.len() > 0 {
        lemma_cost_nonneg(types.drop_last(), n);
    }
}

/// A longer split costs no less than a shorter one.
proof fn lemma_cost_grows(data: Seq<u8>, k: nat, n: nat)
    requires
        k <= n,
        split_boxes(data, n) is Some,
    ensures
        split_boxes(data, k) is Some,
        types_cost(split_boxes(data, k)->Some_0.0) <= types_cost(split_boxes(data, n)->Some_0.0),
    decreases n,
{
    if k < n {
        lemma_split_shorter(data, (n - 1) as nat, n);
        lemma_cost_grows(data, k, (n - 1) as nat);
        let before = split_boxes(data, (n - 1) as nat)->Some_0.0;
        let all = split_boxes(data, n)->Some_0.0;
        assert(all.drop_last() =~= before);
    }
}

/// A 16-bit integer widened, where it lies inside the data.
pub open spec fn short_at(data: Seq<u8>, at: int) -> Option<u32> {
    if at + 2 <= data.len() {
        Some(bytes::be16(data, at) as u32)
    } else {
        None
    }
}

/// The width and the height in a visual sample entry.
pub open spec fn entry_size(payload: Seq<u8>) -> (Option<u32>, Option<u32>) {
    (short_at(payload, 24), short_at(payload, 26))
}

fn read_short(payload: &[u8], at: usize) -> (r: Option<u32>)
    ensures
        r == short_at(payload@, at as int),
{
    match read_u16_be(payload, at) {
        Some(v) => Some(v as u32),
        None => None,
    }
}

/// Reads the width and the height of a visual sample entry.
pub fn visual_dimensions(payload: &[u8]) -> (r: (Option<u32>, Option<u32>))
    ensures
        r == entry_size(payload@),
{
    (read_short(payload, 24), read_short(payload, 26))
}

/// The significand of a positive 64-bit floating-point number.
pub open spec fn significand(bits: u64) -> int {
    if bits / 0x10_0000_0000_0000 == 0 {
        bits as int
    } else {
        0x10_0000_0000_0000 + bits % 0x10_0000_0000_0000
    }
}

/// How far the significand of a positive 64-bit floating-point number is
/// shifted down.
pub open spec fn down_shift(bits: u64) -> int {
    if bits / 0x10_0000_0000_0000 == 0 {
        1074
    } else {
        1075 - bits / 0x10_0000_0000_0000
    }
}

/// The integer closest to a 64-bit floating-point number (halves go up),
/// where that is finite, positive and no larger than the largest 32-bit integer.
pub open spec fn rounded_rate(bits: u64) -> Option<u32> {
    if bits == 0 || bits >= 0x7ff0_0000_0000_0000 || down_shift(bits) < 21 {
        None
    } else {
        let scale = vstd::arithmetic::power2::pow2(down_shift(bits) as nat) as int;
        if significand(bits) > 0xffff_ffff * scale {
            None
        } else {
            Some(((2 * significand(bits) + scale) / (2 * scale)) as u32)
        }
    }
}

fn power_of_two(n: u32) -> (r: u64)
    requires
        n <= 62,
    ensures
        r == vstd::arithmetic::power2::pow2(n as nat),
        r <= 0x4000_0000_0000_0000,
{
    let mut r: u64 = 1;
    let mut i: u32 = 0;
    proof {
        vstd::arithmetic::power2::lemma2_to64();
        vstd::arithmetic::power2::lemma2_to64_rest();
    }
    while i < n
        invariant
            i <= n <= 62,
            r == vstd::arithmetic::power2::pow2(i as nat),
            r <= 0x4000_0000_0000_0000,
        decreases n - i,
    {
        proof {
            vstd::arithmetic::power2::lemma_pow2_unfold((i + 1) as nat);
            vstd::arithmetic::power2::lemma2_to64_rest();
            if i + 1 < 62 {
                vstd::arithmetic::power2::lemma_pow2_strictly_increases((i + 1) as nat, 62);
            }
        }
        r = r * 2;
        i = i + 1;
    }
    r
}

/// Rounds a 64-bit floating-point number given by its bits, see `rounded_rate`.
pub fn rate_from_bits(bits: u64) -> (r: Option<u32>)
    ensures
        r == rounded_rate(bits),
{
    if bits == 0 || bits >= 0x7ff0_0000_0000_0000 {
        return None;
    }
    let exponent: u64 = bits / 0x10_0000_0000_0000;
    let (sig, shift): (u64, u32) = if exponent == 0 {
        (bits, 1074)
    } else {
        if exponent > 1054 {
            return None;
        }
        (0x10_0000_0000_0000 + bits % 0x10_0000_0000_0000, 1075 - exponent as u32)
    };
    if shift > 54 {
        proof {
            vstd::arithmetic::power2::lemma2_to64_rest();
            vstd::arithmetic::power2::lemma_pow2_strictly_increases(54, shift as nat);
            let scale = vstd::arithmetic::power2::pow2(shift as nat) as int;
            assert(2 * sig < scale);
            assert((2 * sig + scale) / (2 * scale) == 0) by (nonlinear_arith)
                requires
                    0 <= 2 * sig < scale,
            ;
        }
        return Some(0);
    }
    let scale: u64 = power_of_two(shift);
    proof {
        vstd::arithmetic::power2::lemma2_to64_rest();
        if shift < 54 {
            vstd::arithmetic::power2::lemma_pow2_strictly_increases(shift as nat, 54);
        }
        if 21 < shift {
            vstd::arithmetic::power2::lemma_pow2_strictly_increases(21, shift as nat);
        }
        vstd::arithmetic::power2::lemma2_to64();
    }
    if sig as u128 > 0xffff_ffffu128 * scale as u128 {
        return None;
    }
    let rounded: u64 = (2 * sig + scale) / (2 * scale);
    proof {
        let n = 2 * sig + scale;
        let d = 2 * scale as int;
        assert(n / d <= 0xffff_ffff) by (nonlinear_arith)
            requires
                n == 2 * sig + scale,
                d == 2 * scale,
                0 < scale,
                0 <= sig <= 0xffff_ffff * scale,
        ;
    }
    Some(rounded as u32)
}

/// The channel count and the sample rate in an audio sample entry, by its
/// version: 0 and 1 have a 16-bit count and a 16.16 rate, 2 has a 32-bit
/// count and a floating-point rate.
pub open spec fn audio_fields(payload: Seq<u8>) -> (Option<u16>, Option<u32>) {
    if payload.len() < 10 {
        (None, None)
    } else if bytes::be16(payload, 8) <= 1 {
        (
            if payload.len() >= 18 {
                Some(bytes::be16(payload, 16))
            } else {
                None
            },
            if payload.len() >= 28 {
                Some(bytes::be32(payload, 24) / 0x1_0000)
            } else {
                None
            },
        )
    } else if bytes::be16(payload, 8) == 2 {
        (
            if payload.len() >= 44 && bytes::be32(payload, 40) <= 0xffff {
                Some(bytes::be32(payload, 40) as u16)
            } else {
                None
            },
            if payload.len() >= 40 {
                rounded_rate(bytes::be64(payload, 32))
            } else {
                None
            },
        )
    } else {
        (None, None)
    }
}

/// Reads the channel count and the sample rate of an audio sample entry.
pub fn audio_params(payload: &[u8]) -> (r: (Option<u16>, Option<u32>))
    ensures
        r == audio_fields(payload@),
{
    match read_u16_be(payload, 8) {
        Some(version) => {
            if version <= 1 {
                (
                    read_u16_be(payload, 16),
                    match read_u32_be(payload, 24) {
                        Some(rate) => Some(rate / 0x1_0000),
                        None => None,
                    },
                )
            } else if version == 2 {
                (
                    match read_u32_be(payload, 40) {
                        Some(channels) => if channels <= 0xffff {
                            Some(channels as u16)
                        } else {
                            None
                        },
                        None => None,
                    },
                    match read_u64_be(payload, 32) {
                        Some(bits) => rate_from_bits(bits),
                        None => None,
                    },
                )
            } else {
                (None, None)
            }
        },
        None => (None, None),
    }
}

/// A four-character code as text.
pub fn fourcc_string(fourcc: [u8; 4]) -> (r: String)
    ensures
        r@ == text::lossy_utf8(fourcc@),
{
    utf8_lossy(&fourcc)
}

/// The channels and the sample rate of an audio sample entry are read back, from
/// the fields that its version has them in.
pub proof fn law_audio_entry_reads_back(
    before: Seq<u8>,
    version: u16,
    middle: Seq<u8>,
    channels: u16,
    gap: Seq<u8>,
    rate: u32,
    wide: Seq<u8>,
    bits: u64,
    many: u32,
    behind: Seq<u8>,
)
    requires
        before.len() == 8,
        version <= 1,
        middle.len() == 6,
        gap.len() == 6,
        wide.len() == 22,
    ensures
        audio_fields(
            before + bytes::be16_bytes(version) + middle + bytes::be16_bytes(channels) + gap
                + bytes::be32_bytes(rate) + behind,
        ) == (Some(channels), Some(rate / 0x1_0000)),
        audio_fields(
            before + bytes::be16_bytes(2) + wide + bytes::be64_bytes(bits) + bytes::be32_bytes(many)
                + behind,
        ) == (
            if many <= 0xffff {
                Some(many as u16)
            } else {
                None
            },
            rounded_rate(bits),
        ),
{
    let a = before + bytes::be16_bytes(version) + middle + bytes::be16_bytes(channels) + gap
        + bytes::be32_bytes(rate) + behind;
    assert(a.subrange(8, 10) =~= bytes::be16_bytes(version));
    bytes::lemma_be16_roundtrip(a, 8, version);
    assert(a.subrange(16, 18) =~= bytes::be16_bytes(channels));
    bytes::lemma_be16_roundtrip(a, 16, channels);
    assert(a.subrange(24, 28) =~= bytes::be32_bytes(rate));
    bytes::lemma_be32_roundtrip(a, 24, rate);
    let b = before + bytes::be16_bytes(2) + wide + bytes::be64_bytes(bits) + bytes::be32_bytes(many)
        + behind;
    let high = (bits / 0x1_0000_0000) as u32;
    let low = (bits % 0x1_0000_0000) as u32;
    assert(b.subrange(8, 10) =~= bytes::be16_bytes(2));
    bytes::lemma_be16_roundtrip(b, 8, 2);
    assert(b.subrange(32, 36) =~= bytes::be32_bytes(high));
    bytes::lemma_be32_roundtrip(b, 32, high);
    assert(b.subrange(36, 40) =~= bytes::be32_bytes(low));
    bytes::lemma_be32_roundtrip(b, 36, low);
    assert(b.subrange(40, 44) =~= bytes::be32_bytes(many));
    bytes::lemma_be32_roundtrip(b, 40, many);
}

/// The bits of a whole number in double precision: the number stands between
/// two powers of two, the lower of which has the exponent.
pub open spec fn double_bits(n: u32, exponent: nat) -> int {
    (1023 + exponent) * 0x10_0000_0000_0000 + (n - vstd::arithmetic::power2::pow2(exponent))
        * vstd::arithmetic::power2::pow2((52 - exponent) as nat)
}

/// A whole sample rate is read back from double precision.
pub proof fn law_whole_rate_reads_back(n: u32, exponent: nat)
    requires
        exponent <= 31,
        vstd::arithmetic::power2::pow2(exponent) <= n < vstd::arithmetic::power2::pow2(
            exponent + 1,
        ),
    ensures
        0 <= double_bits(n, exponent) <= u64::MAX,
        rounded_rate(double_bits(n, exponent) as u64) == Some(n),
{
    let low = vstd::arithmetic::power2::pow2(exponent) as int;
    let shift = (52 - exponent) as nat;
    let scale = vstd::arithmetic::power2::pow2(shift) as int;
    let unit = 0x10_0000_0000_0000int;
    vstd::arithmetic::power2::lemma_pow2_pos(shift);
    vstd::arithmetic::power2::lemma_pow2_pos(exponent);
    vstd::arithmetic::power2::lemma_pow2_adds(exponent, shift);
    vstd::arithmetic::power2::lemma_pow2_unfold(exponent + 1);
    vstd::arithmetic::power2::lemma2_to64_rest();
    assert(low * scale == unit);
    let rest = (n - low) * scale;
    assert(0 <= rest < unit) by (nonlinear_arith)
        requires
            0 <= n - low < low,
            scale > 0,
            low * scale == unit,
            rest == (n - low) * scale,
    ;
    let bits = double_bits(n, exponent);
    assert(bits == (1023 + exponent) * unit + rest);
    assert(bits / unit == 1023 + exponent);
    assert(bits % unit == rest);
    assert(unit + rest == n * scale) by (nonlinear_arith)
        requires
            low * scale == unit,
            rest == (n - low) * scale,
    ;
    assert((2 * (n * scale) + scale) / (2 * scale) == n) by (nonlinear_arith)
        requires
            scale > 0,
            n >= 0,
    ;
    assert(n * scale <= 0xffff_ffff * scale) by (nonlinear_arith)
        requires
            scale > 0,
            n <= 0xffff_ffff,
    ;
    let b = bits as u64;
    assert(significand(b) == n * scale);
    assert(down_shift(b) == shift);
}

} // verus!
