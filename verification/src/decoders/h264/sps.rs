//! The cropping that sequence parameter sets ask for.
//!
//! A sequence parameter set gives the size of the coded pictures and how many
//! columns and rows to cut off at each side. Something of the picture must be
//! left.

use vstd::prelude::*;

verus! {

// --------------------
// Bits
// --------------------

/// The bit at a position, the highest of a byte first. Behind the last byte
/// there are zeros.
pub open spec fn bit(data: Seq<u8>, pos: int) -> bool {
    0 <= pos < 8 * data.len() && (data[pos / 8] >> ((7 - pos % 8) as u8)) & 1 == 1
}

/// The number of zeros from a position on, at most `n`.
pub open spec fn zeros(data: Seq<u8>, pos: int, n: int) -> int
    decreases n,
{
    if n <= 0 || bit(data, pos) {
        0
    } else {
        1 + zeros(data, pos + 1, n - 1)
    }
}

/// The number that `n` bits from a position on spell.
pub open spec fn number(data: Seq<u8>, pos: int, n: int) -> int
    decreases n,
{
    if n <= 0 {
        0
    } else {
        2 * number(data, pos, n - 1) + if bit(data, pos + n - 1) {
            1int
        } else {
            0
        }
    }
}

/// An Exp-Golomb code: as many zeros as bits follow the first one. The value
/// is one less than the number that starts with that one. With it comes the
/// position behind the code. There is no code of more than 31 zeros.
pub open spec fn ue(data: Seq<u8>, pos: int) -> Option<(int, int)> {
    let z = zeros(data, pos, 32);
    if z >= 32 {
        None
    } else {
        Some((number(data, pos + z, z + 1) - 1, pos + 2 * z + 1))
    }
}

/// A flag, which must not lie behind the last byte.
pub open spec fn flag(data: Seq<u8>, pos: int) -> Option<bool> {
    if pos < 8 * data.len() {
        Some(bit(data, pos))
    } else {
        None
    }
}

/// The position behind `n` Exp-Golomb codes.
pub open spec fn after_codes(data: Seq<u8>, pos: int, n: int) -> Option<int>
    decreases n,
{
    if n <= 0 {
        Some(pos)
    } else {
        match ue(data, pos) {
            Some((_, next)) => after_codes(data, next, n - 1),
            None => None,
        }
    }
}

/// What a read gives: a value and a position, or nothing.
pub open spec fn is_read(r: Option<(u64, u64)>, s: Option<(int, int)>) -> bool {
    match r {
        Some((v, p)) => s == Some((v as int, p as int)),
        None => s is None,
    }
}

/// What a walk gives: a position, or nothing.
pub open spec fn is_place(r: Option<u64>, s: Option<int>) -> bool {
    match r {
        Some(p) => s == Some(p as int),
        None => s is None,
    }
}

/// Whether a position is one that a walk over the bits can come to.
pub open spec fn in_reach(data: Seq<u8>, pos: int) -> bool {
    0 <= pos <= 8 * data.len() + 64
}

/// Whether a position is one that a code can end at.
pub open spec fn in_sight(data: Seq<u8>, pos: int) -> bool {
    0 <= pos <= 8 * data.len() + 32
}

/// Whether a set is one whose bits can be walked over.
pub open spec fn walkable(data: Seq<u8>) -> bool {
    data.len() <= i32::MAX
}

fn read_bit(data: &[u8], pos: u64) -> (r: bool)
    requires
        walkable(data@),
    ensures
        r == bit(data@, pos as int),
{
    let at: u64 = pos / 8;
    if at >= data.len() as u64 {
        return false;
    }
    let shift: u8 = (7 - pos % 8) as u8;
    (data[at as usize] >> shift) & 1 == 1
}

proof fn lemma_number(data: Seq<u8>, pos: int, n: int)
    requires
        0 <= n <= 32,
    ensures
        0 <= number(data, pos, n) < vstd::arithmetic::power2::pow2(n as nat) <= 0x1_0000_0000,
    decreases n,
{
    vstd::arithmetic::power2::lemma2_to64();
    if n < 32 {
        vstd::arithmetic::power2::lemma_pow2_strictly_increases(n as nat, 32);
    }
    if n > 0 {
        lemma_number(data, pos, n - 1);
        vstd::arithmetic::power2::lemma_pow2_unfold(n as nat);
    }
}

/// The first bit of a number is its highest.
proof fn lemma_number_starts_with_one(data: Seq<u8>, pos: int, n: int)
    requires
        1 <= n,
        bit(data, pos),
    ensures
        number(data, pos, n) >= 1,
    decreases n,
{
    reveal_with_fuel(number, 2);
    if n > 1 {
        lemma_number_starts_with_one(data, pos, n - 1);
    }
}

proof fn lemma_zeros(data: Seq<u8>, pos: int, n: int)
    requires
        0 <= n,
    ensures
        0 <= zeros(data, pos, n) <= n,
        zeros(data, pos, n) < n ==> bit(data, pos + zeros(data, pos, n)),
    decreases n,
{
    if n > 0 && !bit(data, pos) {
        lemma_zeros(data, pos + 1, n - 1);
    }
}

fn count_zeros(data: &[u8], pos: u64) -> (r: u64)
    requires
        walkable(data@),
        in_reach(data@, pos as int),
    ensures
        r == zeros(data@, pos as int, 32),
{
    let mut n: u64 = 0;
    while n < 32 && !read_bit(data, pos + n)
        invariant
            n <= 32,
            walkable(data@),
            in_reach(data@, pos as int),
            zeros(data@, pos as int, 32) == n + zeros(data@, pos + n, 32 - n),
        decreases 32 - n,
    {
        n = n + 1;
    }
    n
}

fn read_number(data: &[u8], pos: u64, n: u64) -> (r: u64)
    requires
        walkable(data@),
        pos <= 8 * data@.len() + 128,
        n <= 32,
    ensures
        r == number(data@, pos as int, n as int),
        r <= 0xffff_ffff,
{
    let mut value: u64 = 0;
    let mut k: u64 = 0;
    while k < n
        invariant
            k <= n <= 32,
            walkable(data@),
            pos <= 8 * data@.len() + 128,
            value == number(data@, pos as int, k as int),
        decreases n - k,
    {
        proof {
            lemma_number(data@, pos as int, k as int);
        }
        value = 2 * value + if read_bit(data, pos + k) {
            1
        } else {
            0
        };
        k = k + 1;
    }
    proof {
        lemma_number(data@, pos as int, n as int);
    }
    value
}

fn read_ue(data: &[u8], pos: u64) -> (r: Option<(u64, u64)>)
    requires
        walkable(data@),
        in_reach(data@, pos as int),
    ensures
        is_read(r, ue(data@, pos as int)),
        r matches Some((v, p)) ==> v <= 0xffff_ffff && in_sight(data@, p as int),
{
    let z: u64 = count_zeros(data, pos);
    proof {
        lemma_zeros(data@, pos as int, 32);
    }
    if z >= 32 {
        return None;
    }
    let value: u64 = read_number(data, pos + z, z + 1);
    proof {
        lemma_number_starts_with_one(data@, pos + z, z + 1);
    }
    Some((value - 1, pos + 2 * z + 1))
}

fn read_flag(data: &[u8], pos: u64) -> (r: Option<bool>)
    requires
        walkable(data@),
    ensures
        r == flag(data@, pos as int),
{
    if pos / 8 >= data.len() as u64 {
        return None;
    }
    Some(read_bit(data, pos))
}

fn skip_codes(data: &[u8], pos: u64, n: u64) -> (r: Option<u64>)
    requires
        walkable(data@),
        in_reach(data@, pos as int),
    ensures
        is_place(r, after_codes(data@, pos as int, n as int)),
        r matches Some(p) ==> (n > 0 || in_sight(data@, pos as int)) ==> in_sight(data@, p as int),
{
    let mut p: u64 = pos;
    let mut left: u64 = n;
    while left > 0
        invariant
            left <= n,
            walkable(data@),
            in_reach(data@, p as int),
            n > left || in_sight(data@, pos as int) ==> in_sight(data@, p as int),
            after_codes(data@, pos as int, n as int) == after_codes(data@, p as int, left as int),
        decreases left,
    {
        match read_ue(data, p) {
            Some((_, next)) => {
                p = next;
            },
            None => {
                return None;
            },
        }
        left = left - 1;
    }
    Some(p)
}

// --------------------
// Scaling lists
// --------------------

/// The next entry of a scaling list, from the last one and the code of the
/// difference: odd codes go up, even ones down.
pub open spec fn next_scale(last: int, code: int) -> int {
    if code % 2 == 1 {
        (last + (code + 1) / 2) % 256
    } else {
        (last - code / 2) % 256
    }
}

/// The position behind a scaling list with `n` entries to come. An entry of
/// zero ends the list.
pub open spec fn list_end(data: Seq<u8>, pos: int, n: int, last: int) -> Option<int>
    decreases n,
{
    if n <= 0 {
        Some(pos)
    } else {
        match ue(data, pos) {
            Some((code, next)) => if next_scale(last, code) == 0 {
                Some(next)
            } else {
                list_end(data, next, n - 1, next_scale(last, code))
            },
            None => None,
        }
    }
}

/// The position behind the scaling lists from the `i`th of `count` on. Each has
/// a flag that tells whether it is there; the first six have 16 entries, the
/// others 64.
pub open spec fn lists_end(data: Seq<u8>, pos: int, i: int, count: int) -> Option<int>
    decreases count - i,
{
    if i >= count {
        Some(pos)
    } else {
        match flag(data, pos) {
            Some(true) => match list_end(
                data,
                pos + 1,
                if i < 6 {
                    16
                } else {
                    64
                },
                8,
            ) {
                Some(next) => lists_end(data, next, i + 1, count),
                None => None,
            },
            Some(false) => lists_end(data, pos + 1, i + 1, count),
            None => None,
        }
    }
}

fn skip_list(data: &[u8], pos: u64, n: u64) -> (r: Option<u64>)
    requires
        walkable(data@),
        in_sight(data@, pos as int),
    ensures
        is_place(r, list_end(data@, pos as int, n as int, 8)),
        r matches Some(p) ==> in_sight(data@, p as int),
{
    let mut p: u64 = pos;
    let mut left: u64 = n;
    let mut last: u64 = 8;
    while left > 0
        invariant
            left <= n,
            0 < last < 256,
            walkable(data@),
            in_sight(data@, p as int),
            list_end(data@, pos as int, n as int, 8) == list_end(
                data@,
                p as int,
                left as int,
                last as int,
            ),
        decreases left,
    {
        let (code, next): (u64, u64) = match read_ue(data, p) {
            Some(read) => read,
            None => {
                return None;
            },
        };
        let scale: u64 = if code % 2 == 1 {
            (last + (code + 1) / 2) % 256
        } else {
            (last + 0x1_0000_0000 - code / 2) % 256
        };
        assert(scale == next_scale(last as int, code as int));
        if scale == 0 {
            return Some(next);
        }
        p = next;
        last = scale;
        left = left - 1;
    }
    Some(p)
}

fn skip_lists(data: &[u8], pos: u64, count: u64) -> (r: Option<u64>)
    requires
        walkable(data@),
        in_sight(data@, pos as int),
    ensures
        is_place(r, lists_end(data@, pos as int, 0, count as int)),
        r matches Some(p) ==> in_sight(data@, p as int),
{
    let mut p: u64 = pos;
    let mut i: u64 = 0;
    while i < count
        invariant
            i <= count,
            walkable(data@),
            in_sight(data@, p as int),
            lists_end(data@, pos as int, 0, count as int) == lists_end(
                data@,
                p as int,
                i as int,
                count as int,
            ),
        decreases count - i,
    {
        match read_flag(data, p) {
            Some(true) => {
                let entries: u64 = if i < 6 {
                    16
                } else {
                    64
                };
                match skip_list(data, p + 1, entries) {
                    Some(next) => {
                        p = next;
                    },
                    None => {
                        return None;
                    },
                }
            },
            Some(false) => {
                p = p + 1;
            },
            None => {
                return None;
            },
        }
        i = i + 1;
    }
    Some(p)
}

// --------------------
// Sequence parameter sets
// --------------------

/// Whether sets of a profile tell the format of the color planes.
pub open spec fn tells_format(profile: u8) -> bool {
    profile == 100 || profile == 110 || profile == 122 || profile == 244 || profile == 44 || profile
        == 83 || profile == 86 || profile == 118 || profile == 128 || profile == 138 || profile
        == 139 || profile == 134 || profile == 135
}

/// The format of the color planes, and the position behind what goes with it:
/// the depths of the samples and the scaling lists. Other profiles have color
/// planes of half the width and height, which is format 1.
pub open spec fn format_part(data: Seq<u8>, profile: u8, pos: int) -> Option<(int, int)> {
    if !tells_format(profile) {
        Some((1, pos))
    } else {
        match ue(data, pos) {
            None => None,
            Some((format, p)) => match after_codes(
                data,
                if format == 3 {
                    p + 1
                } else {
                    p
                },
                2,
            ) {
                None => None,
                Some(q) => match flag(data, q + 1) {
                    None => None,
                    Some(false) => Some((format, q + 2)),
                    Some(true) => match lists_end(
                        data,
                        q + 2,
                        0,
                        if format == 3 {
                            12
                        } else {
                            8
                        },
                    ) {
                        Some(end) => Some((format, end)),
                        None => None,
                    },
                },
            },
        }
    }
}

/// The position behind what tells how pictures are numbered and ordered.
pub open spec fn order_part(data: Seq<u8>, pos: int) -> Option<int> {
    match after_codes(data, pos, 1) {
        None => None,
        Some(p) => match ue(data, p) {
            None => None,
            Some((kind, q)) => if kind == 0 {
                after_codes(data, q, 1)
            } else if kind == 1 {
                match after_codes(data, q + 1, 2) {
                    None => None,
                    Some(s) => match ue(data, s) {
                        None => None,
                        Some((n, t)) => after_codes(data, t, n),
                    },
                }
            } else {
                Some(q)
            },
        },
    }
}

/// The size of pictures and what is cut off: the width and the height in units
/// of 16, that of a field where a frame has two, and the offsets from the left,
/// right, top and bottom.
pub struct Cropping {
    pub format: int,
    pub width: int,
    pub height: int,
    pub left: int,
    pub right: int,
    pub top: int,
    pub bottom: int,
}

/// The offsets of a cropping that starts at a position.
pub open spec fn offsets(data: Seq<u8>, pos: int) -> Option<(int, int, int, int)> {
    match ue(data, pos) {
        None => None,
        Some((left, a)) => match ue(data, a) {
            None => None,
            Some((right, b)) => match ue(data, b) {
                None => None,
                Some((top, c)) => match ue(data, c) {
                    None => None,
                    Some((bottom, _)) => Some((left, right, top, bottom)),
                },
            },
        },
    }
}

/// The cropping behind the order of pictures, where there is one.
pub open spec fn size_part(data: Seq<u8>, format: int, pos: int) -> Option<Cropping> {
    match after_codes(data, pos, 1) {
        None => None,
        Some(p) => match ue(data, p + 1) {
            None => None,
            Some((width, q)) => match ue(data, q) {
                None => None,
                Some((height, s)) => match flag(data, s) {
                    None => None,
                    Some(whole_frames) => {
                        let at = if whole_frames {
                            s + 2
                        } else {
                            s + 3
                        };
                        match flag(data, at) {
                            Some(true) => match offsets(data, at + 1) {
                                Some((left, right, top, bottom)) => Some(
                                    Cropping {
                                        format,
                                        width: width + 1,
                                        height: height + 1,
                                        left,
                                        right,
                                        top,
                                        bottom,
                                    },
                                ),
                                None => None,
                            },
                            _ => None,
                        }
                    },
                },
            },
        },
    }
}

/// The cropping that a sequence parameter set asks for, the set without its
/// header byte. There is none in a set that ends too early.
pub open spec fn cropping(data: Seq<u8>) -> Option<Cropping> {
    if data.len() == 0 {
        None
    } else {
        match ue(data, 24) {
            None => None,
            Some((_, p)) => match format_part(data, data[0], p) {
                None => None,
                Some((format, q)) => match order_part(data, q) {
                    None => None,
                    Some(s) => size_part(data, format, s),
                },
            },
        }
    }
}

/// Whether something of the picture is left. Offsets count columns, or pairs of
/// them where color planes have half the width; rows likewise. Where a frame
/// has two fields, the rows of both count twice. Pictures without color count
/// as those with planes of half the width and height.
pub open spec fn leaves_picture(c: Cropping) -> bool {
    let columns = if c.format <= 2 {
        2int
    } else {
        1
    };
    let rows = if c.format <= 1 {
        2int
    } else {
        1
    };
    &&& columns * (c.left + c.right) < 16 * c.width
    &&& rows * (c.top + c.bottom) < 16 * c.height
}

fn has_format(profile: u8) -> (r: bool)
    ensures
        r == tells_format(profile),
{
    profile == 100 || profile == 110 || profile == 122 || profile == 244 || profile == 44 || profile
        == 83 || profile == 86 || profile == 118 || profile == 128 || profile == 138 || profile
        == 139 || profile == 134 || profile == 135
}

fn read_format_part(data: &[u8], profile: u8, pos: u64) -> (r: Option<(u64, u64)>)
    requires
        walkable(data@),
        in_sight(data@, pos as int),
    ensures
        is_read(r, format_part(data@, profile, pos as int)),
        r matches Some((_, p)) ==> in_sight(data@, p as int),
{
    if !has_format(profile) {
        return Some((1, pos));
    }
    let (format, p): (u64, u64) = match read_ue(data, pos) {
        Some(read) => read,
        None => {
            return None;
        },
    };
    let depths: u64 = if format == 3 {
        p + 1
    } else {
        p
    };
    let q: u64 = match skip_codes(data, depths, 2) {
        Some(q) => q,
        None => {
            return None;
        },
    };
    match read_flag(data, q + 1) {
        Some(false) => Some((format, q + 2)),
        Some(true) => {
            let count: u64 = if format == 3 {
                12
            } else {
                8
            };
            match skip_lists(data, q + 2, count) {
                Some(end) => Some((format, end)),
                None => None,
            }
        },
        None => None,
    }
}

fn skip_order_part(data: &[u8], pos: u64) -> (r: Option<u64>)
    requires
        walkable(data@),
        in_sight(data@, pos as int),
    ensures
        is_place(r, order_part(data@, pos as int)),
        r matches Some(p) ==> in_sight(data@, p as int),
{
    let p: u64 = match skip_codes(data, pos, 1) {
        Some(p) => p,
        None => {
            return None;
        },
    };
    let (kind, q): (u64, u64) = match read_ue(data, p) {
        Some(read) => read,
        None => {
            return None;
        },
    };
    if kind == 0 {
        skip_codes(data, q, 1)
    } else if kind == 1 {
        match skip_codes(data, q + 1, 2) {
            None => None,
            Some(s) => match read_ue(data, s) {
                None => None,
                Some((n, t)) => skip_codes(data, t, n),
            },
        }
    } else {
        Some(q)
    }
}

fn read_offsets(data: &[u8], pos: u64) -> (r: Option<(u64, u64, u64, u64)>)
    requires
        walkable(data@),
        in_reach(data@, pos as int),
    ensures
        match r {
            Some((left, right, top, bottom)) => {
                &&& offsets(data@, pos as int) == Some(
                    (left as int, right as int, top as int, bottom as int),
                )
                &&& left <= 0xffff_ffff && right <= 0xffff_ffff
                &&& top <= 0xffff_ffff && bottom <= 0xffff_ffff
            },
            None => offsets(data@, pos as int) is None,
        },
{
    match read_ue(data, pos) {
        None => None,
        Some((left, a)) => match read_ue(data, a) {
            None => None,
            Some((right, b)) => match read_ue(data, b) {
                None => None,
                Some((top, c)) => match read_ue(data, c) {
                    None => None,
                    Some((bottom, _)) => Some((left, right, top, bottom)),
                },
            },
        },
    }
}

/// Whether what a size part asks for leaves something of the picture.
fn size_part_fits(data: &[u8], format: u64, pos: u64) -> (r: bool)
    requires
        walkable(data@),
        in_sight(data@, pos as int),
    ensures
        r == (size_part(data@, format as int, pos as int) matches Some(c) ==> leaves_picture(c)),
{
    let p: u64 = match skip_codes(data, pos, 1) {
        Some(p) => p,
        None => {
            return true;
        },
    };
    let (width, q): (u64, u64) = match read_ue(data, p + 1) {
        Some(read) => read,
        None => {
            return true;
        },
    };
    let (height, s): (u64, u64) = match read_ue(data, q) {
        Some(read) => read,
        None => {
            return true;
        },
    };
    let whole_frames: bool = match read_flag(data, s) {
        Some(whole_frames) => whole_frames,
        None => {
            return true;
        },
    };
    let at: u64 = if whole_frames {
        s + 2
    } else {
        s + 3
    };
    match read_flag(data, at) {
        Some(true) => {},
        _ => {
            return true;
        },
    }
    let (left, right, top, bottom): (u64, u64, u64, u64) = match read_offsets(data, at + 1) {
        Some(read) => read,
        None => {
            return true;
        },
    };
    let columns: u64 = if format <= 2 {
        2
    } else {
        1
    };
    let rows: u64 = if format <= 1 {
        2
    } else {
        1
    };
    columns * (left + right) < 16 * (width + 1) && rows * (top + bottom) < 16 * (height + 1)
}

/// Whether the cropping that a sequence parameter set asks for, the set without
/// its header byte, leaves something of the picture.
pub fn crop_fits(data: &[u8]) -> (r: bool)
    requires
        walkable(data@),
    ensures
        r == (cropping(data@) matches Some(c) ==> leaves_picture(c)),
{
    if data.len() == 0 {
        return true;
    }
    let p: u64 = match read_ue(data, 24) {
        Some((_, p)) => p,
        None => {
            return true;
        },
    };
    let (format, q): (u64, u64) = match read_format_part(data, data[0], p) {
        Some(read) => read,
        None => {
            return true;
        },
    };
    match skip_order_part(data, q) {
        Some(s) => size_part_fits(data, format, s),
        None => true,
    }
}

// --------------------
// Units
// --------------------

/// Whether two zeros and a third byte stand at a position.
pub open spec fn mark(packet: Seq<u8>, i: int, third: u8) -> bool {
    0 <= i && i + 2 < packet.len() && packet[i] == 0 && packet[i + 1] == 0 && packet[i + 2] == third
}

/// The bytes of a unit from a position to the next start code, without the
/// bytes that keep start codes out of it.
pub open spec fn unescaped(packet: Seq<u8>, i: int) -> Seq<u8>
    decreases packet.len() - i,
{
    if i >= packet.len() || mark(packet, i, 1) {
        Seq::empty()
    } else if mark(packet, i, 3) {
        seq![0u8, 0u8] + unescaped(packet, i + 3)
    } else {
        seq![packet[i]] + unescaped(packet, i + 1)
    }
}

/// Whether the bytes that keep start codes out of a unit are in place: each
/// stands at the end, or before a byte of at most three.
pub open spec fn well_escaped(packet: Seq<u8>, i: int) -> bool
    decreases packet.len() - i,
{
    if i >= packet.len() || mark(packet, i, 1) {
        true
    } else if mark(packet, i, 3) {
        (i + 3 < packet.len() ==> packet[i + 3] <= 3) && well_escaped(packet, i + 3)
    } else {
        well_escaped(packet, i + 1)
    }
}

/// Whether a start code and the header of a sequence parameter set stand at a
/// position.
pub open spec fn set_at(packet: Seq<u8>, i: int) -> bool {
    mark(packet, i, 1) && i + 3 < packet.len() && (packet[i + 3] & 0x1f == 7 || packet[i + 3] & 0x1f
        == 15)
}

/// Whether the sequence parameter sets among units behind start codes are well
/// escaped and leave something of the picture.
pub open spec fn sets_fit(packet: Seq<u8>) -> bool {
    forall|i: int| #[trigger]
        set_at(packet, i) ==> well_escaped(packet, i + 4) && (cropping(unescaped(packet, i + 4))
            matches Some(c) ==> leaves_picture(c))
}

fn has_mark(packet: &[u8], i: usize, third: u8) -> (r: bool)
    requires
        packet@.len() <= i32::MAX,
        i <= packet@.len(),
    ensures
        r == mark(packet@, i as int, third),
{
    i + 2 < packet.len() && packet[i] == 0 && packet[i + 1] == 0 && packet[i + 2] == third
}

/// The bytes of a unit, where it is well escaped.
fn unescape(packet: &[u8], start: usize) -> (r: Option<Vec<u8>>)
    requires
        packet@.len() <= i32::MAX,
        start <= packet@.len(),
    ensures
        r is Some == well_escaped(packet@, start as int),
        r matches Some(data) ==> data@ == unescaped(packet@, start as int) && data@.len()
            <= packet@.len(),
{
    let mut out: Vec<u8> = Vec::new();
    let mut i: usize = start;
    assert(out@ + unescaped(packet@, start as int) =~= unescaped(packet@, start as int));
    while i < packet.len() && !has_mark(packet, i, 1)
        invariant
            start <= i <= packet@.len(),
            packet@.len() <= i32::MAX,
            out@.len() <= i,
            out@ + unescaped(packet@, i as int) == unescaped(packet@, start as int),
            well_escaped(packet@, i as int) == well_escaped(packet@, start as int),
        decreases packet@.len() - i,
    {
        let ghost before = out@;
        if has_mark(packet, i, 3) {
            if i + 3 < packet.len() && packet[i + 3] > 3 {
                return None;
            }
            out.push(0);
            out.push(0);
            assert(out@ + unescaped(packet@, i + 3) =~= before + unescaped(packet@, i as int));
            i = i + 3;
        } else {
            out.push(packet[i]);
            assert(out@ + unescaped(packet@, i + 1) =~= before + unescaped(packet@, i as int));
            i = i + 1;
        }
    }
    assert(out@ + unescaped(packet@, i as int) =~= out@);
    Some(out)
}

/// Whether the sequence parameter sets among units can be used, see `sets_fit`.
pub fn check_sets(packet: &[u8]) -> (r: bool)
    requires
        packet@.len() <= i32::MAX,
    ensures
        r == sets_fit(packet@),
{
    let mut i: usize = 0;
    while i < packet.len()
        invariant
            i <= packet@.len() <= i32::MAX,
            forall|k: int|
                k < i && #[trigger] set_at(packet@, k) ==> well_escaped(packet@, k + 4) && (
                cropping(unescaped(packet@, k + 4)) matches Some(c) ==> leaves_picture(c)),
        decreases packet@.len() - i,
    {
        if has_mark(packet, i, 1) && i + 3 < packet.len() {
            let kind: u8 = packet[i + 3] & 0x1f;
            if kind == 7 || kind == 15 {
                assert(set_at(packet@, i as int));
                match unescape(packet, i + 4) {
                    Some(data) => {
                        if !crop_fits(data.as_slice()) {
                            return false;
                        }
                    },
                    None => {
                        return false;
                    },
                }
            }
        }
        i = i + 1;
    }
    true
}

/// The binary digits of a number, the highest first.
pub open spec fn binary(n: nat) -> Seq<bool>
    decreases n,
{
    if n == 0 {
        Seq::empty()
    } else {
        binary(n / 2).push(n % 2 == 1)
    }
}

/// The code of a number: as many zeros as the binary digits of the next number
/// have behind their first, then those digits.
pub open spec fn code_of(v: nat) -> Seq<bool> {
    let digits = binary(v + 1);
    Seq::new((digits.len() - 1) as nat, |i: int| false) + digits
}

/// Whether bits stand in the data from a place on.
pub open spec fn holds_bits(data: Seq<u8>, pos: int, bits: Seq<bool>) -> bool {
    forall|i: int| 0 <= i < bits.len() ==> #[trigger] bits[i] == bit(data, pos + i)
}

proof fn lemma_binary(n: nat)
    requires
        n > 0,
    ensures
        binary(n).len() > 0,
        binary(n)[0],
        n < 0x1_0000_0000 ==> binary(n).len() <= 32,
        n < vstd::arithmetic::power2::pow2(binary(n).len()),
    decreases n,
{
    if n < 0x1_0000_0000 {
        vstd::arithmetic::power2::lemma2_to64();
        lemma_binary_len(n, 32);
    }
    if n > 1 {
        lemma_binary(n / 2);
        vstd::arithmetic::power2::lemma_pow2_unfold(binary(n).len());
    } else {
        assert(binary(0) =~= Seq::empty());
        vstd::arithmetic::power2::lemma2_to64();
    }
}

proof fn lemma_binary_len(n: nat, k: nat)
    requires
        n < vstd::arithmetic::power2::pow2(k),
    ensures
        binary(n).len() <= k,
    decreases n,
{
    if n > 0 {
        if k == 0 {
            vstd::arithmetic::power2::lemma2_to64();
        } else {
            vstd::arithmetic::power2::lemma_pow2_unfold(k);
            lemma_binary_len(n / 2, (k - 1) as nat);
        }
    }
}

proof fn lemma_binary_number(data: Seq<u8>, pos: int, n: nat)
    requires
        holds_bits(data, pos, binary(n)),
    ensures
        number(data, pos, binary(n).len() as int) == n,
    decreases n,
{
    if n > 0 {
        let digits = binary(n);
        let before = binary(n / 2);
        assert forall|i: int| 0 <= i < before.len() implies #[trigger] before[i] == bit(
            data,
            pos + i,
        ) by {
            assert(digits[i] == before[i]);
        }
        lemma_binary_number(data, pos, n / 2);
        assert(digits[before.len() as int] == (n % 2 == 1));
    }
}

proof fn lemma_leading_zeros(data: Seq<u8>, pos: int, z: int, n: int)
    requires
        0 <= z < n,
        forall|i: int| pos <= i < pos + z ==> !#[trigger] bit(data, i),
        bit(data, pos + z),
    ensures
        zeros(data, pos, n) == z,
    decreases z,
{
    if z > 0 {
        assert(!bit(data, pos));
        lemma_leading_zeros(data, pos + 1, z - 1, n - 1);
    }
}

/// A number is read back from its code, and the reader goes on behind it.
pub proof fn law_code_reads_back(data: Seq<u8>, pos: int, v: nat)
    requires
        v + 1 < 0x1_0000_0000,
        holds_bits(data, pos, code_of(v)),
    ensures
        ue(data, pos) == Some((v as int, pos + code_of(v).len())),
{
    let digits = binary(v + 1);
    let code = code_of(v);
    let z = digits.len() - 1;
    lemma_binary(v + 1);
    assert forall|i: int| pos <= i < pos + z implies !#[trigger] bit(data, i) by {
        assert(code[i - pos] == bit(data, pos + (i - pos)));
    }
    assert(code[z] == digits[0]);
    assert(code[z] == bit(data, pos + z));
    lemma_leading_zeros(data, pos, z, 32);
    assert forall|i: int| 0 <= i < digits.len() implies #[trigger] digits[i] == bit(
        data,
        pos + z + i,
    ) by {
        assert(code[z + i] == digits[i]);
        assert(code[z + i] == bit(data, pos + (z + i)));
    }
    lemma_binary_number(data, pos + z, v + 1);
}

/// A sequence parameter set to be written, of a profile that tells no format.
pub struct WrittenSet {
    pub id: nat,
    pub frame_number: nat,
    /// Where pictures are counted by their own numbers, how long those are.
    pub order: Option<nat>,
    pub references: nat,
    pub gaps: bool,
    pub width: nat,
    pub height: nat,
    /// Without whole frames, whether the fields change within one.
    pub fields: Option<bool>,
    pub direct: bool,
    /// What is cut off on the left, the right, the top and the bottom.
    pub crop: Option<(nat, nat, nat, nat)>,
}

/// Whether the numbers of a parameter set fit their codes.
pub open spec fn can_write_set(s: WrittenSet) -> bool {
    let most = 0xffff_fff0nat;
    &&& s.id < most
    &&& s.frame_number < most
    &&& s.order matches Some(n) ==> n < most
    &&& s.references < most
    &&& 0 < s.width < most
    &&& 0 < s.height < most
    &&& s.crop matches Some((left, right, top, bottom)) ==> left < most && right < most && top
        < most && bottom < most
}

/// The bits of what is cut off.
pub open spec fn crop_bits(crop: Option<(nat, nat, nat, nat)>) -> Seq<bool> {
    match crop {
        Some((left, right, top, bottom)) => seq![true] + (code_of(left) + (code_of(right) + (
        code_of(top) + code_of(bottom)))),
        None => seq![false],
    }
}

/// The bits of the size of a picture and what is cut off it.
pub open spec fn size_bits(s: WrittenSet) -> Seq<bool> {
    code_of(s.references) + (seq![s.gaps] + (code_of((s.width - 1) as nat) + (code_of(
        (s.height - 1) as nat,
    ) + ((match s.fields {
        Some(change) => seq![false, change],
        None => seq![true],
    }) + (seq![s.direct] + crop_bits(s.crop))))))
}

/// The bits of a parameter set behind its profile and level.
pub open spec fn set_bits(s: WrittenSet) -> Seq<bool> {
    code_of(s.id) + (code_of(s.frame_number) + ((match s.order {
        Some(n) => code_of(0) + code_of(n),
        None => code_of(2),
    }) + size_bits(s)))
}

proof fn lemma_split_bits(data: Seq<u8>, pos: int, a: Seq<bool>, b: Seq<bool>)
    requires
        holds_bits(data, pos, a + b),
    ensures
        holds_bits(data, pos, a),
        holds_bits(data, pos + a.len(), b),
{
    let all = a + b;
    assert forall|i: int| 0 <= i < a.len() implies #[trigger] a[i] == bit(data, pos + i) by {
        assert(all[i] == a[i]);
    }
    assert forall|i: int| 0 <= i < b.len() implies #[trigger] b[i] == bit(
        data,
        pos + a.len() + i,
    ) by {
        assert(all[a.len() + i] == b[i]);
        assert(all[a.len() + i] == bit(data, pos + (a.len() + i)));
    }
}

proof fn lemma_code_first(data: Seq<u8>, pos: int, v: nat, rest: Seq<bool>)
    requires
        v + 1 < 0x1_0000_0000,
        holds_bits(data, pos, code_of(v) + rest),
    ensures
        ue(data, pos) == Some((v as int, pos + code_of(v).len())),
        holds_bits(data, pos + code_of(v).len(), rest),
{
    lemma_split_bits(data, pos, code_of(v), rest);
    law_code_reads_back(data, pos, v);
}

proof fn lemma_crop(data: Seq<u8>, pos: int, crop: Option<(nat, nat, nat, nat)>)
    requires
        holds_bits(data, pos, crop_bits(crop)),
        0 <= pos,
        pos + crop_bits(crop).len() <= 8 * data.len(),
        crop matches Some((left, right, top, bottom)) ==> left < 0xffff_fff0 && right < 0xffff_fff0
            && top < 0xffff_fff0 && bottom < 0xffff_fff0,
    ensures
        flag(data, pos) == Some(crop is Some),
        crop matches Some((left, right, top, bottom)) ==> offsets(data, pos + 1) == Some(
            (left as int, right as int, top as int, bottom as int),
        ),
{
    match crop {
        Some((left, right, top, bottom)) => {
            let rest = code_of(left) + (code_of(right) + (code_of(top) + code_of(bottom)));
            lemma_split_bits(data, pos, seq![true], rest);
            assert(seq![true][0] == bit(data, pos + 0));
            let a = pos + 1;
            lemma_code_first(data, a, left, code_of(right) + (code_of(top) + code_of(bottom)));
            let b = a + code_of(left).len();
            lemma_code_first(data, b, right, code_of(top) + code_of(bottom));
            let c = b + code_of(right).len();
            lemma_code_first(data, c, top, code_of(bottom));
            law_code_reads_back(data, c + code_of(top).len(), bottom);
        },
        None => {
            assert(seq![false][0] == bit(data, pos + 0));
        },
    }
}

proof fn lemma_size(data: Seq<u8>, pos: int, s: WrittenSet)
    requires
        can_write_set(s),
        holds_bits(data, pos, size_bits(s)),
        0 <= pos,
        pos + size_bits(s).len() <= 8 * data.len(),
    ensures
        size_part(data, 1, pos) == (match s.crop {
            Some((left, right, top, bottom)) => Some(
                Cropping {
                    format: 1,
                    width: s.width as int,
                    height: s.height as int,
                    left: left as int,
                    right: right as int,
                    top: top as int,
                    bottom: bottom as int,
                },
            ),
            None => None,
        }),
{
    let w = (s.width - 1) as nat;
    let h = (s.height - 1) as nat;
    let f = match s.fields {
        Some(change) => seq![false, change],
        None => seq![true],
    };
    let last = seq![s.direct] + crop_bits(s.crop);
    lemma_code_first(
        data,
        pos,
        s.references,
        seq![s.gaps] + (code_of(w) + (code_of(h) + (f + last))),
    );
    let a = pos + code_of(s.references).len();
    lemma_split_bits(data, a, seq![s.gaps], code_of(w) + (code_of(h) + (f + last)));
    lemma_code_first(data, a + 1, w, code_of(h) + (f + last));
    let b = a + 1 + code_of(w).len();
    lemma_code_first(data, b, h, f + last);
    let c = b + code_of(h).len();
    lemma_split_bits(data, c, f, last);
    assert(f[0] == bit(data, c + 0));
    let d = c + f.len();
    lemma_split_bits(data, d, seq![s.direct], crop_bits(s.crop));
    lemma_crop(data, d + 1, s.crop);
    reveal_with_fuel(after_codes, 2);
    assert(after_codes(data, pos, 1) == Some(a));
}

/// What a written parameter set cuts off its picture is read back, with the size
/// of the picture. One that cuts nothing off tells nothing.
#[verifier::spinoff_prover]
#[verifier::rlimit(40)]
pub proof fn law_cropping_reads_back(data: Seq<u8>, s: WrittenSet)
    requires
        can_write_set(s),
        data.len() > 0,
        !tells_format(data[0]),
        holds_bits(data, 24, set_bits(s)),
        24 + set_bits(s).len() <= 8 * data.len(),
    ensures
        cropping(data) == (match s.crop {
            Some((left, right, top, bottom)) => Some(
                Cropping {
                    format: 1,
                    width: s.width as int,
                    height: s.height as int,
                    left: left as int,
                    right: right as int,
                    top: top as int,
                    bottom: bottom as int,
                },
            ),
            None => None,
        }),
{
    let order = match s.order {
        Some(n) => code_of(0) + code_of(n),
        None => code_of(2),
    };
    lemma_code_first(data, 24, s.id, code_of(s.frame_number) + (order + size_bits(s)));
    let a = 24 + code_of(s.id).len() as int;
    lemma_code_first(data, a, s.frame_number, order + size_bits(s));
    let b = a + code_of(s.frame_number).len();
    lemma_split_bits(data, b, order, size_bits(s));
    let c = b + order.len();
    reveal_with_fuel(after_codes, 2);
    match s.order {
        Some(n) => {
            lemma_code_first(data, b, 0, code_of(n));
            law_code_reads_back(data, b + code_of(0).len(), n);
        },
        None => {
            law_code_reads_back(data, b, 2);
        },
    }
    assert(order_part(data, a) == Some(c));
    lemma_size(data, c, s);
}

/// A unit with a byte put in wherever two zeros come before a byte of at most three.
pub open spec fn escaped(data: Seq<u8>) -> Seq<u8>
    decreases data.len(),
{
    if data.len() == 0 {
        Seq::empty()
    } else if data.len() > 2 && data[0] == 0 && data[1] == 0 && data[2] <= 3 {
        seq![0u8, 0u8, 3u8] + escaped(data.skip(2))
    } else {
        seq![data[0]] + escaped(data.skip(1))
    }
}

proof fn lemma_escaped_start(data: Seq<u8>)
    ensures
        data.len() > 0 ==> escaped(data).len() > 0 && escaped(data)[0] == data[0],
        escaped(data).len() >= data.len(),
        data.len() == 1 ==> escaped(data).len() == 1,
        data.len() == 0 ==> escaped(data).len() == 0,
    decreases data.len(),
{
    if data.len() > 0 {
        lemma_escaped_start(data.skip(1));
        if data.len() > 2 {
            lemma_escaped_start(data.skip(2));
        }
    }
}

/// What was escaped is read back whole, and is well escaped.
pub proof fn law_escaped_unit_reads_back(data: Seq<u8>)
    ensures
        unescaped(escaped(data), 0) == data,
        well_escaped(escaped(data), 0),
{
    assert(escaped(data).skip(0) =~= escaped(data));
    lemma_escaped_from(escaped(data), 0, data);
}

proof fn lemma_escaped_from(packet: Seq<u8>, i: int, data: Seq<u8>)
    requires
        0 <= i <= packet.len(),
        packet.skip(i) == escaped(data),
    ensures
        unescaped(packet, i) == data,
        well_escaped(packet, i),
    decreases data.len(),
{
    let rest = packet.skip(i);
    lemma_escaped_start(data);
    if data.len() == 0 {
        assert(unescaped(packet, i) =~= data);
    } else if data.len() > 2 && data[0] == 0 && data[1] == 0 && data[2] <= 3 {
        let others = data.skip(2);
        assert(packet[i] == rest[0] && packet[i + 1] == rest[1] && packet[i + 2] == rest[2]);
        assert(rest == seq![0u8, 0u8, 3u8] + escaped(others));
        assert(rest.skip(3) =~= escaped(others));
        assert(packet.skip(i + 3) =~= rest.skip(3));
        lemma_escaped_start(others);
        lemma_escaped_from(packet, i + 3, others);
        assert(packet[i + 3] == rest[3]);
        assert(rest[3] == escaped(others)[0]);
        assert(seq![0u8, 0u8] + others =~= data);
    } else {
        let others = data.skip(1);
        assert(packet[i] == rest[0]);
        assert(rest == seq![data[0]] + escaped(others));
        assert(rest.skip(1) =~= escaped(others));
        assert(packet.skip(i + 1) =~= rest.skip(1));
        lemma_escaped_start(others);
        lemma_escaped_start(others.skip(1));
        lemma_escaped_from(packet, i + 1, others);
        assert(!mark(packet, i, 1) && !mark(packet, i, 3)) by {
            if i + 2 < packet.len() && packet[i] == 0 && packet[i + 1] == 0 {
                assert(packet[i + 1] == packet.skip(i + 1)[0]);
                assert(packet[i + 2] == packet.skip(i + 1)[1]);
                assert(others.len() > 1);
                assert(others[0] == 0 && others[1] == data[2]);
                if !(others.len() > 2 && others[0] == 0 && others[1] == 0 && others[2] <= 3) {
                    assert(escaped(others)[1] == escaped(others.skip(1))[0]);
                }
            }
        }
        assert(seq![data[0]] + others =~= data);
    }
}

} // verus!
