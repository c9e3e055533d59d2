//! Text in the encodings that tags and samples use.

use vstd::prelude::*;
use crate::metadata;
use crate::metadata::decode_marked_utf16;
use crate::text;
use crate::text::{from_utf16, text_of, trim, utf16_units, utf8_strict, Endian, Trim};

verus! {

/// The text of bytes that are characters each.
pub open spec fn latin1(data: Seq<u8>) -> Seq<char> {
    Seq::new(data.len(), |i: int| data[i] as char)
}

/// Decodes ISO-8859-1.
pub fn decode_latin1(data: &[u8]) -> (r: String)
    ensures
        r@ == latin1(data@),
{
    let mut chars: Vec<char> = Vec::new();
    let mut i: usize = 0;
    while i < data.len()
        invariant
            i <= data@.len(),
            chars@ == latin1(data@).take(i as int),
        decreases data@.len() - i,
    {
        chars.push(data[i] as char);
        i = i + 1;
        assert(chars@ =~= latin1(data@).take(i as int));
    }
    assert(chars@ =~= latin1(data@));
    text_of(chars.as_slice())
}

/// The text of valid UTF-8.
pub open spec fn utf8_text(data: Seq<u8>) -> Option<Seq<char>> {
    if vstd::utf8::valid_utf8(data) {
        Some(vstd::utf8::decode_utf8(data))
    } else {
        None
    }
}

/// Decodes UTF-8.
pub fn decode_utf8(data: &[u8]) -> (r: Option<String>)
    ensures
        text::text_view(r) == utf8_text(data@),
{
    utf8_strict(data)
}

/// The text of big-endian UTF-16 without an odd byte at the end.
pub open spec fn utf16_be_text(data: Seq<u8>) -> Option<Seq<char>> {
    text::utf16_text(text::units_of(data, Endian::Big))
}

/// Decodes big-endian UTF-16.
pub fn decode_utf16_be(data: &[u8]) -> (r: Option<String>)
    ensures
        text::text_view(r) == utf16_be_text(data@),
{
    let units: Vec<u16> = utf16_units(data, Endian::Big);
    from_utf16(units.as_slice())
}

/// Decodes UTF-16 in the byte order that its mark tells, big-endian without one.
pub fn decode_utf16_with_bom(data: &[u8]) -> (r: Option<String>)
    ensures
        text::text_view(r) == metadata::marked_utf16(data@),
{
    decode_marked_utf16(data)
}

/// A text without null padding and white space around it, where anything is left.
pub open spec fn tidy(s: Seq<char>) -> Option<Seq<char>> {
    if metadata::tidied(s).len() == 0 {
        None
    } else {
        Some(metadata::tidied(s))
    }
}

/// Removes null padding and white space around a text.
pub fn trim_null_and_whitespace(s: &str) -> (r: Option<String>)
    ensures
        text::text_view(r) == tidy(s@),
{
    let inner: String = trim(s, Trim::Only('\0'));
    let out: String = trim(inner.as_str(), Trim::White);
    if out.as_str().unicode_len() == 0 {
        None
    } else {
        Some(out)
    }
}

// --------------------
// Laws
// --------------------

/// Whether all characters of a text are among those cut off.
pub open spec fn all_taken(s: Seq<char>, what: Trim) -> bool {
    forall|i: int| 0 <= i < s.len() ==> what.takes(#[trigger] s[i])
}

proof fn lemma_leading(p: Seq<char>, s: Seq<char>, what: Trim)
    requires
        all_taken(p, what),
        s.len() > 0,
        !what.takes(s[0]),
    ensures
        text::leading(p + s, what) == p.len(),
    decreases p.len(),
{
    if p.len() > 0 {
        assert((p + s).skip(1) =~= p.skip(1) + s);
        assert((p + s)[0] == p[0]);
        assert forall|i: int| 0 <= i < p.skip(1).len() implies what.takes(#[trigger] p.skip(1)[i]) by {
            assert(p.skip(1)[i] == p[i + 1]);
        }
        lemma_leading(p.skip(1), s, what);
    } else {
        assert(p + s =~= s);
    }
}

proof fn lemma_trailing(s: Seq<char>, q: Seq<char>, what: Trim)
    requires
        all_taken(q, what),
        s.len() > 0,
        !what.takes(s.last()),
    ensures
        text::trailing(s + q, what) == q.len(),
    decreases q.len(),
{
    if q.len() > 0 {
        assert((s + q).drop_last() =~= s + q.drop_last());
        assert((s + q).last() == q.last());
        assert forall|i: int| 0 <= i < q.drop_last().len() implies what.takes(
            #[trigger] q.drop_last()[i],
        ) by {
            assert(q.drop_last()[i] == q[i]);
        }
        lemma_trailing(s, q.drop_last(), what);
    } else {
        assert(s + q =~= s);
    }
}

/// What is cut off a text are the characters in front of its first one that
/// stays and behind its last one.
pub proof fn law_trimming_keeps_the_middle(p: Seq<char>, s: Seq<char>, q: Seq<char>, what: Trim)
    requires
        all_taken(p, what),
        all_taken(q, what),
        s.len() > 0,
        !what.takes(s[0]),
        !what.takes(s.last()),
    ensures
        text::trimmed(p + s + q, what) == s,
{
    assert(p + s + q =~= p + (s + q));
    lemma_leading(p, s + q, what);
    assert((p + s + q).skip(p.len() as int) =~= s + q);
    lemma_trailing(s, q, what);
    assert((s + q).take(s.len() as int) =~= s);
}

/// Whether a text starts and ends with characters that are neither null nor
/// white space.
pub open spec fn is_tidy(s: Seq<char>) -> bool {
    &&& s.len() > 0
    &&& s[0] != '\0' && !text::is_white_space(s[0])
    &&& s.last() != '\0' && !text::is_white_space(s.last())
}

/// A number of null characters.
pub open spec fn nulls(n: nat) -> Seq<char> {
    Seq::new(n, |i: int| '\0')
}

/// Null padding around a text, and white space inside of that, are left out.
pub proof fn law_padding_is_left_out(
    a: nat,
    before: Seq<char>,
    s: Seq<char>,
    behind: Seq<char>,
    b: nat,
)
    requires
        is_tidy(s),
        all_taken(before, Trim::White),
        all_taken(behind, Trim::White),
    ensures
        tidy(nulls(a) + (before + s + behind) + nulls(b)) == Some(s),
{
    let inner = before + s + behind;
    assert(inner.len() > 0);
    assert(inner[0] != '\0') by {
        if before.len() > 0 {
            assert(inner[0] == before[0]);
            assert(Trim::White.takes(before[0]));
        } else {
            assert(inner[0] == s[0]);
        }
    }
    assert(inner.last() != '\0') by {
        if behind.len() > 0 {
            assert(inner.last() == behind[behind.len() - 1]);
            assert(Trim::White.takes(behind[behind.len() - 1]));
        } else {
            assert(inner.last() == s.last());
        }
    }
    law_trimming_keeps_the_middle(nulls(a), inner, nulls(b), Trim::Only('\0'));
    law_trimming_keeps_the_middle(before, s, behind, Trim::White);
}

pub(crate) proof fn lemma_tidy_stays(s: Seq<char>)
    requires
        is_tidy(s),
    ensures
        tidy(s) == Some(s),
{
    let none = Seq::<char>::empty();
    law_padding_is_left_out(0, none, s, none, 0);
    assert(nulls(0) + (none + s + none) + nulls(0) =~= s);
}

/// The code units of a character in UTF-16: itself, or a pair of surrogates.
pub open spec fn units_of_char(c: char) -> Seq<u16> {
    let v = c as u32 as int;
    if v < 0x1_0000 {
        seq![v as u16]
    } else {
        seq![
            (0xd800 + (v - 0x1_0000) / 0x400) as u16,
            (0xdc00 + (v - 0x1_0000) % 0x400) as u16,
        ]
    }
}

/// The code units of a text in UTF-16.
pub open spec fn utf16_of(s: Seq<char>) -> Seq<u16>
    decreases s.len(),
{
    if s.len() == 0 {
        Seq::empty()
    } else {
        units_of_char(s[0]) + utf16_of(s.skip(1))
    }
}

/// Code units as bytes, the high or the low byte of each first.
pub open spec fn unit_bytes(units: Seq<u16>, order: Endian) -> Seq<u8> {
    Seq::new(
        2 * units.len(),
        |i: int|
            if (i % 2 == 0) == (order == Endian::Big) {
                (units[i / 2] / 0x100) as u8
            } else {
                (units[i / 2] % 0x100) as u8
            },
    )
}

/// A text in UTF-16 is read back.
pub proof fn law_utf16_reads_back(s: Seq<char>, order: Endian)
    ensures
        text::utf16_text(text::units_of(unit_bytes(utf16_of(s), order), order)) == Some(s),
{
    let units = utf16_of(s);
    let data = unit_bytes(units, order);
    assert(text::units_of(data, order) =~= units) by {
        assert forall|i: int| 0 <= i < units.len() implies text::unit_of(
            data[2 * i],
            data[2 * i + 1],
            order,
        ) == #[trigger] units[i] by {
            assert((2 * i) / 2 == i && (2 * i + 1) / 2 == i);
            assert((2 * i) % 2 == 0 && (2 * i + 1) % 2 == 1);
        }
    }
    lemma_utf16(s);
}

proof fn lemma_utf16(s: Seq<char>)
    ensures
        text::utf16_text(utf16_of(s)) == Some(s),
    decreases s.len(),
{
    let all = utf16_of(s);
    if s.len() == 0 {
        assert(text::utf16_text(all) == Some(Seq::<char>::empty()));
        assert(s =~= Seq::<char>::empty());
    } else {
        let c = s[0];
        let rest = s.skip(1);
        lemma_utf16(rest);
        vstd::utf8::char_is_scalar(c);
        let v = c as u32;
        vstd::utf8::char_u32_cast(c, v);
        if v < 0x1_0000 {
            assert(all.skip(1) =~= utf16_of(rest));
            assert(all[0] == v as u16);
            assert(all[0] as char == c);
        } else {
            assert(all.skip(2) =~= utf16_of(rest));
            let w = v - 0x1_0000;
            assert(0x1_0000 + (all[0] - 0xd800) * 0x400 + (all[1] - 0xdc00) == v);
        }
        assert(seq![c] + rest =~= s);
    }
}

/// A text with a byte order mark is read back in either order.
pub proof fn law_marked_utf16_reads_back(s: Seq<char>, order: Endian)
    ensures
        metadata::marked_utf16(
            (if order == Endian::Big {
                seq![0xfeu8, 0xff]
            } else {
                seq![0xffu8, 0xfe]
            }) + unit_bytes(utf16_of(s), order),
        ) == Some(s),
{
    let data = unit_bytes(utf16_of(s), order);
    let mark = if order == Endian::Big {
        seq![0xfeu8, 0xff]
    } else {
        seq![0xffu8, 0xfe]
    };
    assert((mark + data).skip(2) =~= data);
    law_utf16_reads_back(s, order);
}

/// A text of valid UTF-8 is read back.
pub proof fn law_utf8_reads_back(s: Seq<char>)
    ensures
        utf8_text(vstd::utf8::encode_utf8(s)) == Some(s),
{
    vstd::utf8::encode_utf8_valid_utf8(s);
    vstd::utf8::encode_utf8_decode_utf8(s);
}

/// Characters below 256 as bytes.
pub open spec fn latin1_bytes(s: Seq<char>) -> Seq<u8> {
    Seq::new(s.len(), |i: int| s[i] as u32 as u8)
}

/// A text of characters below 256 is read back from a byte for each.
pub proof fn law_latin1_reads_back(s: Seq<char>)
    requires
        forall|i: int| 0 <= i < s.len() ==> (#[trigger] s[i]) as u32 <= 0xff,
    ensures
        latin1(latin1_bytes(s)) == s,
{
    assert(latin1(latin1_bytes(s)) =~= s) by {
        assert forall|i: int| 0 <= i < s.len() implies #[trigger] latin1(latin1_bytes(s))[i]
            == s[i] by {
            vstd::utf8::char_u32_cast(s[i], s[i] as u32);
        }
    }
}

} // verus!
