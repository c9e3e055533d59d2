//! Text: decoding bytes, trimming, and comparing without regard to ASCII case.

use vstd::prelude::*;

verus! {

/// Appends a character: `String::push` leaves the text with that character added at its end.
pub assume_specification[ String::push ](s: &mut String, c: char)
    ensures
        final(s)@ == old(s)@.push(c),
;

/// The characters with the Unicode property White_Space.
pub open spec fn is_white_space(c: char) -> bool {
    let v = c as u32;
    ||| 0x9 <= v <= 0xd
    ||| v == 0x20
    ||| v == 0x85
    ||| v == 0xa0
    ||| v == 0x1680
    ||| 0x2000 <= v <= 0x200a
    ||| v == 0x2028
    ||| v == 0x2029
    ||| v == 0x202f
    ||| v == 0x205f
    ||| v == 0x3000
}

/// `char::is_whitespace` tells the characters with the property White_Space.
pub assume_specification[ char::is_whitespace ](c: char) -> (r: bool)
    ensures
        r == is_white_space(c),
;

/// What `String::from_utf8_lossy` makes of bytes: each maximal invalid part
/// becomes one replacement character.
pub uninterp spec fn lossy_utf8(data: Seq<u8>) -> Seq<char>;

/// What `str::to_lowercase` makes of a text.
pub uninterp spec fn unicode_lowercase(s: Seq<char>) -> Seq<char>;

/// `String::from_utf8_lossy`: valid UTF-8 is decoded as it stands; what an
/// invalid part turns into is left to the name.
#[verifier::external_body]
pub(crate) fn utf8_lossy(data: &[u8]) -> (r: String)
    ensures
        r@ == lossy_utf8(data@),
        vstd::utf8::valid_utf8(data@) ==> r@ == vstd::utf8::decode_utf8(data@),
{
    String::from_utf8_lossy(data).into_owned()
}

/// `std::str::from_utf8`: the decoded text of valid UTF-8, nothing otherwise.
#[verifier::external_body]
pub(crate) fn utf8_strict(data: &[u8]) -> (r: Option<String>)
    ensures
        r is Some == vstd::utf8::valid_utf8(data@),
        r matches Some(s) ==> s@ == vstd::utf8::decode_utf8(data@),
{
    match std::str::from_utf8(data) {
        Ok(s) => Some(s.to_string()),
        Err(_) => None,
    }
}

/// `str::to_lowercase`, by name: the Unicode lowercase mapping of a text.
#[verifier::external_body]
pub(crate) fn lowercase(s: &str) -> (r: String)
    ensures
        r@ == unicode_lowercase(s@),
{
    s.to_lowercase()
}

/// The text that a sequence of UTF-16 code units spells, `None` on an unpaired surrogate.
pub open spec fn utf16_text(units: Seq<u16>) -> Option<Seq<char>>
    decreases units.len(),
{
    if units.len() == 0 {
        Some(Seq::empty())
    } else if units[0] < 0xd800 || units[0] > 0xdfff {
        match utf16_text(units.skip(1)) {
            Some(rest) => Some(seq![units[0] as char] + rest),
            None => None,
        }
    } else if units[0] <= 0xdbff && units.len() > 1 && 0xdc00 <= units[1] <= 0xdfff {
        match utf16_text(units.skip(2)) {
            Some(rest) => Some(
                seq![(0x1_0000 + (units[0] - 0xd800) * 0x400 + (units[1] - 0xdc00)) as char] + rest,
            ),
            None => None,
        }
    } else {
        None
    }
}

/// `String::from_utf16`: the text that the code units spell, nothing where a surrogate stands alone.
#[verifier::external_body]
pub(crate) fn from_utf16(units: &[u16]) -> (r: Option<String>)
    ensures
        r is Some == utf16_text(units@) is Some,
        r matches Some(s) ==> Some(s@) == utf16_text(units@),
{
    String::from_utf16(units).ok()
}

/// The byte order of 16-bit code units.
#[derive(Debug, Clone, Copy, PartialEq, Eq, Structural)]
pub enum Endian {
    Big,
    Little,
}

/// The 16-bit code unit that two bytes make.
pub open spec fn unit_of(a: u8, b: u8, order: Endian) -> u16 {
    match order {
        Endian::Big => (a * 256 + b) as u16,
        Endian::Little => (b * 256 + a) as u16,
    }
}

/// The 16-bit code units of bytes. An odd byte at the end is left out.
pub open spec fn units_of(data: Seq<u8>, order: Endian) -> Seq<u16> {
    Seq::new(data.len() / 2, |i: int| unit_of(data[2 * i], data[2 * i + 1], order))
}

/// The 16-bit code units of bytes, see `units_of`.
pub fn utf16_units(data: &[u8], order: Endian) -> (r: Vec<u16>)
    ensures
        r@ == units_of(data@, order),
{
    let len: usize = data.len();
    let n: usize = len / 2;
    let mut out: Vec<u16> = Vec::new();
    let mut i: usize = 0;
    while i < n
        invariant
            len == data@.len(),
            n == len / 2,
            i <= n,
            out@ == units_of(data@, order).take(i as int),
        decreases n - i,
    {
        let a: u16 = data[2 * i] as u16;
        let b: u16 = data[2 * i + 1] as u16;
        let unit: u16 = match order {
            Endian::Big => a * 256 + b,
            Endian::Little => b * 256 + a,
        };
        out.push(unit);
        i = i + 1;
        assert(out@ =~= units_of(data@, order).take(i as int));
    }
    assert(out@ =~= units_of(data@, order));
    out
}

/// What an optional text holds.
pub open spec fn text_view(s: Option<String>) -> Option<Seq<char>> {
    match s {
        Some(t) => Some(t@),
        None => None,
    }
}

/// The characters of a text.
pub fn chars_of(s: &str) -> (r: Vec<char>)
    ensures
        r@ == s@,
{
    let mut out: Vec<char> = Vec::new();
    for c in it: s.chars()
        invariant
            out@ == s@.take(it.index()),
            it.seq() == s@,
    {
        out.push(c);
        assert(out@ =~= s@.take(it.index() + 1));
    }
    assert(out@ =~= s@);
    out
}

/// The text with these characters.
pub fn text_of(chars: &[char]) -> (r: String)
    ensures
        r@ == chars@,
{
    let mut out: String = String::new();
    let mut i: usize = 0;
    while i < chars.len()
        invariant
            i <= chars@.len(),
            out@ == chars@.take(i as int),
        decreases chars@.len() - i,
    {
        out.push(chars[i]);
        i = i + 1;
        assert(out@ =~= chars@.take(i as int));
    }
    assert(out@ =~= chars@);
    out
}

/// What is cut off the ends of a text.
#[derive(Debug, Clone, Copy)]
pub enum Trim {
    /// White space.
    White,
    /// One character.
    Only(char),
}

impl Trim {
    /// Whether a character is cut off.
    pub open spec fn takes(self, c: char) -> bool {
        match self {
            Trim::White => is_white_space(c),
            Trim::Only(x) => c == x,
        }
    }

    fn accepts(self, c: char) -> (r: bool)
        ensures
            r == self.takes(c),
    {
        match self {
            Trim::White => c.is_whitespace(),
            Trim::Only(x) => c == x,
        }
    }
}

/// How many characters are cut off the start.
pub open spec fn leading(s: Seq<char>, what: Trim) -> nat
    decreases s.len(),
{
    if s.len() == 0 || !what.takes(s[0]) {
        0
    } else {
        1 + leading(s.skip(1), what)
    }
}

/// How many characters are cut off the end.
pub open spec fn trailing(s: Seq<char>, what: Trim) -> nat
    decreases s.len(),
{
    if s.len() == 0 || !what.takes(s.last()) {
        0
    } else {
        1 + trailing(s.drop_last(), what)
    }
}

/// The text without the characters cut off at its start and its end.
pub open spec fn trimmed(s: Seq<char>, what: Trim) -> Seq<char> {
    let front = s.skip(leading(s, what) as int);
    front.take(front.len() - trailing(front, what))
}

/// Cuts characters off both ends of a text, as `str::trim` and `str::trim_matches` do.
pub fn trim(s: &str, what: Trim) -> (r: String)
    ensures
        r@ == trimmed(s@, what),
{
    let chars: Vec<char> = chars_of(s);
    let mut start: usize = 0;
    assert(s@.skip(0) =~= s@);
    while start < chars.len() && what.accepts(chars[start])
        invariant
            start <= chars@.len(),
            chars@ == s@,
            leading(s@, what) == start + leading(s@.skip(start as int), what),
        decreases chars@.len() - start,
    {
        assert(s@.skip(start as int).skip(1) =~= s@.skip(start + 1));
        start = start + 1;
    }
    let ghost front = s@.skip(start as int);
    let mut end: usize = chars.len();
    assert(front.take(front.len() as int) =~= front);
    while end > start && what.accepts(chars[end - 1])
        invariant
            start <= end <= chars@.len(),
            chars@ == s@,
            front == s@.skip(start as int),
            trailing(front, what) == (chars@.len() - end) + trailing(
                front.take(end - start),
                what,
            ),
        decreases end,
    {
        assert(front.take(end - start).drop_last() =~= front.take(end - 1 - start));
        end = end - 1;
    }
    let part: &[char] = &chars.as_slice()[start..end];
    assert(part@ =~= trimmed(s@, what));
    text_of(part)
}

/// A character with the letters A to Z turned into a to z.
pub open spec fn ascii_lower(c: char) -> char {
    if 0x41 <= c as u32 <= 0x5a {
        (c as u32 + 0x20) as char
    } else {
        c
    }
}

/// A text with the letters A to Z turned into a to z.
pub open spec fn ascii_lowercase(s: Seq<char>) -> Seq<char> {
    Seq::new(s.len(), |i: int| ascii_lower(s[i]))
}

fn lower(c: char) -> (r: char)
    ensures
        r == ascii_lower(c),
{
    let v: u32 = c as u32;
    if 0x41 <= v && v <= 0x5a {
        ((v + 0x20) as u8) as char
    } else {
        c
    }
}

/// A copy with the letters A to Z turned into a to z.
pub fn to_ascii_lowercase(s: &str) -> (r: String)
    ensures
        r@ == ascii_lowercase(s@),
{
    let chars: Vec<char> = chars_of(s);
    let mut out: String = String::new();
    let mut i: usize = 0;
    while i < chars.len()
        invariant
            i <= chars@.len(),
            chars@ == s@,
            out@ == ascii_lowercase(s@).take(i as int),
        decreases chars@.len() - i,
    {
        out.push(lower(chars[i]));
        i = i + 1;
        assert(out@ =~= ascii_lowercase(s@).take(i as int));
    }
    assert(out@ =~= ascii_lowercase(s@));
    out
}

/// Whether two texts are the same but for the case of the letters A to Z.
pub fn eq_ignore_ascii_case(a: &str, b: &str) -> (r: bool)
    ensures
        r == (ascii_lowercase(a@) == ascii_lowercase(b@)),
{
    let x: String = to_ascii_lowercase(a);
    let y: String = to_ascii_lowercase(b);
    x == y
}

/// Whether two texts are the same.
pub fn same_text(a: &str, b: &str) -> (r: bool)
    ensures
        r == (a@ == b@),
{
    let x: Vec<char> = chars_of(a);
    let y: Vec<char> = chars_of(b);
    if x.len() != y.len() {
        return false;
    }
    let mut i: usize = 0;
    while i < x.len()
        invariant
            i <= x@.len(),
            x@ == a@,
            y@ == b@,
            x@.len() == y@.len(),
            forall|j: int| 0 <= j < i ==> x@[j] == y@[j],
        decreases x@.len() - i,
    {
        if x[i] != y[i] {
            assert(a@[i as int] != b@[i as int]);
            return false;
        }
        i = i + 1;
    }
    assert(a@ =~= b@);
    true
}

/// Whether `s` begins with `prefix`.
pub open spec fn begins_with(s: Seq<char>, prefix: Seq<char>) -> bool {
    prefix.len() <= s.len() && s.take(prefix.len() as int) == prefix
}

/// Whether a text begins with another.
pub fn starts_with(s: &str, prefix: &str) -> (r: bool)
    ensures
        r == begins_with(s@, prefix@),
{
    let x: Vec<char> = chars_of(s);
    let y: Vec<char> = chars_of(prefix);
    if y.len() > x.len() {
        return false;
    }
    let mut i: usize = 0;
    while i < y.len()
        invariant
            i <= y@.len() <= x@.len(),
            x@ == s@,
            y@ == prefix@,
            forall|j: int| 0 <= j < i ==> x@[j] == y@[j],
        decreases y@.len() - i,
    {
        if x[i] != y[i] {
            assert(s@.take(prefix@.len() as int)[i as int] != prefix@[i as int]);
            return false;
        }
        i = i + 1;
    }
    assert(s@.take(prefix@.len() as int) =~= prefix@);
    true
}

/// The decimal digits of a number.
pub open spec fn decimal(n: nat) -> Seq<char>
    decreases n,
{
    if n < 10 {
        seq![(0x30 + n) as char]
    } else {
        decimal(n / 10).push((0x30 + n % 10) as char)
    }
}

/// Appends the decimal digits of a number.
pub fn push_decimal(out: &mut String, n: u64)
    ensures
        final(out)@ == old(out)@ + decimal(n as nat),
    decreases n,
{
    if n >= 10 {
        push_decimal(out, n / 10);
    }
    let digit: u8 = 0x30 + (n % 10) as u8;
    out.push(digit as char);
    assert(out@ =~= old(out)@ + decimal(n as nat));
}

/// The decimal digits of a number.
pub fn decimal_text(n: u64) -> (r: String)
    ensures
        r@ == decimal(n as nat),
{
    let mut out: String = String::new();
    push_decimal(&mut out, n);
    assert(out@ =~= decimal(n as nat));
    out
}

/// Two texts one after the other.
pub fn joined(a: &str, b: &str) -> (r: String)
    ensures
        r@ == a@ + b@,
{
    let mut out: String = a.to_owned();
    out.append(b);
    out
}

/// Whether a text comes no later than another, in the order of their
/// characters.
pub open spec fn text_le(a: Seq<char>, b: Seq<char>) -> bool
    decreases a.len(),
{
    if a.len() == 0 {
        true
    } else if b.len() == 0 {
        false
    } else if a[0] == b[0] {
        text_le(a.skip(1), b.skip(1))
    } else {
        (a[0] as int) < (b[0] as int)
    }
}

/// Texts are in a total order.
pub proof fn lemma_text_order(a: Seq<char>, b: Seq<char>, c: Seq<char>)
    ensures
        text_le(a, a),
        text_le(a, b) || text_le(b, a),
        text_le(a, b) && text_le(b, a) ==> a == b,
        text_le(a, b) && text_le(b, c) ==> text_le(a, c),
    decreases a.len(),
{
    if a.len() == 0 {
        if b.len() == 0 {
            assert(a =~= b);
        }
    } else {
        lemma_text_order(a.skip(1), b.skip(1), c.skip(1));
        if b.len() > 0 && a[0] == b[0] && a.skip(1) == b.skip(1) {
            assert(a =~= seq![a[0]] + a.skip(1));
            assert(b =~= seq![b[0]] + b.skip(1));
        }
    }
}

/// Whether a text comes no later than another, see `text_le`.
pub fn text_at_most(a: &str, b: &str) -> (r: bool)
    ensures
        r == text_le(a@, b@),
{
    let x: Vec<char> = chars_of(a);
    let y: Vec<char> = chars_of(b);
    let mut i: usize = 0;
    assert(a@.skip(0) =~= a@);
    assert(b@.skip(0) =~= b@);
    while i < x.len() && i < y.len()
        invariant
            i <= x@.len(),
            i <= y@.len(),
            x@ == a@,
            y@ == b@,
            text_le(a@, b@) == text_le(a@.skip(i as int), b@.skip(i as int)),
        decreases x@.len() - i,
    {
        let p: char = x[i];
        let q: char = y[i];
        if p != q {
            return p < q;
        }
        assert(a@.skip(i as int).skip(1) =~= a@.skip(i + 1));
        assert(b@.skip(i as int).skip(1) =~= b@.skip(i + 1));
        i = i + 1;
    }
    i == x.len()
}

} // verus!
