//! Spans of time and ticks of a timescale.

use vstd::prelude::*;
use crate::text;
use crate::text::{joined, push_decimal};

verus! {

/// A span of time in whole seconds and nanoseconds.
#[derive(Debug, Clone, Copy, PartialEq, Eq, Structural)]
pub struct Duration {
    secs: u64,
    subsec_nanos: u32,
}

/// The nanoseconds in a second.
pub const NANOS_PER_SEC: u64 = 1_000_000_000;

impl Duration {
    /// The span in nanoseconds.
    pub closed spec fn nanos(self) -> nat {
        self.secs as nat * 1_000_000_000nat + self.subsec_nanos as nat
    }

    #[verifier::type_invariant]
    closed spec fn normal(self) -> bool {
        self.subsec_nanos < NANOS_PER_SEC
    }

    /// A span of whole seconds and nanoseconds, of which there are fewer than
    /// in a second.
    pub fn new(secs: u64, subsec_nanos: u32) -> (r: Option<Self>)
        ensures
            r is Some == (subsec_nanos < NANOS_PER_SEC),
            r matches Some(d) ==> d.nanos() == secs * 1_000_000_000 + subsec_nanos,
    {
        if subsec_nanos < 1_000_000_000 {
            Some(Duration { secs, subsec_nanos })
        } else {
            None
        }
    }

    /// A span of milliseconds.
    pub fn from_millis(millis: u64) -> (r: Self)
        ensures
            r.nanos() == millis * 1_000_000,
    {
        Duration { secs: millis / 1_000, subsec_nanos: (millis % 1_000 * 1_000_000) as u32 }
    }

    /// A span of nanoseconds.
    pub fn from_nanos(nanos: u64) -> (r: Self)
        ensures
            r.nanos() == nanos,
    {
        Duration { secs: nanos / NANOS_PER_SEC, subsec_nanos: (nanos % NANOS_PER_SEC) as u32 }
    }

    /// The span in nanoseconds.
    pub fn as_nanos(&self) -> (r: u128)
        ensures
            r == self.nanos(),
            r < 0x1_0000_0000_0000_0000 * 1_000_000_000,
    {
        proof {
            use_type_invariant(self);
        }
        self.secs as u128 * 1_000_000_000 + self.subsec_nanos as u128
    }
}

/// The whole ticks in a span of time, at most the largest 64-bit number.
pub open spec fn ticks_in(nanos: nat, timescale: u32) -> u64 {
    let ticks = nanos * timescale as nat / 1_000_000_000nat;
    if ticks > u64::MAX {
        u64::MAX
    } else {
        ticks as u64
    }
}

/// The whole ticks in a span of time, at most the largest 64-bit number.
pub fn duration_to_ticks(duration: Duration, timescale: u32) -> (r: u64)
    ensures
        r == ticks_in(duration.nanos(), timescale),
{
    let nanos: u128 = duration.as_nanos();
    proof {
        let n = duration.nanos() as int;
        let t = timescale as int;
        assert(0 <= n * t <= 0x1_0000_0000_0000_0000 * 1_000_000_001 * 0x1_0000_0000)
            by (nonlinear_arith)
            requires
                0 <= n <= 0x1_0000_0000_0000_0000 * 1_000_000_001,
                0 <= t <= 0x1_0000_0000,
        ;
    }
    let ticks: u128 = nanos * timescale as u128 / 1_000_000_000;
    if ticks > u64::MAX as u128 {
        u64::MAX
    } else {
        ticks as u64
    }
}

/// The span of a number of ticks, cut to whole nanoseconds. No time passes
/// in ticks of a timescale of zero.
pub open spec fn span_of(ticks: u64, timescale: u32) -> nat {
    if timescale == 0 {
        0
    } else {
        ticks as nat * 1_000_000_000nat / timescale as nat
    }
}

/// The span of a number of ticks.
pub fn ticks_to_duration(ticks: u64, timescale: u32) -> (r: Duration)
    ensures
        r.nanos() == span_of(ticks, timescale),
{
    if timescale == 0 {
        return Duration { secs: 0, subsec_nanos: 0 };
    }
    let scale: u64 = timescale as u64;
    let secs: u64 = ticks / scale;
    let rest: u64 = ticks % scale;
    proof {
        lemma_span(ticks as int, scale as int);
    }
    let nanos: u64 = rest * 1_000_000_000 / scale;
    Duration { secs, subsec_nanos: nanos as u32 }
}

/// The seconds and the nanoseconds of a span of ticks.
proof fn lemma_span(ticks: int, scale: int)
    requires
        0 <= ticks,
        0 < scale <= u32::MAX,
    ensures
        0 <= ticks % scale < scale,
        0 <= (ticks % scale) * 1_000_000_000 < 0xffff_ffff * 1_000_000_000,
        0 <= (ticks % scale) * 1_000_000_000 / scale < 1_000_000_000,
        ticks * 1_000_000_000 / scale == (ticks / scale) * 1_000_000_000 + (ticks % scale)
            * 1_000_000_000 / scale,
{
    let q = ticks / scale;
    let r = ticks % scale;
    let b = 1_000_000_000int;
    vstd::arithmetic::div_mod::lemma_fundamental_div_mod(ticks, scale);
    assert(0 <= r * b < scale * b) by (nonlinear_arith)
        requires
            0 <= r < scale,
            b == 1_000_000_000,
    ;
    assert(ticks * b == scale * (q * b) + r * b) by (nonlinear_arith)
        requires
            ticks == scale * q + r,
    ;
    vstd::arithmetic::div_mod::lemma_hoist_over_denominator(r * b, q * b, scale as nat);
    assert(scale * (q * b) == (q * b) * scale) by (nonlinear_arith);
    let n = r * b / scale;
    vstd::arithmetic::div_mod::lemma_fundamental_div_mod(r * b, scale);
    assert(0 <= n < b) by (nonlinear_arith)
        requires
            r * b == scale * n + (r * b) % scale,
            0 <= (r * b) % scale < scale,
            0 <= r * b < scale * b,
            0 < scale,
    ;
}

/// A longer span has no fewer ticks.
pub proof fn law_ticks_follow_time(a: nat, b: nat, timescale: u32)
    requires
        a <= b,
    ensures
        ticks_in(a, timescale) <= ticks_in(b, timescale),
{
    assert(a * timescale as nat <= b * timescale as nat) by (nonlinear_arith)
        requires
            a <= b,
    ;
    vstd::arithmetic::div_mod::lemma_div_is_ordered(
        (a * timescale as nat) as int,
        (b * timescale as nat) as int,
        1_000_000_000,
    );
}

/// The ticks of the span of a number of ticks are that number or, where the
/// span was cut, one less. (A timescale finer than a nanosecond loses more.)
pub proof fn law_ticks_survive_a_span(ticks: u64, timescale: u32)
    requires
        0 < timescale <= 1_000_000_000,
    ensures
        ticks - 1 <= ticks_in(span_of(ticks, timescale), timescale) <= ticks,
{
    let t = ticks as int;
    let s = timescale as int;
    let b = 1_000_000_000int;
    let n = t * b / s;
    vstd::arithmetic::div_mod::lemma_fundamental_div_mod(t * b, s);
    let m = n * s / b;
    vstd::arithmetic::div_mod::lemma_fundamental_div_mod(n * s, b);
    assert(n * s == s * n) by (nonlinear_arith);
    assert(0 <= t * b) by (nonlinear_arith)
        requires
            0 <= t,
            b == 1_000_000_000,
    ;
    assert(0 <= n) by (nonlinear_arith)
        requires
            t * b == s * n + (t * b) % s,
            0 <= (t * b) % s < s,
            0 <= t * b,
            0 < s,
    ;
    assert(t - 1 <= m <= t) by (nonlinear_arith)
        requires
            s * n == t * b - (t * b) % s,
            0 <= (t * b) % s < s,
            s <= b,
            s * n == b * m + (n * s) % b,
            0 <= (n * s) % b < b,
            b == 1_000_000_000,
    ;
}

// --------------------
// Spans in words
// --------------------

/// The decimal digits of a fraction, the first one counted in `unit`, without
/// trailing zeros.
pub open spec fn fraction_digits(fraction: nat, unit: nat) -> Seq<char>
    decreases unit,
{
    if fraction == 0 || unit == 0 {
        Seq::empty()
    } else {
        seq![(0x30 + fraction / unit) as char] + fraction_digits(fraction % unit, unit / 10)
    }
}

/// A decimal number with its unit. `first` is what the first digit behind the
/// point counts.
pub open spec fn decimal_with(whole: nat, fraction: nat, first: nat, unit: Seq<char>) -> Seq<char> {
    if fraction == 0 {
        text::decimal(whole) + unit
    } else {
        text::decimal(whole) + seq!['.'] + fraction_digits(fraction, first) + unit
    }
}

/// A span in the largest unit of which it holds a whole one, from seconds
/// down to nanoseconds.
pub open spec fn span_text(nanos: nat) -> Seq<char> {
    let sub = nanos % 1_000_000_000;
    if nanos >= 1_000_000_000 {
        decimal_with(nanos / 1_000_000_000, sub, 100_000_000, "s"@)
    } else if sub >= 1_000_000 {
        decimal_with(sub / 1_000_000, sub % 1_000_000, 100_000, "ms"@)
    } else if sub >= 1_000 {
        decimal_with(sub / 1_000, sub % 1_000, 100, "µs"@)
    } else {
        decimal_with(sub, 0, 1, "ns"@)
    }
}

/// The character of a decimal digit.
fn digit(n: u32) -> (r: char)
    requires
        n < 10,
    ensures
        r == (0x30 + n) as char,
{
    match n {
        0 => '0',
        1 => '1',
        2 => '2',
        3 => '3',
        4 => '4',
        5 => '5',
        6 => '6',
        7 => '7',
        8 => '8',
        _ => '9',
    }
}

/// Whether a number is what a decimal place counts.
spec fn is_place(n: u32) -> bool {
    n == 1 || n == 10 || n == 100 || n == 1_000 || n == 10_000 || n == 100_000 || n == 1_000_000
        || n == 10_000_000 || n == 100_000_000
}

/// A decimal number with its unit, see `decimal_with`.
fn decimal_text_with(whole: u64, fraction: u32, first: u32, unit: &str) -> (r: String)
    requires
        fraction < 10 * first,
        is_place(first),
    ensures
        r@ == decimal_with(whole as nat, fraction as nat, first as nat, unit@),
{
    let mut out: String = String::new();
    push_decimal(&mut out, whole);
    if fraction > 0 {
        out.push('.');
        let ghost start = out@;
        let mut left: u32 = fraction;
        let mut step: u32 = first;
        let ghost all = fraction_digits(fraction as nat, first as nat);
        while left > 0 && step > 0
            invariant
                left < 10 * step || left == 0,
                is_place(step) || step == 0,
                all == fraction_digits(fraction as nat, first as nat),
                out@ + fraction_digits(left as nat, step as nat) == start + all,
            decreases step,
        {
            let ghost before = out@;
            proof {
                let rest = fraction_digits((left % step) as nat, (step / 10) as nat);
                assert(left / step < 10) by (nonlinear_arith)
                    requires
                        left < 10 * step,
                        step > 0,
                ;
                assert(before + fraction_digits(left as nat, step as nat) =~= before.push(
                    (0x30 + left / step) as char,
                ) + rest);
                if step < 10 {
                    assert(step / 10 == 0);
                }
            }
            out.push(digit(left / step));
            left = left % step;
            step = step / 10;
        }
        assert(fraction_digits(left as nat, step as nat) =~= Seq::<char>::empty());
        assert(out@ =~= start + all);
    }
    let text: String = joined(out.as_str(), unit);
    assert(text@ =~= decimal_with(whole as nat, fraction as nat, first as nat, unit@));
    text
}

impl Duration {
    /// The span in words, see `span_text`.
    pub fn to_text(&self) -> (r: String)
        ensures
            r@ == span_text(self.nanos()),
    {
        proof {
            use_type_invariant(self);
        }
        let sub: u32 = self.subsec_nanos;
        if self.secs > 0 {
            decimal_text_with(self.secs, sub, 100_000_000, "s")
        } else if sub >= 1_000_000 {
            decimal_text_with((sub / 1_000_000) as u64, sub % 1_000_000, 100_000, "ms")
        } else if sub >= 1_000 {
            decimal_text_with((sub / 1_000) as u64, sub % 1_000, 100, "µs")
        } else {
            decimal_text_with(sub as u64, 0, 1, "ns")
        }
    }
}

} // verus!
