//! Spans of time at nanosecond resolution, and the numbers of a script read
//! as such.

use vstd::prelude::*;
use vstd::arithmetic::div_mod::lemma_fundamental_div_mod;
use vstd::arithmetic::div_mod::lemma_mod_bound;
use crate::number::Decimal;
use crate::number::Number;
use crate::number::Value;
use crate::rounding::lemma_rounded_sum_near;
use crate::rounding::round_sum;
use crate::rounding::rounded_sum;

verus! {

/// Nanoseconds in a second.
pub const NANOS_PER_SEC: u32 = 1_000_000_000;

/// Nanoseconds in a millisecond.
pub const NANOS_PER_MILLI: u32 = 1_000_000;

/// The first count of nanoseconds that is no span: `2^64` seconds.
pub const SPAN_LIMIT: u128 = 18_446_744_073_709_551_616_000_000_000;

/// A span of time: whole seconds that fit 64 bits, and nanoseconds.
#[derive(Clone, Copy, Debug, PartialEq, Eq)]
pub struct Span {
    nanos: u128,
}

/// When an action is due, counted from the start of a replay.
#[derive(Clone, Copy, Debug, PartialEq, Eq)]
pub enum Offset {
    /// After the given span.
    At(Span),
    /// At no time that a clock reaches: the script gave a negative time, an
    /// unbounded one, one beyond the range of spans, or no quantity.
    Unreachable,
}

impl Span {
    #[verifier::type_invariant]
    spec fn in_range(self) -> bool {
        self.nanos < SPAN_LIMIT
    }

    /// The span in nanoseconds.
    pub closed spec fn total_nanos(self) -> nat {
        self.nanos as nat
    }

    /// The span of no time.
    pub fn zero() -> (s: Span)
        ensures
            s.total_nanos() == 0,
    {
        Span { nanos: 0 }
    }

    /// The span of `secs` seconds and `subsec_nanos` nanoseconds, provided
    /// that the latter are less than a second.
    pub fn from_parts(secs: u64, subsec_nanos: u32) -> (r: Option<Span>)
        ensures
            r is Some <==> subsec_nanos < NANOS_PER_SEC,
            r is Some ==> r->0.total_nanos() == secs * NANOS_PER_SEC + subsec_nanos,
    {
        if subsec_nanos < NANOS_PER_SEC {
            assert(secs * NANOS_PER_SEC <= 0xffff_ffff_ffff_ffff * 1_000_000_000) by (nonlinear_arith)
                requires
                    secs <= 0xffff_ffff_ffff_ffff,
                    NANOS_PER_SEC == 1_000_000_000,
            ;
            Some(Span { nanos: secs as u128 * NANOS_PER_SEC as u128 + subsec_nanos as u128 })
        } else {
            None
        }
    }

    /// The span of `nanos` nanoseconds, provided that they are less than
    /// `SPAN_LIMIT`.
    pub fn from_nanos(nanos: u128) -> (r: Option<Span>)
        ensures
            r is Some <==> nanos < SPAN_LIMIT,
            r is Some ==> r->0.total_nanos() == nanos,
    {
        if nanos < SPAN_LIMIT {
            Some(Span { nanos })
        } else {
            None
        }
    }

    /// The whole seconds of the span.
    pub fn secs(&self) -> (s: u64)
        ensures
            s == self.total_nanos() / NANOS_PER_SEC as nat,
    {
        proof {
            use_type_invariant(self);
            lemma_fundamental_div_mod(self.nanos as int, NANOS_PER_SEC as int);
            lemma_mod_bound(self.nanos as int, NANOS_PER_SEC as int);
        }
        (self.nanos / NANOS_PER_SEC as u128) as u64
    }

    /// The nanoseconds of the span beyond its whole seconds.
    pub fn subsec_nanos(&self) -> (n: u32)
        ensures
            n == self.total_nanos() % NANOS_PER_SEC as nat,
            n < NANOS_PER_SEC,
    {
        (self.nanos % NANOS_PER_SEC as u128) as u32
    }

    /// The span in nanoseconds.
    pub fn as_nanos(&self) -> (n: u128)
        ensures
            n == self.total_nanos(),
            n < SPAN_LIMIT,
    {
        proof {
            use_type_invariant(self);
        }
        self.nanos
    }

    /// What is left to wait when `elapsed` of this span has gone by: the
    /// difference where the span is longer than `elapsed`, and nothing where
    /// it is over.
    pub fn remaining(&self, elapsed: Span) -> (r: Option<Span>)
        ensures
            r is Some <==> self.total_nanos() > elapsed.total_nanos(),
            r is Some ==> elapsed.total_nanos() + r->0.total_nanos() == self.total_nanos(),
    {
        proof {
            use_type_invariant(self);
            use_type_invariant(elapsed);
        }
        if self.nanos > elapsed.nanos {
            Some(Span { nanos: self.nanos - elapsed.nanos })
        } else {
            None
        }
    }
}

/// Spans of one length are one span.
pub proof fn lemma_span_by_nanos(a: Span, b: Span)
    requires
        a.total_nanos() == b.total_nanos(),
    ensures
        a == b,
{
}

/// The span of `n` nanoseconds.
pub closed spec fn span_of_nanos(n: nat) -> Span {
    Span { nanos: n as u128 }
}

/// The offset after `n` nanoseconds, or the one never reached.
pub open spec fn due(n: Option<nat>) -> Offset {
    match n {
        Some(n) => Offset::At(span_of_nanos(n)),
        None => Offset::Unreachable,
    }
}

/// A span is the span of its nanoseconds.
pub proof fn lemma_span_of_nanos(s: Span)
    ensures
        span_of_nanos(s.total_nanos()) == s,
{
}

/// The span of a count of nanoseconds below `SPAN_LIMIT` has that many.
pub proof fn lemma_nanos_of_span(n: nat)
    requires
        n < SPAN_LIMIT,
    ensures
        span_of_nanos(n).total_nanos() == n,
{
}

impl View for Offset {
    type V = Option<nat>;

    /// The nanoseconds after which the action is due, if it ever is.
    open spec fn view(&self) -> Option<nat> {
        match self {
            Offset::At(s) => Some(s.total_nanos()),
            Offset::Unreachable => None,
        }
    }
}

/// `m * 10^e * factor`, rounded to the nearest whole number, ties upward.
pub open spec fn units_of(m: nat, e: int, factor: nat) -> nat {
    rounded_sum(0, false, m, e, factor) as nat
}

/// The nanoseconds that `v` denotes in units of `factor` nanoseconds each, if
/// it denotes a span: a quantity that is not below zero and, rounded to the
/// nanosecond, less than `SPAN_LIMIT`.
pub open spec fn nanos_of(v: Value, factor: nat) -> Option<nat> {
    match v {
        Value::Finite { negative, mantissa, exponent } => if negative && mantissa > 0 {
            None
        } else if units_of(mantissa, exponent, factor) < SPAN_LIMIT {
            Some(units_of(mantissa, exponent, factor))
        } else {
            None
        },
        _ => None,
    }
}

/// The magnitude of `d` in units of `factor` nanoseconds each, as a span
/// rounded to the nanosecond, if it is one.
pub fn magnitude_span(d: &Decimal, factor: u32) -> (r: Option<Span>)
    ensures
        r is Some <==> units_of(d.mantissa(), d.exponent(), factor as nat) < SPAN_LIMIT,
        r is Some ==> r->0.total_nanos() == units_of(d.mantissa(), d.exponent(), factor as nat),
{
    proof {
        lemma_rounded_sum_near(0, false, d.mantissa(), d.exponent(), factor as nat);
        lemma_rounded_sum_near(0, true, d.mantissa(), d.exponent(), factor as nat);
        lemma_round_mirror(d.mantissa(), d.exponent(), factor as nat);
    }
    match round_sum(0, d, factor) {
        Some(v) => {
            let magnitude: i128 = if v < 0 {
                -v
            } else {
                v
            };
            Span::from_nanos(magnitude as u128)
        },
        None => None,
    }
}

/// Rounding is symmetric about zero.
pub proof fn lemma_round_mirror(m: nat, e: int, factor: nat)
    ensures
        rounded_sum(0, true, m, e, factor) == -rounded_sum(0, false, m, e, factor),
        rounded_sum(0, false, m, e, factor) >= 0,
{
    let den = crate::scale::denominator(e) as int;
    let num = crate::scale::numerator(m, e, factor) as int;
    if e < 0 {
        crate::scale::lemma_pow10_positive((-e) as nat);
    }
    assert(0 * den == 0);
    if num == 0 {
        vstd::arithmetic::div_mod::lemma_fundamental_div_mod_converse(den, 2 * den, 0, den);
    } else {
        vstd::arithmetic::div_mod::lemma_div_pos_is_pos(2 * num + den, 2 * den);
    }
}

/// When a time of `millis` milliseconds is due.
pub fn offset_of_millis(millis: &Number) -> (t: Offset)
    ensures
        t == due(nanos_of(millis@, NANOS_PER_MILLI as nat)),
        t@ == nanos_of(millis@, NANOS_PER_MILLI as nat),
{
    match millis {
        Number::Finite(d) => {
            if d.is_negative() && !d.is_zero() {
                Offset::Unreachable
            } else {
                match magnitude_span(d, NANOS_PER_MILLI) {
                    Some(s) => Offset::At(s),
                    None => Offset::Unreachable,
                }
            }
        },
        _ => Offset::Unreachable,
    }
}


/// The difference of two spans is a span of as many nanoseconds.
pub proof fn lemma_span_difference(a: Span, b: Span)
    requires
        a.total_nanos() > b.total_nanos(),
    ensures
        span_of_nanos((a.total_nanos() - b.total_nanos()) as nat).total_nanos() == a.total_nanos()
            - b.total_nanos(),
{
}

/// A time is due at the whole nanosecond nearest to it: the two differ by
/// half a nanosecond at most.
pub proof fn lemma_units_nearest(m: nat, e: int, factor: nat)
    ensures
        ({
            let den = crate::scale::denominator(e) as int;
            let num = crate::scale::numerator(m, e, factor) as int;
            -den <= 2 * (units_of(m, e, factor) * den - num) <= den
        }),
{
    let den = crate::scale::denominator(e) as int;
    let num = crate::scale::numerator(m, e, factor) as int;
    if e < 0 {
        crate::scale::lemma_pow10_positive((-e) as nat);
    }
    lemma_round_mirror(m, e, factor);
    assert(0 * den + num == num);
    crate::rounding::lemma_round_nearest(num, den);
}

/// A time written in milliseconds with no more than six places behind the
/// point is due after exactly that time: its thousandth part in seconds, to
/// the nanosecond.
pub proof fn lemma_millis_exact(m: nat, e: int)
    requires
        e >= -6,
    ensures
        units_of(m, e, NANOS_PER_MILLI as nat) == m * crate::scale::pow10((e + 6) as nat),
{
    let den = crate::scale::denominator(e) as int;
    let num = crate::scale::numerator(m, e, NANOS_PER_MILLI as nat) as int;
    let k = (m * crate::scale::pow10((e + 6) as nat)) as int;
    reveal_with_fuel(crate::scale::pow10, 7);
    assert(crate::scale::pow10(6) == 1_000_000);
    if e >= 0 {
        crate::scale::lemma_pow10_adds(e as nat, 6);
        assert(num == k) by (nonlinear_arith)
            requires
                num == 1_000_000 * m * crate::scale::pow10(e as nat),
                k == m * (crate::scale::pow10(e as nat) * 1_000_000),
        ;
        assert(k * den == k) by (nonlinear_arith)
            requires
                den == 1,
        ;
    } else {
        crate::scale::lemma_pow10_adds((-e) as nat, (e + 6) as nat);
        crate::scale::lemma_pow10_positive((-e) as nat);
        assert(num == k * den) by (nonlinear_arith)
            requires
                num == 1_000_000 * m,
                k == m * crate::scale::pow10((e + 6) as nat),
                1_000_000 == den * crate::scale::pow10((e + 6) as nat),
        ;
    }
    assert(0 * den + num == k * den + 0);
    crate::rounding::lemma_round_parts(k, 0, den);
    assert(k >= 0) by (nonlinear_arith)
        requires
            k == m * crate::scale::pow10((e + 6) as nat),
    ;
}

} // verus!
