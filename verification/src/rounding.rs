//! Rounding to the nearest whole number, ties away from zero.

use vstd::prelude::*;
use vstd::arithmetic::div_mod::lemma_fundamental_div_mod;
use vstd::arithmetic::div_mod::lemma_fundamental_div_mod_converse;
use vstd::arithmetic::div_mod::lemma_mod_bound;
use crate::number::Decimal;
use crate::scale::denominator;
use crate::scale::lemma_pow10_positive;
use crate::scale::numerator;
use crate::scale::scale;
use crate::scale::Part;
use crate::scale::SCALE_LIMIT;

verus! {

/// The whole number nearest to `num / den`, for `den > 0`; of two that are
/// equally near, the one farther from zero.
pub open spec fn round_half_away(num: int, den: int) -> int {
    if num >= 0 {
        (2 * num + den) / (2 * den)
    } else {
        -((2 * (-num) + den) / (2 * den))
    }
}

/// `base + v * factor` rounded, where `v` is `m * 10^e`, negated where
/// `negative`.
pub open spec fn rounded_sum(base: int, negative: bool, m: nat, e: int, factor: nat) -> int {
    let den = denominator(e) as int;
    let num = numerator(m, e, factor) as int;
    round_half_away(
        base * den + if negative {
            -num
        } else {
            num
        },
        den,
    )
}

/// Rounding `k + rest / den`: a non-negative quantity goes up from one half
/// on, a negative one only above one half.
pub proof fn lemma_round_parts(k: int, rest: int, den: int)
    requires
        den > 0,
        0 <= rest < den,
    ensures
        round_half_away(k * den + rest, den) == if k >= 0 {
            if 2 * rest >= den {
                k + 1
            } else {
                k
            }
        } else {
            if 2 * rest > den {
                k + 1
            } else {
                k
            }
        },
{
    let num = k * den + rest;
    if k >= 0 {
        assert(num >= 0) by (nonlinear_arith)
            requires
                num == k * den + rest,
                k >= 0,
                den > 0,
                rest >= 0,
        ;
        let x = 2 * num + den;
        if 2 * rest >= den {
            assert(x == (k + 1) * (2 * den) + (2 * rest - den)) by (nonlinear_arith)
                requires
                    x == 2 * num + den,
                    num == k * den + rest,
            ;
            lemma_fundamental_div_mod_converse(x, 2 * den, k + 1, 2 * rest - den);
        } else {
            assert(x == k * (2 * den) + (2 * rest + den)) by (nonlinear_arith)
                requires
                    x == 2 * num + den,
                    num == k * den + rest,
            ;
            lemma_fundamental_div_mod_converse(x, 2 * den, k, 2 * rest + den);
        }
    } else {
        assert(num < 0) by (nonlinear_arith)
            requires
                num == k * den + rest,
                k <= -1,
                den > 0,
                rest < den,
        ;
        let x = 2 * (-num) + den;
        if 2 * rest > den {
            assert(x == (-k - 1) * (2 * den) + (3 * den - 2 * rest)) by (nonlinear_arith)
                requires
                    x == 2 * (-num) + den,
                    num == k * den + rest,
            ;
            lemma_fundamental_div_mod_converse(x, 2 * den, -k - 1, 3 * den - 2 * rest);
        } else {
            assert(x == (-k) * (2 * den) + (den - 2 * rest)) by (nonlinear_arith)
                requires
                    x == 2 * (-num) + den,
                    num == k * den + rest,
            ;
            lemma_fundamental_div_mod_converse(x, 2 * den, -k, den - 2 * rest);
        }
    }
}

/// A rounded sum is within one of the base plus or minus the whole part of
/// what was added.
pub proof fn lemma_rounded_sum_near(base: int, negative: bool, m: nat, e: int, factor: nat)
    ensures
        ({
            let whole = (numerator(m, e, factor) / denominator(e)) as int;
            let r = rounded_sum(base, negative, m, e, factor);
            if negative {
                base - whole - 1 <= r <= base - whole
            } else {
                base + whole <= r <= base + whole + 1
            }
        }),
{
    let den = denominator(e) as int;
    let num = numerator(m, e, factor) as int;
    if e < 0 {
        lemma_pow10_positive((-e) as nat);
    }
    let whole = num / den;
    let rest = num % den;
    lemma_fundamental_div_mod(num, den);
    lemma_mod_bound(num, den);
    if !negative {
        assert(base * den + num == (base + whole) * den + rest) by (nonlinear_arith)
            requires
                num == den * whole + rest,
        ;
        lemma_round_parts(base + whole, rest, den);
    } else if rest == 0 {
        assert(base * den - num == (base - whole) * den + 0) by (nonlinear_arith)
            requires
                num == den * whole + rest,
                rest == 0,
        ;
        lemma_round_parts(base - whole, 0, den);
    } else {
        assert(base * den - num == (base - whole - 1) * den + (den - rest)) by (nonlinear_arith)
            requires
                num == den * whole + rest,
        ;
        lemma_round_parts(base - whole - 1, den - rest, den);
    }
}

/// `base + d * factor`, rounded. Nothing where the whole part of
/// `|d| * factor` reaches `SCALE_LIMIT`.
pub fn round_sum(base: i64, d: &Decimal, factor: u32) -> (r: Option<i128>)
    ensures
        match r {
            Some(v) => v == rounded_sum(
                base as int,
                d.negative(),
                d.mantissa(),
                d.exponent(),
                factor as nat,
            ) && numerator(d.mantissa(), d.exponent(), factor as nat) / denominator(d.exponent())
                < SCALE_LIMIT,
            None => numerator(d.mantissa(), d.exponent(), factor as nat) / denominator(
                d.exponent(),
            ) >= SCALE_LIMIT,
        },
{
    let ghost den = denominator(d.exponent()) as int;
    let ghost num = numerator(d.mantissa(), d.exponent(), factor as nat) as int;
    let ghost rest = num % den;
    proof {
        if d.exponent() < 0 {
            lemma_pow10_positive((-d.exponent()) as nat);
        }
        lemma_fundamental_div_mod(num, den);
        lemma_mod_bound(num, den);
    }
    let q = match scale(d, factor) {
        Some(q) => q,
        None => {
            return None;
        },
    };
    let whole: i128 = q.whole as i128;
    if !d.is_negative() {
        let k: i128 = base as i128 + whole;
        proof {
            assert(base * den + num == k * den + rest) by (nonlinear_arith)
                requires
                    num == den * whole + rest,
                    k == base + whole,
            ;
            lemma_round_parts(k as int, rest, den);
        }
        let up = match q.part {
            Part::Zero => false,
            Part::BelowHalf => false,
            Part::Half => k >= 0,
            Part::AboveHalf => true,
        };
        Some(if up { k + 1 } else { k })
    } else {
        match q.part {
            Part::Zero => {
                let k: i128 = base as i128 - whole;
                proof {
                    assert(base * den - num == k * den + 0) by (nonlinear_arith)
                        requires
                            num == den * whole + rest,
                            rest == 0,
                            k == base - whole,
                    ;
                    lemma_round_parts(k as int, 0, den);
                }
                Some(k)
            },
            _ => {
                let k: i128 = base as i128 - whole - 1;
                proof {
                    assert(base * den - num == k * den + (den - rest)) by (nonlinear_arith)
                        requires
                            num == den * whole + rest,
                            k == base - whole - 1,
                    ;
                    lemma_round_parts(k as int, den - rest, den);
                }
                let up = match q.part {
                    Part::Zero => false,
                    Part::BelowHalf => true,
                    Part::Half => k >= 0,
                    Part::AboveHalf => false,
                };
                Some(if up { k + 1 } else { k })
            },
        }
    }
}


/// A rounded quotient is within one half of the quotient.
pub proof fn lemma_round_nearest(num: int, den: int)
    requires
        den > 0,
    ensures
        -den <= 2 * (round_half_away(num, den) * den - num) <= den,
{
    let k = num / den;
    let rest = num % den;
    lemma_fundamental_div_mod(num, den);
    lemma_mod_bound(num, den);
    assert(num == k * den + rest) by (nonlinear_arith)
        requires
            num == den * k + rest,
    ;
    lemma_round_parts(k, rest, den);
    let r = round_half_away(num, den);
    assert(r == k || r == k + 1);
    assert(r * den - num == (r - k) * den - rest) by (nonlinear_arith)
        requires
            num == k * den + rest,
    ;
    if r == k {
        assert((r - k) * den == 0);
    } else {
        assert((r - k) * den == den) by (nonlinear_arith)
            requires
                r - k == 1,
        ;
    }
}


/// A quotient rounds as it does with numerator and denominator multiplied
/// by one positive number.
pub proof fn lemma_round_cancel(num: int, den: int, c: int)
    requires
        den > 0,
        c > 0,
    ensures
        round_half_away(c * num, c * den) == round_half_away(num, den),
{
    let k = num / den;
    let rest = num % den;
    lemma_fundamental_div_mod(num, den);
    lemma_mod_bound(num, den);
    assert(num == k * den + rest) by (nonlinear_arith)
        requires
            num == den * k + rest,
    ;
    assert(c * num == k * (c * den) + c * rest) by (nonlinear_arith)
        requires
            num == k * den + rest,
    ;
    assert(0 <= c * rest < c * den) by (nonlinear_arith)
        requires
            0 <= rest < den,
            c > 0,
    ;
    assert(c * den > 0) by (nonlinear_arith)
        requires
            den > 0,
            c > 0,
    ;
    assert((2 * (c * rest) >= c * den) == (2 * rest >= den)) by (nonlinear_arith)
        requires
            c > 0,
    ;
    assert((2 * (c * rest) > c * den) == (2 * rest > den)) by (nonlinear_arith)
        requires
            c > 0,
    ;
    lemma_round_parts(k, rest, den);
    lemma_round_parts(k, c * rest, c * den);
}

/// A rounded sum goes by what a literal denotes, not by how it is written:
/// one more digit behind the mantissa and an exponent lower by one give the
/// same sum.
pub proof fn lemma_rounded_sum_by_value(base: int, negative: bool, m: nat, e: int, factor: nat)
    ensures
        rounded_sum(base, negative, 10 * m, e - 1, factor) == rounded_sum(
            base,
            negative,
            m,
            e,
            factor,
        ),
{
    let den = denominator(e) as int;
    let num = numerator(m, e, factor) as int;
    let wide_den = denominator(e - 1) as int;
    let wide_num = numerator(10 * m, e - 1, factor) as int;
    if e >= 1 {
        let p = crate::scale::pow10((e - 1) as nat) as int;
        assert(crate::scale::pow10(e as nat) == 10 * p);
        assert(factor * (10 * m) * p == factor * m * (10 * p)) by (nonlinear_arith);
    } else {
        let p = crate::scale::pow10((-e) as nat) as int;
        lemma_pow10_positive((-e) as nat);
        assert(crate::scale::pow10((1 - e) as nat) == 10 * p);
        assert(den == p);
        assert(num == factor * m) by (nonlinear_arith)
            requires
                num == factor * m || (p == 1 && num == factor * m * p),
        ;
        assert(wide_num == 10 * num) by (nonlinear_arith)
            requires
                wide_num == factor * (10 * m),
                num == factor * m,
        ;
        let total = base * den + if negative {
            -num
        } else {
            num
        };
        assert(base * wide_den + (if negative {
            -wide_num
        } else {
            wide_num
        }) == 10 * total) by (nonlinear_arith)
            requires
                wide_den == 10 * den,
                wide_num == 10 * num,
                total == base * den + if negative {
                    -num
                } else {
                    num
                },
        ;
        lemma_round_cancel(total, den, 10);
    }
}

} // verus!
