//! Exact arithmetic on decimal literals: a literal times a whole factor,
//! split into its whole part and the place of what is left against one half.

use vstd::prelude::*;
use vstd::arithmetic::div_mod::lemma_fundamental_div_mod;
use vstd::arithmetic::div_mod::lemma_fundamental_div_mod_converse;
use vstd::arithmetic::div_mod::lemma_mod_bound;
use crate::number::all_digits;
use crate::number::digits_value;
use crate::number::Decimal;

verus! {

/// Ten to the power `n`.
pub open spec fn pow10(n: nat) -> nat
    decreases n,
{
    if n == 0 {
        1
    } else {
        10 * pow10((n - 1) as nat)
    }
}

pub proof fn lemma_pow10_positive(n: nat)
    ensures
        pow10(n) >= 1,
    decreases n,
{
    if n > 0 {
        lemma_pow10_positive((n - 1) as nat);
    }
}

pub proof fn lemma_pow10_adds(a: nat, b: nat)
    ensures
        pow10(a + b) == pow10(a) * pow10(b),
    decreases a,
{
    if a > 0 {
        lemma_pow10_adds((a - 1) as nat, b);
        assert(pow10(a + b) == 10 * pow10((a - 1 + b) as nat));
        assert(10 * (pow10((a - 1) as nat) * pow10(b)) == (10 * pow10((a - 1) as nat)) * pow10(b))
            by (nonlinear_arith);
    } else {
        assert(pow10(a + b) == pow10(b));
        assert(1 * pow10(b) == pow10(b));
    }
}

pub proof fn lemma_pow10_grows(a: nat, b: nat)
    requires
        a <= b,
    ensures
        pow10(a) <= pow10(b),
    decreases b - a,
{
    if a < b {
        lemma_pow10_grows(a, (b - 1) as nat);
        lemma_pow10_positive((b - 1) as nat);
    }
}

pub proof fn lemma_pow10_thirty()
    ensures
        pow10(30) == 1_000_000_000_000_000_000_000_000_000_000,
{
    reveal_with_fuel(pow10, 31);
}

/// Digits write a number below ten to the power of their count.
pub proof fn lemma_digits_below(ds: Seq<u8>)
    requires
        all_digits(ds),
    ensures
        digits_value(ds) < pow10(ds.len()),
    decreases ds.len(),
{
    if ds.len() > 0 {
        lemma_digits_below(ds.drop_last());
    }
}

/// Digits written behind others shift them left by their count.
pub proof fn lemma_digits_concat(a: Seq<u8>, b: Seq<u8>)
    ensures
        digits_value(a + b) == digits_value(a) * pow10(b.len()) + digits_value(b),
    decreases b.len(),
{
    if b.len() == 0 {
        assert(a + b == a);
        assert(digits_value(a) * 1 == digits_value(a));
    } else {
        lemma_digits_concat(a, b.drop_last());
        assert((a + b).drop_last() == a + b.drop_last());
        let x = digits_value(a) as int;
        let p = pow10((b.len() - 1) as nat) as int;
        let y = digits_value(b.drop_last()) as int;
        assert((x * p + y) * 10 == x * (10 * p) + y * 10) by (nonlinear_arith);
    }
}

/// Largest whole part that `scale` reports; beyond it a product is too large
/// for any use made of it.
pub const SCALE_LIMIT: u128 = 0x1_0000_0000_0000_0000_0000_0000;

/// The number written by the first `to` digits of `ds`, or `SCALE_LIMIT`
/// where it is greater.
fn leading_value(ds: &Vec<u8>, to: usize) -> (v: u128)
    requires
        to <= ds.len(),
        all_digits(ds@),
    ensures
        v == vstd::math::min(digits_value(ds@.take(to as int)) as int, SCALE_LIMIT as int),
{
    let mut v: u128 = 0;
    let mut i: usize = 0;
    while i < to
        invariant
            i <= to <= ds@.len(),
            all_digits(ds@),
            v == vstd::math::min(digits_value(ds@.take(i as int)) as int, SCALE_LIMIT as int),
        decreases to - i,
    {
        let d = ds[i];
        proof {
            let next = ds@.take(i + 1);
            assert(next.drop_last() == ds@.take(i as int));
            assert(next.last() == d);
        }
        v = v * 10 + d as u128;
        if v > SCALE_LIMIT {
            v = SCALE_LIMIT;
        }
        i += 1;
    }
    v
}

/// What is known of a product `x` once its lowest `n` decimal places have been
/// cut off: the places above them, the highest of those cut off, and whether
/// anything stands below that one.
struct Tail {
    carry: u64,
    tenths: u8,
    sticky: bool,
}

/// Whether `t` describes `x` cut behind its lowest `n` places.
spec fn tail_matches(t: Tail, x: nat, n: nat) -> bool {
    let rest = x % pow10(n);
    &&& t.carry == x / pow10(n)
    &&& t.tenths <= 9
    &&& n == 0 ==> t.tenths == 0 && !t.sticky
    &&& n >= 1 ==> t.tenths == rest / pow10((n - 1) as nat) && t.sticky == (rest % pow10(
        (n - 1) as nat,
    ) != 0)
}

/// One more place: `add` units of weight `10^n` join `x`.
proof fn lemma_tail_step(t: Tail, x: nat, n: nat, add: nat, u: Tail)
    requires
        tail_matches(t, x, n),
        u.carry == (add + t.carry) / 10,
        u.tenths == (add + t.carry) % 10,
        u.sticky == (t.sticky || t.tenths != 0),
    ensures
        tail_matches(u, add * pow10(n) + x, n + 1),
{
    let p = pow10(n) as int;
    lemma_pow10_positive(n);
    let rest = (x % pow10(n)) as int;
    let carry = t.carry as int;
    lemma_fundamental_div_mod(x as int, p);
    lemma_mod_bound(x as int, p);
    assert(x == p * carry + rest);
    let s = add + carry;
    let c = s / 10;
    let o = s % 10;
    let y = (add * pow10(n) + x) as int;
    let low = o * p + rest;
    assert(y == c * (10 * p) + low) by (nonlinear_arith)
        requires
            y == add * p + x,
            x == p * carry + rest,
            s == add + carry,
            s == 10 * c + o,
            low == o * p + rest,
    ;
    assert(0 <= low < 10 * p) by (nonlinear_arith)
        requires
            low == o * p + rest,
            0 <= o <= 9,
            0 <= rest < p,
    ;
    assert(pow10(n + 1) == 10 * p);
    lemma_fundamental_div_mod_converse(y, 10 * p, c, low);
    lemma_fundamental_div_mod_converse(low, p, o, rest);
    if n >= 1 {
        let q = pow10((n - 1) as nat) as int;
        lemma_pow10_positive((n - 1) as nat);
        lemma_fundamental_div_mod(rest, q);
        lemma_mod_bound(rest, q);
        let hi = rest / q;
        assert(rest == 0 <==> (hi == 0 && rest % q == 0)) by (nonlinear_arith)
            requires
                rest == q * hi + rest % q,
                0 <= rest % q < q,
                0 <= rest,
                hi == t.tenths,
        ;
    } else {
        assert(rest == 0);
    }
}

/// Prepending a digit adds it at the weight of the digits behind it.
proof fn lemma_digits_prepend(d: u8, ds: Seq<u8>)
    ensures
        digits_value(seq![d] + ds) == d * pow10(ds.len()) + digits_value(ds),
{
    lemma_digits_concat(seq![d], ds);
    reveal_with_fuel(digits_value, 2);
    assert(seq![d].drop_last() =~= Seq::<u8>::empty());
    assert(digits_value(seq![d]) == d);
}

/// `factor` times the fraction written by the digits `ds[from..]`: its whole
/// part, its first decimal place, and whether more follows.
fn scale_fraction(ds: &Vec<u8>, from: usize, factor: u32) -> (t: Tail)
    requires
        from <= ds.len(),
        all_digits(ds@),
    ensures
        tail_matches(
            t,
            factor as nat * digits_value(ds@.subrange(from as int, ds@.len() as int)),
            (ds@.len() - from) as nat,
        ),
        t.carry <= factor,
{
    let mut t = Tail { carry: 0, tenths: 0, sticky: false };
    let mut i: usize = ds.len();
    proof {
        assert(ds@.subrange(i as int, ds@.len() as int) =~= Seq::<u8>::empty());
        assert(factor as nat * 0 == 0);
    }
    while i > from
        invariant
            from <= i <= ds@.len(),
            all_digits(ds@),
            t.carry <= factor,
            tail_matches(
                t,
                factor as nat * digits_value(ds@.subrange(i as int, ds@.len() as int)),
                (ds@.len() - i) as nat,
            ),
        decreases i,
    {
        i -= 1;
        let d = ds[i];
        assert(factor as u64 * d as u64 <= 9 * factor) by (nonlinear_arith)
            requires
                d <= 9,
        ;
        let sum: u64 = factor as u64 * d as u64 + t.carry;
        let u = Tail { carry: sum / 10, tenths: (sum % 10) as u8, sticky: t.sticky || t.tenths != 0 };
        proof {
            let behind = ds@.subrange(i + 1, ds@.len() as int);
            let n = behind.len();
            assert(ds@.subrange(i as int, ds@.len() as int) =~= seq![d] + behind);
            lemma_digits_prepend(d, behind);
            let x = factor as nat * digits_value(behind);
            lemma_tail_step(t, x, n, factor as nat * d as nat, u);
            assert(factor as nat * (d * pow10(n) + digits_value(behind)) == (factor as nat * d as nat)
                * pow10(n) + x) by (nonlinear_arith)
                requires
                    x == factor as nat * digits_value(behind),
            ;
        }
        t = u;
    }
    t
}

/// Where the fractional part of a quantity lies against one half.
#[derive(Clone, Copy, Debug, PartialEq, Eq)]
pub enum Part {
    /// There is no fractional part.
    Zero,
    /// It is above zero and below one half.
    BelowHalf,
    /// It is one half.
    Half,
    /// It is above one half.
    AboveHalf,
}

/// A non-negative quantity: its whole part and the place of the rest.
#[derive(Clone, Copy, Debug)]
pub struct Scaled {
    pub whole: u128,
    pub part: Part,
}

/// The denominator over which a literal with exponent `e` is written: a power
/// of ten for a negative exponent, else one.
pub open spec fn denominator(e: int) -> nat {
    if e < 0 {
        pow10((-e) as nat)
    } else {
        1
    }
}

/// `factor * m * 10^e` as a numerator over `denominator(e)`.
pub open spec fn numerator(m: nat, e: int, factor: nat) -> nat {
    if e < 0 {
        factor * m
    } else {
        factor * m * pow10(e as nat)
    }
}

/// The place of `rest / den` against one half, for `rest < den`.
pub open spec fn part_of(rest: nat, den: nat) -> Part {
    if rest == 0 {
        Part::Zero
    } else if 2 * rest < den {
        Part::BelowHalf
    } else if 2 * rest == den {
        Part::Half
    } else {
        Part::AboveHalf
    }
}

/// Whether `r` reports the quantity `num / den`: its whole part and the place
/// of the rest where the whole part is below `SCALE_LIMIT`, and nothing where
/// it is not.
pub open spec fn scaled_matches(r: Option<Scaled>, num: nat, den: nat) -> bool {
    match r {
        Some(q) => q.whole == num / den && q.whole < SCALE_LIMIT && q.part == part_of(
            num % den,
            den,
        ),
        None => num / den >= SCALE_LIMIT,
    }
}

/// The place against one half that a tail tells.
spec fn tail_part(t: Tail) -> Part {
    if t.tenths == 0 && !t.sticky {
        Part::Zero
    } else if t.tenths < 5 {
        Part::BelowHalf
    } else if t.tenths == 5 && !t.sticky {
        Part::Half
    } else {
        Part::AboveHalf
    }
}

/// The first place cut off, and whether more follows, decide the rounding.
proof fn lemma_tail_part(t: Tail, x: nat, n: nat)
    requires
        tail_matches(t, x, n),
        n >= 1,
    ensures
        part_of(x % pow10(n), pow10(n)) == tail_part(t),
{
    let p = pow10(n) as int;
    let q = pow10((n - 1) as nat) as int;
    lemma_pow10_positive((n - 1) as nat);
    let rest = (x % pow10(n)) as int;
    lemma_mod_bound(x as int, p);
    lemma_fundamental_div_mod(rest, q);
    lemma_mod_bound(rest, q);
    let hi = rest / q;
    let lo = rest % q;
    assert(p == 10 * q);
    assert(hi == t.tenths);
    assert(t.sticky == (lo != 0));
    assert(rest == q * hi + lo);
    assert(hi == 0 && lo == 0 ==> rest == 0) by (nonlinear_arith)
        requires
            rest == q * hi + lo,
    ;
    assert(hi >= 1 ==> rest >= 1) by (nonlinear_arith)
        requires
            rest == q * hi + lo,
            q >= 1,
            lo >= 0,
    ;
    assert(hi <= 4 ==> 2 * rest < p) by (nonlinear_arith)
        requires
            rest == q * hi + lo,
            p == 10 * q,
            0 <= lo < q,
            0 <= hi,
    ;
    assert(hi == 5 ==> 2 * rest == p + 2 * lo) by (nonlinear_arith)
        requires
            rest == q * hi + lo,
            p == 10 * q,
    ;
    assert(hi >= 6 ==> 2 * rest > p) by (nonlinear_arith)
        requires
            rest == q * hi + lo,
            p == 10 * q,
            0 <= lo,
            q >= 1,
    ;
}

fn part_from(t: &Tail) -> (part: Part)
    ensures
        part == tail_part(*t),
{
    if t.tenths == 0 && !t.sticky {
        Part::Zero
    } else if t.tenths < 5 {
        Part::BelowHalf
    } else if t.tenths == 5 && !t.sticky {
        Part::Half
    } else {
        Part::AboveHalf
    }
}

/// `factor` times the number that `ds` writes with `e` zeros behind it. The
/// count of zeros is known as `zeros` if it is below thirty, and else only to
/// be thirty or more.
fn scale_whole(ds: &Vec<u8>, zeros: i128, factor: u32, Ghost(e): Ghost<nat>) -> (r: Option<Scaled>)
    requires
        all_digits(ds@),
        factor >= 1,
        zeros >= 0,
        zeros == e || (zeros >= 30 && e >= 30),
    ensures
        scaled_matches(r, factor as nat * digits_value(ds@) * pow10(e), 1),
{
    let ghost m = digits_value(ds@);
    let ghost num = factor as nat * m * pow10(e);
    let lead = leading_value(ds, ds.len());
    proof {
        assert(ds@.take(ds@.len() as int) == ds@);
        lemma_pow10_positive(e);
        assert(num == (factor as nat * pow10(e)) * m) by (nonlinear_arith)
            requires
                num == factor as nat * m * pow10(e),
        ;
    }
    if lead == 0 {
        assert(num == 0) by (nonlinear_arith)
            requires
                num == (factor as nat * pow10(e)) * m,
                m == 0,
        ;
        return Some(Scaled { whole: 0, part: Part::Zero });
    }
    if zeros >= 30 {
        proof {
            lemma_pow10_thirty();
            lemma_pow10_grows(30, e);
            assert(num >= pow10(e)) by (nonlinear_arith)
                requires
                    num == (factor as nat * pow10(e)) * m,
                    m >= 1,
                    factor >= 1,
            ;
        }
        return None;
    }
    let mut a: u128 = lead;
    let mut k: i128 = 0;
    assert(m * pow10(0) == m) by (nonlinear_arith)
        requires
            pow10(0) == 1,
    ;
    while k < zeros
        invariant
            0 <= k <= zeros < 30,
            a == vstd::math::min((m * pow10(k as nat)) as int, SCALE_LIMIT as int),
        decreases zeros - k,
    {
        proof {
            assert(m * pow10((k + 1) as nat) == (m * pow10(k as nat)) * 10) by (nonlinear_arith)
                requires
                    pow10((k + 1) as nat) == 10 * pow10(k as nat),
            ;
        }
        a = a * 10;
        if a > SCALE_LIMIT {
            a = SCALE_LIMIT;
        }
        k += 1;
    }
    let ghost shifted = m * pow10(e);
    proof {
        assert(num == factor as nat * shifted) by (nonlinear_arith)
            requires
                num == factor as nat * m * pow10(e),
                shifted == m * pow10(e),
        ;
        assert(num >= shifted) by (nonlinear_arith)
            requires
                num == factor as nat * shifted,
                factor >= 1,
        ;
    }
    if a >= SCALE_LIMIT {
        return None;
    }
    assert(factor as u128 * a <= 0xffff_ffff * 0xffff_ffff_ffff_ffff_ffff_ffff) by (nonlinear_arith)
        requires
            factor <= 0xffff_ffff,
            a <= 0xffff_ffff_ffff_ffff_ffff_ffff,
    ;
    let whole: u128 = factor as u128 * a;
    if whole >= SCALE_LIMIT {
        None
    } else {
        Some(Scaled { whole, part: Part::Zero })
    }
}

/// `factor` times the number that `ds` writes with the point behind its first
/// `point` digits.
fn scale_mixed(ds: &Vec<u8>, point: usize, factor: u32) -> (r: Option<Scaled>)
    requires
        all_digits(ds@),
        factor >= 1,
        0 < point < ds.len(),
    ensures
        scaled_matches(
            r,
            factor as nat * digits_value(ds@),
            pow10((ds@.len() - point) as nat),
        ),
{
    let lead = leading_value(ds, point);
    let t = scale_fraction(ds, point, factor);
    let ghost head = ds@.take(point as int);
    let ghost behind = ds@.subrange(point as int, ds@.len() as int);
    let ghost n = behind.len();
    let ghost p = pow10(n) as int;
    let ghost a = digits_value(head) as int;
    let ghost f = digits_value(behind) as int;
    let ghost num = (factor as nat * digits_value(ds@)) as int;
    let ghost rest = ((factor as nat * digits_value(behind)) % pow10(n)) as int;
    let ghost carry = t.carry as int;
    proof {
        assert(ds@ =~= head + behind);
        lemma_digits_concat(head, behind);
        lemma_pow10_positive(n);
        lemma_fundamental_div_mod(factor * f, p);
        lemma_mod_bound(factor * f, p);
        assert(num == (factor * a + carry) * p + rest) by (nonlinear_arith)
            requires
                num == factor * (a * p + f),
                factor * f == p * carry + rest,
        ;
        lemma_fundamental_div_mod_converse(num, p, factor * a + carry, rest);
        lemma_tail_part(t, factor as nat * digits_value(behind), n);
        assert(factor * a >= a) by (nonlinear_arith)
            requires
                factor >= 1,
                a >= 0,
        ;
    }
    if lead >= SCALE_LIMIT {
        return None;
    }
    assert(factor as u128 * lead <= 0xffff_ffff * 0xffff_ffff_ffff_ffff_ffff_ffff)
        by (nonlinear_arith)
        requires
            factor <= 0xffff_ffff,
            lead <= 0xffff_ffff_ffff_ffff_ffff_ffff,
    ;
    let whole: u128 = factor as u128 * lead + t.carry as u128;
    if whole >= SCALE_LIMIT {
        None
    } else {
        Some(Scaled { whole, part: part_from(&t) })
    }
}

/// `factor` times the fraction that `ds` writes behind the point and `z`
/// zeros. The count of zeros is known as `zeros` if it is below thirty, and
/// else only to be thirty or more.
fn scale_small(ds: &Vec<u8>, zeros: i128, factor: u32, Ghost(z): Ghost<nat>) -> (r: Option<
    Scaled,
>)
    requires
        all_digits(ds@),
        ds@.len() >= 1,
        factor >= 1,
        zeros >= 0,
        zeros == z || (zeros >= 30 && z >= 30),
    ensures
        scaled_matches(r, factor as nat * digits_value(ds@), pow10(ds@.len() + z)),
{
    let ghost m = digits_value(ds@) as int;
    let ghost num = factor as int * m;
    let ghost len = ds@.len();
    if zeros >= 30 {
        let lead = leading_value(ds, ds.len());
        proof {
            assert(ds@.take(ds@.len() as int) == ds@);
            let den = pow10(len + z) as int;
            let unit = pow10(len) as int;
            lemma_digits_below(ds@);
            lemma_pow10_adds(len, z);
            lemma_pow10_thirty();
            lemma_pow10_grows(30, z);
            lemma_pow10_positive(len);
            assert(2 * num < den) by (nonlinear_arith)
                requires
                    num == factor * m,
                    0 <= m < unit,
                    1 <= factor <= 0xffff_ffff,
                    den == unit * pow10(z),
                    pow10(z) >= 1_000_000_000_000_000_000_000_000_000_000,
            ;
            assert(num >= 0) by (nonlinear_arith)
                requires
                    num == factor * m,
                    m >= 0,
                    factor >= 1,
            ;
            assert(num == 0 * den + num);
            lemma_fundamental_div_mod_converse(num, den, 0, num);
            assert(m >= 1 ==> num >= 1) by (nonlinear_arith)
                requires
                    num == factor * m,
                    factor >= 1,
            ;
            assert(m == 0 ==> num == 0) by (nonlinear_arith)
                requires
                    num == factor * m,
            ;
            assert(num == factor as nat * digits_value(ds@));
            assert(num / den == 0 && num % den == num);
        }
        return Some(
            Scaled {
                whole: 0,
                part: if lead == 0 {
                    Part::Zero
                } else {
                    Part::BelowHalf
                },
            },
        );
    }
    let mut t = scale_fraction(ds, 0, factor);
    assert(ds@.subrange(0, ds@.len() as int) == ds@);
    let mut j: i128 = 0;
    while j < zeros
        invariant
            0 <= j <= zeros < 30,
            tail_matches(t, num as nat, len + j as nat),
            t.carry <= factor,
        decreases zeros - j,
    {
        let u = Tail { carry: t.carry / 10, tenths: (t.carry % 10) as u8, sticky: t.sticky || t.tenths != 0 };
        proof {
            lemma_tail_step(t, num as nat, len + j as nat, 0, u);
            assert(0 * pow10(len + j as nat) == 0);
            assert(len + j as nat + 1 == len + (j + 1) as nat);
        }
        t = u;
        j += 1;
    }
    proof {
        lemma_tail_part(t, num as nat, len + z);
    }
    Some(Scaled { whole: t.carry as u128, part: part_from(&t) })
}

/// `factor` times the magnitude of `d`, exactly: its whole part and the place
/// of the rest against one half. Nothing where the whole part reaches
/// `SCALE_LIMIT`.
pub fn scale(d: &Decimal, factor: u32) -> (r: Option<Scaled>)
    ensures
        scaled_matches(
            r,
            numerator(d.mantissa(), d.exponent(), factor as nat),
            denominator(d.exponent()),
        ),
{
    let ds = d.digits();
    let point = d.point();
    let ghost e = d.exponent();
    let ghost m = d.mantissa();
    if factor == 0 {
        proof {
            let num = numerator(m, e, 0) as int;
            let den = denominator(e) as int;
            if e < 0 {
                lemma_pow10_positive((-e) as nat);
            }
            assert(num == 0) by (nonlinear_arith)
                requires
                    num == 0 * m || num == 0 * m * pow10(e as nat),
            ;
            lemma_fundamental_div_mod_converse(0, den, 0, 0);
        }
        return Some(Scaled { whole: 0, part: Part::Zero });
    }
    let len = ds.len();
    if point >= len as i128 {
        scale_whole(ds, point - len as i128, factor, Ghost(e as nat))
    } else if point > 0 {
        scale_mixed(ds, point as usize, factor)
    } else {
        scale_small(ds, -point, factor, Ghost((-e - len) as nat))
    }
}

} // verus!
