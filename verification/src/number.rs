//! Decimal literals: the numbers a script is written in.
//!
//! A field of a record is a number in the notation of Rust's floating-point
//! literals: an optional sign, then either one of the words `inf`, `infinity`
//! and `nan` in any mix of cases, or digits with an optional point and an
//! optional exponent. A literal is kept as written, so that its value
//! `mantissa * 10^exponent` is exact however many digits it has.

use vstd::prelude::*;

verus! {

/// What a literal denotes.
pub enum Value {
    /// The rational `mantissa * 10^exponent`, negated where `negative`.
    Finite { negative: bool, mantissa: nat, exponent: int },
    /// An unbounded quantity of the given sign.
    Infinite { negative: bool },
    /// No quantity at all.
    NaN,
}

/// Whether `c` is one of the ten decimal digits.
pub open spec fn is_digit(c: char) -> bool {
    '0' <= c <= '9'
}

/// The digit that `c` stands for.
pub open spec fn digit_of(c: char) -> u8 {
    (c as int - '0' as int) as u8
}

/// Index behind the longest run of digits that starts at `from`.
pub open spec fn digit_end(s: Seq<char>, from: int) -> int
    decreases s.len() - from,
{
    if 0 <= from < s.len() && is_digit(s[from]) {
        digit_end(s, from + 1)
    } else {
        from
    }
}

/// The digits that the characters `s[from..to]` stand for.
pub open spec fn digits_in(s: Seq<char>, from: int, to: int) -> Seq<u8> {
    Seq::new((to - from) as nat, |i: int| digit_of(s[from + i]))
}

/// The natural number written by the decimal digits `ds`, most significant
/// first.
pub open spec fn digits_value(ds: Seq<u8>) -> nat
    decreases ds.len(),
{
    if ds.len() == 0 {
        0
    } else {
        digits_value(ds.drop_last()) * 10 + ds.last() as nat
    }
}

/// Whether every element of `ds` is a decimal digit.
pub open spec fn all_digits(ds: Seq<u8>) -> bool {
    forall|i: int| 0 <= i < ds.len() ==> #[trigger] ds[i] <= 9
}

/// 1 where a sign stands at `at`, else 0.
pub open spec fn sign_len(s: Seq<char>, at: int) -> int {
    if 0 <= at < s.len() && (s[at] == '+' || s[at] == '-') {
        1
    } else {
        0
    }
}

/// Whether a minus sign stands at `at`.
pub open spec fn minus_at(s: Seq<char>, at: int) -> bool {
    0 <= at < s.len() && s[at] == '-'
}

/// Whether `c` is the letter given in its two cases.
pub open spec fn is_letter(c: char, lower: char, upper: char) -> bool {
    c == lower || c == upper
}

/// What `s` denotes as digits with an optional point and exponent, if it is
/// written so.
pub open spec fn decimal_value(s: Seq<char>) -> Option<Value> {
    let int_start = sign_len(s, 0);
    let int_end = digit_end(s, int_start);
    let frac_start = if int_end < s.len() && s[int_end] == '.' {
        int_end + 1
    } else {
        int_end
    };
    let frac_end = digit_end(s, frac_start);
    let digits = digits_in(s, int_start, int_end) + digits_in(s, frac_start, frac_end);
    let exp_start = frac_end + 1 + sign_len(s, frac_end + 1);
    let exp_end = digit_end(s, exp_start);
    let magnitude = digits_value(digits_in(s, exp_start, exp_end)) as int;
    if digits.len() == 0 {
        None
    } else if frac_end == s.len() {
        Some(
            Value::Finite {
                negative: minus_at(s, 0),
                mantissa: digits_value(digits),
                exponent: frac_start - frac_end,
            },
        )
    } else if is_letter(s[frac_end], 'e', 'E') && exp_start < exp_end && exp_end == s.len() {
        Some(
            Value::Finite {
                negative: minus_at(s, 0),
                mantissa: digits_value(digits),
                exponent: (if minus_at(s, frac_end + 1) {
                    -magnitude
                } else {
                    magnitude
                }) + frac_start - frac_end,
            },
        )
    } else {
        None
    }
}

/// What `s` denotes as one of the words `inf`, `infinity` and `nan`, if it is
/// one of them.
pub open spec fn word_value(s: Seq<char>) -> Option<Value> {
    let b = sign_len(s, 0);
    if s.len() - b == 3 && is_letter(s[b], 'i', 'I') && is_letter(s[b + 1], 'n', 'N')
        && is_letter(s[b + 2], 'f', 'F') {
        Some(Value::Infinite { negative: minus_at(s, 0) })
    } else if s.len() - b == 3 && is_letter(s[b], 'n', 'N') && is_letter(s[b + 1], 'a', 'A')
        && is_letter(s[b + 2], 'n', 'N') {
        Some(Value::NaN)
    } else if s.len() - b == 8 && is_letter(s[b], 'i', 'I') && is_letter(s[b + 1], 'n', 'N')
        && is_letter(s[b + 2], 'f', 'F') && is_letter(s[b + 3], 'i', 'I') && is_letter(
        s[b + 4],
        'n',
        'N',
    ) && is_letter(s[b + 5], 'i', 'I') && is_letter(s[b + 6], 't', 'T') && is_letter(
        s[b + 7],
        'y',
        'Y',
    ) {
        Some(Value::Infinite { negative: minus_at(s, 0) })
    } else {
        None
    }
}

/// What `s` denotes, if it is a number at all.
pub open spec fn number_value(s: Seq<char>) -> Option<Value> {
    match decimal_value(s) {
        Some(v) => Some(v),
        None => word_value(s),
    }
}

/// Largest magnitude that `Decimal::point` tells apart.
pub const POINT_LIMIT: i128 = 0x1_0000_0000_0000_0000_0000;

/// `x`, or the nearer of `-limit` and `limit` where it lies beyond them.
pub open spec fn clamped(x: int, limit: int) -> int {
    if x < -limit {
        -limit
    } else if x > limit {
        limit
    } else {
        x
    }
}

/// A decimal literal, kept as it was written.
#[derive(Debug, PartialEq, Eq)]
pub struct Decimal {
    negative: bool,
    digits: Vec<u8>,
    frac_len: usize,
    exp_negative: bool,
    exp_digits: Vec<u8>,
}

/// A number of a script.
#[derive(Debug, PartialEq, Eq)]
pub enum Number {
    Finite(Decimal),
    Infinite { negative: bool },
    NaN,
}

impl Decimal {
    /// At least one digit, digits only, and no more fraction digits than
    /// digits.
    #[verifier::type_invariant]
    spec fn inv(self) -> bool {
        &&& self.digits@.len() >= 1
        &&& all_digits(self.digits@)
        &&& all_digits(self.exp_digits@)
        &&& self.frac_len <= self.digits@.len()
    }

    /// Whether the literal has a minus sign.
    pub closed spec fn negative(&self) -> bool {
        self.negative
    }

    /// The literal's digits, most significant first, the point left out.
    pub closed spec fn digit_seq(&self) -> Seq<u8> {
        self.digits@
    }

    /// The number that the literal's digits write.
    pub open spec fn mantissa(&self) -> nat {
        digits_value(self.digit_seq())
    }

    /// The power of ten by which the mantissa is to be multiplied.
    pub closed spec fn exponent(&self) -> int {
        (if self.exp_negative {
            -(digits_value(self.exp_digits@) as int)
        } else {
            digits_value(self.exp_digits@) as int
        }) - self.frac_len
    }

    /// Whether the literal has a minus sign.
    pub fn is_negative(&self) -> (b: bool)
        ensures
            b == self.negative(),
    {
        self.negative
    }

    /// Whether the literal denotes zero, of either sign.
    pub fn is_zero(&self) -> (b: bool)
        ensures
            b == (self.mantissa() == 0),
    {
        let mut some: bool = false;
        let mut i: usize = 0;
        while i < self.digits.len()
            invariant
                i <= self.digits@.len(),
                some == (digits_value(self.digits@.take(i as int)) != 0),
            decreases self.digits@.len() - i,
        {
            proof {
                let next = self.digits@.take(i + 1);
                assert(next.drop_last() == self.digits@.take(i as int));
                assert(next.last() == self.digits@[i as int]);
            }
            some = some || self.digits[i] != 0;
            i += 1;
        }
        proof {
            assert(self.digits@.take(i as int) == self.digits@);
        }
        !some
    }

    /// The literal's digits, most significant first.
    pub fn digits(&self) -> (ds: &Vec<u8>)
        ensures
            ds@ == self.digit_seq(),
            ds@.len() >= 1,
            all_digits(ds@),
    {
        proof {
            use_type_invariant(self);
        }
        &self.digits
    }

    /// The number of digits that stand before the point once the exponent is
    /// applied, kept within `POINT_LIMIT` of zero.
    pub fn point(&self) -> (p: i128)
        ensures
            p == clamped(self.digit_seq().len() + self.exponent(), POINT_LIMIT as int),
    {
        proof {
            use_type_invariant(self);
        }
        let mut magnitude: i128 = 0;
        let cap: i128 = 0x100_0000_0000_0000_0000_0000;
        let mut i: usize = 0;
        while i < self.exp_digits.len()
            invariant
                i <= self.exp_digits@.len(),
                all_digits(self.exp_digits@),
                cap == 0x100_0000_0000_0000_0000_0000,
                0 <= magnitude <= cap,
                magnitude == vstd::math::min(
                    digits_value(self.exp_digits@.take(i as int)) as int,
                    cap as int,
                ),
            decreases self.exp_digits@.len() - i,
        {
            let d = self.exp_digits[i];
            proof {
                let next = self.exp_digits@.take(i + 1);
                assert(next.drop_last() == self.exp_digits@.take(i as int));
                assert(next.last() == d);
            }
            magnitude = magnitude * 10 + d as i128;
            if magnitude > cap {
                magnitude = cap;
            }
            i += 1;
        }
        proof {
            assert(self.exp_digits@.take(i as int) == self.exp_digits@);
        }
        let signed: i128 = if self.exp_negative {
            -magnitude
        } else {
            magnitude
        };
        let p: i128 = signed + (self.digits.len() - self.frac_len) as i128;
        if p > POINT_LIMIT {
            POINT_LIMIT
        } else if p < -POINT_LIMIT {
            -POINT_LIMIT
        } else {
            p
        }
    }
}

impl View for Number {
    type V = Value;

    open spec fn view(&self) -> Value {
        match self {
            Number::Finite(d) => Value::Finite {
                negative: d.negative(),
                mantissa: d.mantissa(),
                exponent: d.exponent(),
            },
            Number::Infinite { negative } => Value::Infinite { negative: *negative },
            Number::NaN => Value::NaN,
        }
    }
}

/// A run of digits ends where the first character that is no digit stands.
proof fn lemma_digit_end(s: Seq<char>, from: int, to: int)
    requires
        0 <= from <= to <= s.len(),
        forall|i: int| from <= i < to ==> is_digit(#[trigger] s[i]),
        to < s.len() ==> !is_digit(s[to]),
    ensures
        digit_end(s, from) == to,
    decreases to - from,
{
    if from < to {
        lemma_digit_end(s, from + 1, to);
    }
}

fn digit_value(c: char) -> (d: u8)
    requires
        is_digit(c),
    ensures
        d == digit_of(c),
        d <= 9,
{
    (c as u32 - '0' as u32) as u8
}

fn is_decimal_digit(c: char) -> (b: bool)
    ensures
        b == is_digit(c),
{
    '0' <= c && c <= '9'
}

fn has_sign(s: &Vec<char>, at: usize) -> (b: bool)
    ensures
        b == (sign_len(s@, at as int) == 1),
{
    at < s.len() && (s[at] == '+' || s[at] == '-')
}

fn has_minus(s: &Vec<char>, at: usize) -> (b: bool)
    ensures
        b == minus_at(s@, at as int),
{
    at < s.len() && s[at] == '-'
}

fn letter_at(s: &Vec<char>, at: usize, lower: char, upper: char) -> (b: bool)
    requires
        at < s.len(),
    ensures
        b == is_letter(s@[at as int], lower, upper),
{
    s[at] == lower || s[at] == upper
}

/// Reads the run of digits of `s` that starts at `from` onto the end of
/// `digits`, and returns the index behind it.
fn scan_digits(s: &Vec<char>, from: usize, digits: &mut Vec<u8>) -> (to: usize)
    requires
        from <= s.len(),
        all_digits(old(digits)@),
    ensures
        from <= to <= s.len(),
        to == digit_end(s@, from as int),
        final(digits)@ == old(digits)@ + digits_in(s@, from as int, to as int),
        all_digits(final(digits)@),
{
    let mut i: usize = from;
    while i < s.len() && is_decimal_digit(s[i])
        invariant
            from <= i <= s.len(),
            forall|k: int| from <= k < i ==> is_digit(#[trigger] s@[k]),
            digits@ == old(digits)@ + digits_in(s@, from as int, i as int),
            all_digits(digits@),
        decreases s.len() - i,
    {
        let d = digit_value(s[i]);
        proof {
            assert(digits@.push(d) =~= old(digits)@ + digits_in(s@, from as int, i + 1));
        }
        digits.push(d);
        i += 1;
    }
    proof {
        lemma_digit_end(s@, from as int, i as int);
    }
    i
}

/// Reads `s` as one of the words `inf`, `infinity` and `nan` behind an
/// optional sign.
fn parse_word(s: &Vec<char>) -> (r: Option<Number>)
    ensures
        match r {
            Some(n) => word_value(s@) == Some(n@),
            None => word_value(s@) is None,
        },
{
    let b: usize = if has_sign(s, 0) {
        1
    } else {
        0
    };
    let negative = has_minus(s, 0);
    let n = s.len() - b;
    if n == 3 && letter_at(s, b, 'i', 'I') && letter_at(s, b + 1, 'n', 'N') && letter_at(
        s,
        b + 2,
        'f',
        'F',
    ) {
        Some(Number::Infinite { negative })
    } else if n == 3 && letter_at(s, b, 'n', 'N') && letter_at(s, b + 1, 'a', 'A') && letter_at(
        s,
        b + 2,
        'n',
        'N',
    ) {
        Some(Number::NaN)
    } else if n == 8 && letter_at(s, b, 'i', 'I') && letter_at(s, b + 1, 'n', 'N') && letter_at(
        s,
        b + 2,
        'f',
        'F',
    ) && letter_at(s, b + 3, 'i', 'I') && letter_at(s, b + 4, 'n', 'N') && letter_at(
        s,
        b + 5,
        'i',
        'I',
    ) && letter_at(s, b + 6, 't', 'T') && letter_at(s, b + 7, 'y', 'Y') {
        Some(Number::Infinite { negative })
    } else {
        None
    }
}

/// Reads `s` as a number, as `str::parse::<f64>` accepts or refuses it.
pub fn parse_number(s: &Vec<char>) -> (r: Option<Number>)
    ensures
        match r {
            Some(n) => number_value(s@) == Some(n@),
            None => number_value(s@) is None,
        },
{
    let len = s.len();
    let int_start: usize = if has_sign(s, 0) {
        1
    } else {
        0
    };
    let negative = has_minus(s, 0);
    let mut digits: Vec<u8> = Vec::new();
    let int_end = scan_digits(s, int_start, &mut digits);
    let frac_start: usize = if int_end < len && s[int_end] == '.' {
        int_end + 1
    } else {
        int_end
    };
    let frac_end = scan_digits(s, frac_start, &mut digits);
    if digits.len() == 0 {
        return parse_word(s);
    }
    assert(s@[int_start as int] == '.' || is_digit(s@[int_start as int]));
    assert(word_value(s@) is None);
    let frac_len = frac_end - frac_start;
    if frac_end == len {
        let d = Decimal { negative, digits, frac_len, exp_negative: false, exp_digits: Vec::new() };
        assert(digits_value(d.exp_digits@) == 0);
        return Some(Number::Finite(d));
    }
    if !letter_at(s, frac_end, 'e', 'E') {
        return None;
    }
    let exp_negative = has_minus(s, frac_end + 1);
    let exp_start: usize = if has_sign(s, frac_end + 1) {
        frac_end + 2
    } else {
        frac_end + 1
    };
    let mut exp_digits: Vec<u8> = Vec::new();
    let exp_end = scan_digits(s, exp_start, &mut exp_digits);
    if exp_start < exp_end && exp_end == len {
        assert(exp_digits@ == digits_in(s@, exp_start as int, exp_end as int));
        Some(Number::Finite(Decimal { negative, digits, frac_len, exp_negative, exp_digits }))
    } else {
        None
    }
}

} // verus!
