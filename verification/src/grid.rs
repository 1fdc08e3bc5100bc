//! The play field: a square of three by three cells centred on the screen,
//! and the absolute pointer range that the screen is mapped onto.

use vstd::prelude::*;
use crate::number::Number;
use crate::number::Value;
use crate::rounding::lemma_rounded_sum_near;
use crate::rounding::round_half_away;
use crate::rounding::round_sum;
use crate::rounding::rounded_sum;

verus! {

/// Side length of the play field, in pixels.
pub const GRID_SIZE: i32 = 625;

/// Side length of one cell, in pixels.
pub const CELL_SIZE: i32 = 208;

/// Highest coordinate of the absolute pointer range.
pub const POINTER_RANGE: i32 = 65535;

/// The pixel dimensions of the primary display.
#[derive(Clone, Copy, Debug, PartialEq, Eq)]
pub struct Screen {
    pub width: i32,
    pub height: i32,
}

/// Half of `n`, rounded toward zero.
pub open spec fn half(n: int) -> int {
    if n >= 0 {
        n / 2
    } else {
        -((-n) / 2)
    }
}

/// The pixel at which the play field starts along an axis of the given
/// extent, so that the field is centred.
pub open spec fn grid_origin(extent: int) -> int {
    half(extent) - half(GRID_SIZE as int)
}

/// `x`, or the nearest `i32` where it is none.
pub open spec fn clamp_i32(x: int) -> int {
    if x < i32::MIN {
        i32::MIN as int
    } else if x > i32::MAX {
        i32::MAX as int
    } else {
        x
    }
}

/// The pixel of the centre of the cell `cell` along an axis on which the
/// field starts at `origin`: `origin + cell * CELL_SIZE + CELL_SIZE / 2`,
/// rounded. A cell that is no quantity lies at pixel 0, an unbounded one at
/// the end of the `i32` range.
pub open spec fn pixel_of(origin: int, cell: Value) -> int {
    match cell {
        Value::NaN => 0,
        Value::Infinite { negative } => if negative {
            i32::MIN as int
        } else {
            i32::MAX as int
        },
        Value::Finite { negative, mantissa, exponent } => clamp_i32(
            rounded_sum(
                origin + CELL_SIZE / 2,
                negative,
                mantissa,
                exponent,
                CELL_SIZE as nat,
            ),
        ),
    }
}

/// The place of `pixel` in the absolute pointer range of an axis of the
/// given extent: `pixel / extent * POINTER_RANGE`, rounded. On an axis
/// without extent a pixel lies at the end of the `i32` range on its side of
/// zero.
pub open spec fn normalized(pixel: int, extent: int) -> int {
    if extent > 0 {
        clamp_i32(round_half_away(pixel * POINTER_RANGE, extent))
    } else if extent < 0 {
        clamp_i32(round_half_away(-pixel * POINTER_RANGE, -extent))
    } else if pixel > 0 {
        i32::MAX as int
    } else if pixel < 0 {
        i32::MIN as int
    } else {
        0
    }
}

/// The side length of a cell: a third of the field's, rounded down.
pub fn cell_size() -> (side: i32)
    ensures
        side == CELL_SIZE,
        side == GRID_SIZE as int / 3,
{
    GRID_SIZE / 3
}

/// The pixel at which the play field starts along an axis of the given
/// extent.
pub fn grid_start(extent: i32) -> (origin: i32)
    ensures
        origin == grid_origin(extent as int),
{
    extent / 2 - GRID_SIZE / 2
}

fn clamp_to_i32(x: i128) -> (r: i32)
    ensures
        r == clamp_i32(x as int),
{
    if x < i32::MIN as i128 {
        i32::MIN
    } else if x > i32::MAX as i128 {
        i32::MAX
    } else {
        x as i32
    }
}

/// The pixel of the centre of the cell `cell` along an axis on which the
/// field starts at `origin`.
pub fn cell_to_pixel(origin: i32, cell: &Number) -> (pixel: i32)
    ensures
        pixel == pixel_of(origin as int, cell@),
{
    match cell {
        Number::NaN => 0,
        Number::Infinite { negative } => if *negative {
            i32::MIN
        } else {
            i32::MAX
        },
        Number::Finite(d) => {
            let base: i64 = origin as i64 + (CELL_SIZE / 2) as i64;
            match round_sum(base, d, CELL_SIZE as u32) {
                Some(v) => clamp_to_i32(v),
                None => {
                    proof {
                        lemma_rounded_sum_near(
                            base as int,
                            d.negative(),
                            d.mantissa(),
                            d.exponent(),
                            CELL_SIZE as nat,
                        );
                    }
                    if d.is_negative() {
                        i32::MIN
                    } else {
                        i32::MAX
                    }
                },
            }
        },
    }
}

/// The place of `pixel` in the absolute pointer range of an axis of the
/// given extent.
pub fn normalize(pixel: i32, extent: i32) -> (place: i32)
    ensures
        place == normalized(pixel as int, extent as int),
{
    if extent == 0 {
        return if pixel > 0 {
            i32::MAX
        } else if pixel < 0 {
            i32::MIN
        } else {
            0
        };
    }
    assert(-0x8000_0000 * 65535 <= pixel * 65535 <= 0x7fff_ffff * 65535);
    let scaled: i64 = pixel as i64 * POINTER_RANGE as i64;
    let num: i64 = if extent > 0 {
        scaled
    } else {
        -scaled
    };
    let den: i64 = if extent > 0 {
        extent as i64
    } else {
        -(extent as i64)
    };
    if num >= 0 {
        clamp_to_i32(((2 * num + den) / (2 * den)) as i128)
    } else {
        clamp_to_i32(-(((2 * (-num) + den) / (2 * den)) as i128))
    }
}


/// The cell in the middle of the field lies at the centre of the screen,
/// which is the centre of the field: for every literal that denotes one, and
/// every extent of the axis.
pub proof fn lemma_middle_cell_is_centre(extent: int, m: nat, e: int)
    requires
        i32::MIN <= extent <= i32::MAX,
        crate::scale::numerator(m, e, 1) == crate::scale::denominator(e),
    ensures
        pixel_of(grid_origin(extent), Value::Finite { negative: false, mantissa: m, exponent: e })
            == half(extent),
        half(extent) == grid_origin(extent) + half(GRID_SIZE as int),
{
    let den = crate::scale::denominator(e) as int;
    let one = crate::scale::numerator(m, e, 1) as int;
    let num = crate::scale::numerator(m, e, CELL_SIZE as nat) as int;
    let base = grid_origin(extent) + CELL_SIZE / 2;
    if e < 0 {
        crate::scale::lemma_pow10_positive((-e) as nat);
        assert(num == 208 * den) by (nonlinear_arith)
            requires
                num == 208 * m,
                one == 1 * m,
                one == den,
        ;
    } else {
        assert(num == 208 * den) by (nonlinear_arith)
            requires
                num == 208 * m * crate::scale::pow10(e as nat),
                one == 1 * m * crate::scale::pow10(e as nat),
                one == den,
        ;
    }
    assert(base * den + num == (base + 208) * den + 0) by (nonlinear_arith)
        requires
            num == 208 * den,
    ;
    crate::rounding::lemma_round_parts(base + 208, 0, den);
}

/// The centre of a cell with a whole number lies a whole number of cells
/// and half a cell behind the start of the field.
pub proof fn lemma_whole_cell(origin: int, negative: bool, k: nat)
    ensures
        pixel_of(origin, Value::Finite { negative, mantissa: k, exponent: 0 }) == clamp_i32(
            origin + CELL_SIZE / 2 + if negative {
                -(k * CELL_SIZE)
            } else {
                k * CELL_SIZE
            },
        ),
{
    let num = crate::scale::numerator(k, 0, CELL_SIZE as nat) as int;
    let base = origin + CELL_SIZE / 2;
    assert(crate::scale::pow10(0) == 1);
    assert(num == k * 208) by (nonlinear_arith)
        requires
            num == 208 * k * 1,
    ;
    let total = base * 1 + if negative {
        -num
    } else {
        num
    };
    assert(total == total * 1 + 0);
    crate::rounding::lemma_round_parts(total, 0, 1);
}

/// A pixel lies at the whole number nearest to its place on the field, as
/// long as that is an `i32`.
pub proof fn lemma_pixel_nearest(origin: int, negative: bool, m: nat, e: int)
    ensures
        ({
            let den = crate::scale::denominator(e) as int;
            let num = crate::scale::numerator(m, e, CELL_SIZE as nat) as int;
            let exact = (origin + CELL_SIZE / 2) * den + if negative {
                -num
            } else {
                num
            };
            let x = rounded_sum(origin + CELL_SIZE / 2, negative, m, e, CELL_SIZE as nat);
            &&& -den <= 2 * (x * den - exact) <= den
            &&& i32::MIN <= x <= i32::MAX ==> pixel_of(
                origin,
                Value::Finite { negative, mantissa: m, exponent: e },
            ) == x
        }),
{
    let den = crate::scale::denominator(e) as int;
    let num = crate::scale::numerator(m, e, CELL_SIZE as nat) as int;
    if e < 0 {
        crate::scale::lemma_pow10_positive((-e) as nat);
    }
    let exact = (origin + CELL_SIZE / 2) * den + if negative {
        -num
    } else {
        num
    };
    crate::rounding::lemma_round_nearest(exact, den);
}

/// The place of a pixel in the pointer range is the whole number nearest to
/// its share of the extent, as long as that is an `i32`.
pub proof fn lemma_normalized_nearest(pixel: int, extent: int)
    requires
        extent > 0,
    ensures
        ({
            let place = round_half_away(pixel * POINTER_RANGE, extent);
            &&& -extent <= 2 * (place * extent - pixel * POINTER_RANGE) <= extent
            &&& i32::MIN <= place <= i32::MAX ==> normalized(pixel, extent) == place
        }),
{
    crate::rounding::lemma_round_nearest(pixel * POINTER_RANGE, extent);
}

/// The two ends of an axis map to the two ends of the pointer range.
pub proof fn lemma_normalized_ends(extent: int)
    requires
        extent > 0,
    ensures
        normalized(0, extent) == 0,
        normalized(extent, extent) == POINTER_RANGE,
{
    assert(0 * POINTER_RANGE == 0 * extent + 0);
    crate::rounding::lemma_round_parts(0, 0, extent);
    assert(extent * POINTER_RANGE == POINTER_RANGE * extent + 0) by (nonlinear_arith);
    crate::rounding::lemma_round_parts(POINTER_RANGE as int, 0, extent);
}

} // verus!
