//! The delay before a replay starts, as the user chooses it.

use vstd::prelude::*;
use crate::number::number_value;
use crate::number::parse_number;
use crate::number::Number;
use crate::number::Value;
use crate::text::chars_of;
use crate::text::trim;
use crate::text::trimmed;
use crate::time::lemma_span_of_nanos;
use crate::time::magnitude_span;
use crate::time::span_of_nanos;
use crate::time::units_of;
use crate::time::Span;
use crate::time::NANOS_PER_SEC;
use crate::time::SPAN_LIMIT;

verus! {

/// The delay used where the user chooses none: 4.1 seconds, in nanoseconds.
pub const DEFAULT_DELAY_NANOS: u128 = 4_100_000_000;

/// What the user answered when asked which delay to use.
#[derive(Clone, Copy, Debug, PartialEq, Eq)]
pub enum Preset {
    /// The default delay.
    Default,
    /// A delay that the user is to enter next.
    Custom,
    /// Neither: the default delay is used, and the user is told so.
    Unrecognized,
}

/// What the user entered as a delay of their own.
#[derive(Clone, Copy, Debug, PartialEq, Eq)]
pub enum CustomDelay {
    /// A delay that can be used.
    Accepted(Span),
    /// No number, no quantity, or one below zero: the default delay is used,
    /// and the user is told so.
    Rejected,
    /// A quantity that is not below zero and is no span: unbounded, or
    /// beyond the range of spans.
    OutOfRange,
}

/// The preset that an answer chooses: `1` the default, `2` a delay of the
/// user's own, white space round the answer not counted.
pub open spec fn preset_of(answer: Seq<char>) -> Preset {
    if trimmed(answer) == seq!['1'] {
        Preset::Default
    } else if trimmed(answer) == seq!['2'] {
        Preset::Custom
    } else {
        Preset::Unrecognized
    }
}

/// The delay that an answer gives in seconds, white space round the answer
/// not counted.
pub open spec fn custom_delay_of(answer: Seq<char>) -> CustomDelay {
    match number_value(trimmed(answer)) {
        None => CustomDelay::Rejected,
        Some(Value::NaN) => CustomDelay::Rejected,
        Some(Value::Infinite { negative }) => if negative {
            CustomDelay::Rejected
        } else {
            CustomDelay::OutOfRange
        },
        Some(Value::Finite { negative, mantissa, exponent }) => if negative && mantissa > 0 {
            CustomDelay::Rejected
        } else if units_of(mantissa, exponent, NANOS_PER_SEC as nat) < SPAN_LIMIT {
            CustomDelay::Accepted(span_of_nanos(units_of(mantissa, exponent, NANOS_PER_SEC as nat)))
        } else {
            CustomDelay::OutOfRange
        },
    }
}

/// The delay used where the user chooses none.
pub fn default_delay() -> (delay: Span)
    ensures
        delay.total_nanos() == DEFAULT_DELAY_NANOS,
        delay == span_of_nanos(DEFAULT_DELAY_NANOS as nat),
{
    match Span::from_nanos(DEFAULT_DELAY_NANOS) {
        Some(delay) => {
            proof {
                lemma_span_of_nanos(delay);
            }
            delay
        },
        None => Span::zero(),
    }
}

/// Reads the answer to the question which delay to use.
pub fn read_preset(answer: &str) -> (preset: Preset)
    ensures
        preset == preset_of(answer@),
{
    let chars = chars_of(answer);
    let bare = trim(&chars);
    if bare.len() == 1 && bare[0] == '1' {
        assert(bare@ =~= seq!['1']);
        Preset::Default
    } else if bare.len() == 1 && bare[0] == '2' {
        assert(bare@ =~= seq!['2']);
        Preset::Custom
    } else {
        assert(bare@ != seq!['1'] && bare@ != seq!['2']) by {
            assert(seq!['1'].len() == 1 && seq!['1'][0] == '1');
            assert(seq!['2'].len() == 1 && seq!['2'][0] == '2');
        }
        Preset::Unrecognized
    }
}

/// Reads a delay that the user entered in seconds.
pub fn read_custom_delay(answer: &str) -> (delay: CustomDelay)
    ensures
        delay == custom_delay_of(answer@),
{
    let chars = chars_of(answer);
    let bare = trim(&chars);
    match parse_number(&bare) {
        None => CustomDelay::Rejected,
        Some(Number::NaN) => CustomDelay::Rejected,
        Some(Number::Infinite { negative }) => if negative {
            CustomDelay::Rejected
        } else {
            CustomDelay::OutOfRange
        },
        Some(Number::Finite(d)) => {
            if d.is_negative() && !d.is_zero() {
                CustomDelay::Rejected
            } else {
                match magnitude_span(&d, NANOS_PER_SEC) {
                    Some(span) => {
                        proof {
                            lemma_span_of_nanos(span);
                        }
                        CustomDelay::Accepted(span)
                    },
                    None => CustomDelay::OutOfRange,
                }
            }
        },
    }
}

} // verus!
