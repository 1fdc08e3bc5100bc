//! Timed replay of pointer positions on a three-by-three play field.
//!
//! A script is a text of records `column|row|milliseconds`. Each record names a
//! cell of a square field centred on the screen and the moment, counted from
//! the start of the replay, at which the pointer is to be placed on it. The
//! crate reads such scripts, maps cells to pixels and pixels to the absolute
//! pointer range, and decides how long a player has to wait before each
//! placement.

pub mod text;
pub mod number;
pub mod scale;
pub mod rounding;
pub mod grid;
pub mod time;
pub mod script;
pub mod player;
pub mod delay;
pub mod session;
