//! Colour model and field-synchronisation core of an interactive colour picker.
//!
//! All numbers are fixed-point decimals with six fractional digits, so every
//! conversion and formatting rule below is exact integer arithmetic, stated and
//! proved over mathematical integers.
mod arith;
pub mod color_math;
pub mod color_picker;
pub mod fixed;
pub mod hex;
pub mod round_trip;
pub mod string_utils;
pub mod utils;
