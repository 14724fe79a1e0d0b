//! Colours in HSL, and exact fixed-point conversion between HSL and RGB.
//!
//! Hue is counted in hundredths of a degree, saturation and lightness in
//! ten-thousandths of the full range, so every value is an integer and every
//! conversion is exact integer arithmetic with one rounding per result.

pub mod color;
pub mod laws;
pub mod units;

pub use color::HSL;
