//! Number-formatting library: thousand separators, two-decimal rounding,
//! magnitude classification, binary (base-1024) units, and a text-scanning
//! mode that reformats numeric substrings embedded in free text.
//!
//! Numbers are modelled exactly: a numeric token (optional sign, digits,
//! optional fraction, optional scientific exponent) is evaluated with exact
//! decimal arithmetic and rounded half-away-from-zero to hundredths, then
//! clamped to the 64-bit integer range for rendering.

pub mod digits;
pub mod magnitude;
pub mod render;
pub mod number;
pub mod process;
pub mod scan;
pub mod token;
pub mod units;
