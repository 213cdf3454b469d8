//! Binary (base-1024) units rendering, through the `humansize` crate.

use vstd::prelude::*;

verus! {

/// The text that the binary-units formatter produces for a byte count:
/// base-1024 prefixes (B, KiB, MiB, GiB, TiB, ...), whole numbers plain
/// and fractions with two decimals, such as "1 KiB" or "1.50 KiB". The
/// text is a function of the byte count alone.
pub uninterp spec fn binary_units_of(n: u64) -> Seq<u8>;

/// The byte count that a rounded value clamps to: negative values clamp
/// to zero, and the fractional part truncates away, leaving the integer
/// part.
pub open spec fn byte_count_of(i: int) -> u64 {
    if i < 0 {
        0
    } else {
        i as u64
    }
}

/// Relies on humansize::format_size with its BINARY options, which
/// renders a byte count with base-1024 prefixes; the result depends on
/// the byte count alone.
#[verifier::external_body]
fn binary_units_text(n: u64) -> (r: Vec<u8>)
    ensures
        r@ == binary_units_of(n),
{
    humansize::format_size(n, humansize::BINARY).into_bytes()
}

/// Renders the clamped byte count of a rounded value in binary units.
pub fn format_as_binary_units(int_part: i64) -> (r: Vec<u8>)
    ensures
        r@ == binary_units_of(byte_count_of(int_part as int)),
{
    let n: u64 = if int_part < 0 {
        0
    } else {
        int_part as u64
    };
    binary_units_text(n)
}

} // verus!
