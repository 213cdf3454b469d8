//! Magnitude classification: a coarse, human-readable size category for the
//! absolute value of a rounded number.

use vstd::prelude::*;
use crate::digits::abs_int;

verus! {

/// The five size categories, ordered from smallest to largest.
#[derive(Clone, Copy, Debug, PartialEq, Eq, Structural)]
pub enum Magnitude {
    Zero,
    Small,
    Medium,
    PrettyBig,
    ExtremelyBig,
}

/// The category of a rounded value given as an integer part `i` (truncated
/// toward zero) and a fractional part `f` in hundredths: zero only for the
/// value zero itself; otherwise bucketed by the truncated absolute value,
/// with boundaries at one thousand, one million and one billion.
pub open spec fn magnitude_of(i: int, f: int) -> Magnitude {
    let m = abs_int(i);
    if i == 0 && f == 0 {
        Magnitude::Zero
    } else if m <= 999 {
        Magnitude::Small
    } else if m <= 999_999 {
        Magnitude::Medium
    } else if m <= 999_999_999 {
        Magnitude::PrettyBig
    } else {
        Magnitude::ExtremelyBig
    }
}

/// The label text of a category: `(zero)`, `(small)`, `(medium)`,
/// `(pretty big)` or `(extremely big)`.
pub open spec fn label_of(m: Magnitude) -> Seq<u8> {
    match m {
        Magnitude::Zero => seq![
            ('(' as u8),
            ('z' as u8),
            ('e' as u8),
            ('r' as u8),
            ('o' as u8),
            (')' as u8),
        ],
        Magnitude::Small => seq![
            ('(' as u8),
            ('s' as u8),
            ('m' as u8),
            ('a' as u8),
            ('l' as u8),
            ('l' as u8),
            (')' as u8),
        ],
        Magnitude::Medium => seq![
            ('(' as u8),
            ('m' as u8),
            ('e' as u8),
            ('d' as u8),
            ('i' as u8),
            ('u' as u8),
            ('m' as u8),
            (')' as u8),
        ],
        Magnitude::PrettyBig => seq![
            ('(' as u8),
            ('p' as u8),
            ('r' as u8),
            ('e' as u8),
            ('t' as u8),
            ('t' as u8),
            ('y' as u8),
            (' ' as u8),
            ('b' as u8),
            ('i' as u8),
            ('g' as u8),
            (')' as u8),
        ],
        Magnitude::ExtremelyBig => seq![
            ('(' as u8),
            ('e' as u8),
            ('x' as u8),
            ('t' as u8),
            ('r' as u8),
            ('e' as u8),
            ('m' as u8),
            ('e' as u8),
            ('l' as u8),
            ('y' as u8),
            (' ' as u8),
            ('b' as u8),
            ('i' as u8),
            ('g' as u8),
            (')' as u8),
        ],
    }
}

/// Every rounded value falls in exactly one of the five categories, and
/// the buckets have closed boundaries on both ends: the zero category
/// holds the value zero alone, and the others split at one thousand, one
/// million and one billion of truncated absolute value.
pub proof fn lemma_magnitude_partition(i: int, f: int)
    requires
        0 <= f < 100,
        i64::MIN <= i <= i64::MAX,
    ensures
        ({
            let m = magnitude_of(i, f);
            &&& (m == Magnitude::Zero) <==> (i == 0 && f == 0)
            &&& (m == Magnitude::Small) <==> (!(i == 0 && f == 0) && abs_int(i) <= 999)
            &&& (m == Magnitude::Medium) <==> (1_000 <= abs_int(i) <= 999_999)
            &&& (m == Magnitude::PrettyBig) <==> (1_000_000 <= abs_int(i) <= 999_999_999)
            &&& (m == Magnitude::ExtremelyBig) <==> (1_000_000_000 <= abs_int(i))
        }),
{
}

/// Classifies a rounded value by its truncated absolute value.
pub fn classify(int_part: i64, frac: u8) -> (m: Magnitude)
    ensures
        m == magnitude_of(int_part as int, frac as int),
{
    if int_part == 0 && frac == 0 {
        Magnitude::Zero
    } else {
        let mag: u64 = if int_part >= 0 {
            int_part as u64
        } else {
            let wide: i128 = -(int_part as i128);
            wide as u64
        };
        if mag <= 999 {
            Magnitude::Small
        } else if mag <= 999_999 {
            Magnitude::Medium
        } else if mag <= 999_999_999 {
            Magnitude::PrettyBig
        } else {
            Magnitude::ExtremelyBig
        }
    }
}

/// The label bytes of a category.
pub fn label(m: Magnitude) -> (out: Vec<u8>)
    ensures
        out@ == label_of(m),
{
    let mut out: Vec<u8> = Vec::new();
    out.push('(' as u8);
    match m {
        Magnitude::Zero => {
            out.push('z' as u8);
            out.push('e' as u8);
            out.push('r' as u8);
            out.push('o' as u8);
        },
        Magnitude::Small => {
            out.push('s' as u8);
            out.push('m' as u8);
            out.push('a' as u8);
            out.push('l' as u8);
            out.push('l' as u8);
        },
        Magnitude::Medium => {
            out.push('m' as u8);
            out.push('e' as u8);
            out.push('d' as u8);
            out.push('i' as u8);
            out.push('u' as u8);
            out.push('m' as u8);
        },
        Magnitude::PrettyBig => {
            out.push('p' as u8);
            out.push('r' as u8);
            out.push('e' as u8);
            out.push('t' as u8);
            out.push('t' as u8);
            out.push('y' as u8);
            out.push(' ' as u8);
            out.push('b' as u8);
            out.push('i' as u8);
            out.push('g' as u8);
        },
        Magnitude::ExtremelyBig => {
            out.push('e' as u8);
            out.push('x' as u8);
            out.push('t' as u8);
            out.push('r' as u8);
            out.push('e' as u8);
            out.push('m' as u8);
            out.push('e' as u8);
            out.push('l' as u8);
            out.push('y' as u8);
            out.push(' ' as u8);
            out.push('b' as u8);
            out.push('i' as u8);
            out.push('g' as u8);
        },
    }
    out.push(')' as u8);
    proof {
        assert(out@ =~= label_of(m));
    }
    out
}

} // verus!
