//! The dispatcher: trim the input; when the whole trimmed input is one
//! numeric token, render it as a single number with rounding note,
//! magnitude label and optional binary-units line; otherwise scan it as
//! text. Only the single-number path carries a label or a binary-units
//! line.

use vstd::prelude::*;
use crate::magnitude::classify;
use crate::magnitude::label_of;
use crate::magnitude::magnitude_of;
use crate::magnitude::Magnitude;
use crate::number::eval_token;
use crate::number::token_rounded;
use crate::render::format_number_with_separators;
use crate::render::number_text;
use crate::scan::process_text_with_numbers;
use crate::scan::scan_from;
use crate::token::token_len_at;
use crate::token::try_token_at;
use crate::units::binary_units_of;
use crate::units::byte_count_of;
use crate::units::format_as_binary_units;

verus! {

/// An ASCII whitespace byte: space, tab, line feed, vertical tab, form
/// feed or carriage return.
pub open spec fn is_space_byte(b: u8) -> bool {
    b == (' ' as u8) || b == ('\t' as u8) || b == ('\n' as u8) || b == 11 || b == 12 || b == (
    '\r' as u8)
}

/// The first index at or after `i` holding a non-space byte.
pub open spec fn trim_start_idx(s: Seq<u8>, i: int) -> int
    decreases s.len() - i,
    when 0 <= i
{
    if 0 <= i < s.len() && is_space_byte(s[i]) {
        trim_start_idx(s, i + 1)
    } else {
        i
    }
}

/// The end of the text once trailing space bytes before `j` are dropped,
/// never receding past `a`.
pub open spec fn trim_end_idx(s: Seq<u8>, j: int, a: int) -> int
    decreases j,
{
    if 0 <= a < j <= s.len() && is_space_byte(s[j - 1]) {
        trim_end_idx(s, j - 1, a)
    } else {
        j
    }
}

/// The input with leading and trailing ASCII whitespace removed.
pub open spec fn trimmed(s: Seq<u8>) -> Seq<u8> {
    let a = trim_start_idx(s, 0);
    let b = trim_end_idx(s, s.len() as int, a);
    s.subrange(a, b)
}

/// The trimmed input consists of exactly one numeric token.
pub open spec fn single_mode(t: Seq<u8>) -> bool {
    t.len() > 0 && token_len_at(t, 0) == t.len()
}

/// What one invocation produces.
pub enum FormattedOutput {
    /// The single-number rendering: the value's text, whether rounding
    /// changed it, its magnitude, and the binary-units line when asked
    /// for.
    Single { text: Vec<u8>, was_rounded: bool, magnitude: Magnitude, binary: Option<Vec<u8>> },
    /// The text rendering, with every embedded numeric token replaced.
    Scanned { text: Vec<u8> },
}

/// The note appended to a single-number line whose value was rounded.
pub open spec fn rounded_note() -> Seq<u8> {
    seq![
        (' ' as u8),
        ('(' as u8),
        ('r' as u8),
        ('o' as u8),
        ('u' as u8),
        ('n' as u8),
        ('d' as u8),
        ('e' as u8),
        ('d' as u8),
        (')' as u8),
    ]
}

/// The first output line: in single-number mode the rendered value, the
/// rounding note when applicable, a space and the magnitude label; in
/// text mode the scanned text itself.
pub open spec fn first_line_of(o: FormattedOutput) -> Seq<u8> {
    match o {
        FormattedOutput::Single { text, was_rounded, magnitude, binary } => text@ + (
        if was_rounded {
            rounded_note()
        } else {
            Seq::empty()
        }) + seq![(' ' as u8)] + label_of(magnitude),
        FormattedOutput::Scanned { text } => text@,
    }
}

/// Tests a byte for ASCII whitespace.
fn is_space(b: u8) -> (r: bool)
    ensures
        r == is_space_byte(b),
{
    b == (' ' as u8) || b == ('\t' as u8) || b == ('\n' as u8) || b == 11 || b == 12 || b == (
    '\r' as u8)
}

/// Copies the input without its leading and trailing ASCII whitespace.
fn trim(s: &Vec<u8>) -> (t: Vec<u8>)
    ensures
        t@ == trimmed(s@),
{
    let mut a: usize = 0;
    while a < s.len() && is_space(s[a])
        invariant
            0 <= a <= s@.len(),
            trim_start_idx(s@, 0) == trim_start_idx(s@, a as int),
        decreases s@.len() - a,
    {
        a = a + 1;
    }
    assert(trim_start_idx(s@, a as int) == a);
    let mut b: usize = s.len();
    while b > a && is_space(s[b - 1])
        invariant
            a <= b <= s@.len(),
            trim_end_idx(s@, s@.len() as int, a as int) == trim_end_idx(s@, b as int, a as int),
        decreases b,
    {
        b = b - 1;
    }
    assert(trim_end_idx(s@, b as int, a as int) == b);
    let mut t: Vec<u8> = Vec::new();
    let mut j: usize = a;
    while j < b
        invariant
            a <= j <= b <= s@.len(),
            t@ == s@.subrange(a as int, j as int),
        decreases b - j,
    {
        t.push(s[j]);
        assert(t@ =~= s@.subrange(a as int, j + 1));
        j = j + 1;
    }
    t
}

/// Processes one input: trims it, then renders it as a single number when
/// the whole trimmed input is one numeric token, and as scanned text
/// otherwise. The binary-units line is produced only in single-number
/// mode, and only when asked for.
pub fn process_number(input: &Vec<u8>, show_bytes: bool) -> (o: FormattedOutput)
    ensures
        ({
            let t = trimmed(input@);
            if single_mode(t) {
                let r = token_rounded(t, 0);
                match o {
                    FormattedOutput::Single { text, was_rounded, magnitude, binary } => {
                        &&& text@ == number_text(r.int_part as int, r.frac as int)
                        &&& was_rounded == r.was_rounded
                        &&& magnitude == magnitude_of(r.int_part as int, r.frac as int)
                        &&& match binary {
                            Some(b) => show_bytes && b@ == binary_units_of(
                                byte_count_of(r.int_part as int),
                            ),
                            None => !show_bytes,
                        }
                    },
                    FormattedOutput::Scanned { .. } => false,
                }
            } else {
                match o {
                    FormattedOutput::Scanned { text } => text@ == scan_from(t, 0),
                    FormattedOutput::Single { .. } => false,
                }
            }
        }),
{
    let t = trim(input);
    let tok = try_token_at(&t, 0);
    match tok {
        Some(parts) => {
            if parts.end == t.len() {
                let r = eval_token(&t, &parts, Ghost(0));
                let text = format_number_with_separators(r.int_part, r.frac);
                let magnitude = classify(r.int_part, r.frac);
                let binary: Option<Vec<u8>> = if show_bytes {
                    Some(format_as_binary_units(r.int_part))
                } else {
                    None
                };
                FormattedOutput::Single { text, was_rounded: r.was_rounded, magnitude, binary }
            } else {
                FormattedOutput::Scanned { text: process_text_with_numbers(&t) }
            }
        },
        None => {
            assert(!single_mode(t@));
            FormattedOutput::Scanned { text: process_text_with_numbers(&t) }
        },
    }
}

/// Builds the first output line of a result.
pub fn output_first_line(o: &FormattedOutput) -> (out: Vec<u8>)
    ensures
        out@ == first_line_of(*o),
{
    match o {
        FormattedOutput::Single { text, was_rounded, magnitude, binary: _ } => {
            let mut out: Vec<u8> = Vec::new();
            let mut piece = crate::render::copy_bytes(text);
            out.append(&mut piece);
            if *was_rounded {
                out.push(' ' as u8);
                out.push('(' as u8);
                out.push('r' as u8);
                out.push('o' as u8);
                out.push('u' as u8);
                out.push('n' as u8);
                out.push('d' as u8);
                out.push('e' as u8);
                out.push('d' as u8);
                out.push(')' as u8);
            }
            out.push(' ' as u8);
            let mut lab = crate::magnitude::label(*magnitude);
            out.append(&mut lab);
            proof {
                assert(out@ =~= first_line_of(*o));
            }
            out
        },
        FormattedOutput::Scanned { text } => {
            let out = crate::render::copy_bytes(text);
            out
        },
    }
}

} // verus!
