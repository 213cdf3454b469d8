//! The numeric token grammar: an optional minus sign, integer digits, an
//! optional dot with trailing digits, and an optional exponent marker with
//! signed digits. Tokens are matched greedily: each component takes as many
//! bytes as it can, and an exponent marker without digits is left out of
//! the token.

use vstd::prelude::*;
use crate::digits::digits_val;
use crate::digits::is_digit_byte;

verus! {

/// Length of the maximal run of digit bytes starting at `i`.
pub open spec fn digit_run(s: Seq<u8>, i: int) -> int
    decreases s.len() - i,
{
    if 0 <= i < s.len() && is_digit_byte(s[i]) {
        1 + digit_run(s, i + 1)
    } else {
        0
    }
}

/// The token at `i` opens with a minus sign.
pub open spec fn has_minus(s: Seq<u8>, i: int) -> bool {
    0 <= i < s.len() && s[i] == ('-' as u8)
}

/// Where the integer digits of a token at `i` begin.
pub open spec fn int_start(s: Seq<u8>, i: int) -> int {
    if has_minus(s, i) {
        i + 1
    } else {
        i
    }
}

/// How many integer digits a token at `i` has; zero means no token starts
/// at `i`.
pub open spec fn int_len(s: Seq<u8>, i: int) -> int {
    digit_run(s, int_start(s, i))
}

/// Where the integer digits of a token at `i` end.
pub open spec fn after_int(s: Seq<u8>, i: int) -> int {
    int_start(s, i) + int_len(s, i)
}

/// The token at `i` continues with a dot after its integer digits.
pub open spec fn has_dot(s: Seq<u8>, i: int) -> bool {
    int_len(s, i) > 0 && after_int(s, i) < s.len() && s[after_int(s, i)] == ('.' as u8)
}

/// How many digits follow the dot (possibly none).
pub open spec fn frac_len(s: Seq<u8>, i: int) -> int {
    if has_dot(s, i) {
        digit_run(s, after_int(s, i) + 1)
    } else {
        0
    }
}

/// Where the mantissa (sign, digits, optional dot and digits) of a token
/// at `i` ends.
pub open spec fn after_frac(s: Seq<u8>, i: int) -> int {
    if has_dot(s, i) {
        after_int(s, i) + 1 + frac_len(s, i)
    } else {
        after_int(s, i)
    }
}

/// An exponent marker stands after the mantissa.
pub open spec fn has_exp_marker(s: Seq<u8>, i: int) -> bool {
    int_len(s, i) > 0 && after_frac(s, i) < s.len() && (s[after_frac(s, i)] == ('e' as u8) || s[
        after_frac(s, i)
    ] == ('E' as u8))
}

/// Where the exponent digits would begin: after the marker and an optional
/// sign.
pub open spec fn exp_digits_start(s: Seq<u8>, i: int) -> int {
    let m = after_frac(s, i) + 1;
    if m < s.len() && (s[m] == ('+' as u8) || s[m] == ('-' as u8)) {
        m + 1
    } else {
        m
    }
}

/// How many exponent digits stand there.
pub open spec fn exp_len(s: Seq<u8>, i: int) -> int {
    if has_exp_marker(s, i) {
        digit_run(s, exp_digits_start(s, i))
    } else {
        0
    }
}

/// The token includes an exponent part only when at least one digit
/// follows the marker (and its optional sign); otherwise the token ends
/// with the mantissa.
pub open spec fn has_exp(s: Seq<u8>, i: int) -> bool {
    has_exp_marker(s, i) && exp_len(s, i) > 0
}

/// Where the token at `i` ends.
pub open spec fn token_end(s: Seq<u8>, i: int) -> int {
    if has_exp(s, i) {
        exp_digits_start(s, i) + exp_len(s, i)
    } else {
        after_frac(s, i)
    }
}

/// Length of the numeric token starting exactly at `i`; zero when none
/// starts there.
pub open spec fn token_len_at(s: Seq<u8>, i: int) -> int {
    if int_len(s, i) == 0 {
        0
    } else {
        token_end(s, i) - i
    }
}

/// The exponent is negative.
pub open spec fn exp_is_neg(s: Seq<u8>, i: int) -> bool {
    has_exp(s, i) && s[after_frac(s, i) + 1] == ('-' as u8)
}

/// The integer digits of the token.
pub open spec fn int_digits(s: Seq<u8>, i: int) -> Seq<u8> {
    s.subrange(int_start(s, i), after_int(s, i))
}

/// The fractional digits of the token (empty without a dot).
pub open spec fn frac_digits(s: Seq<u8>, i: int) -> Seq<u8> {
    if has_dot(s, i) {
        s.subrange(after_int(s, i) + 1, after_int(s, i) + 1 + frac_len(s, i))
    } else {
        Seq::empty()
    }
}

/// The exponent digits of the token (empty without an exponent part).
pub open spec fn exp_digits(s: Seq<u8>, i: int) -> Seq<u8> {
    if has_exp(s, i) {
        s.subrange(exp_digits_start(s, i), exp_digits_start(s, i) + exp_len(s, i))
    } else {
        Seq::empty()
    }
}

/// The mantissa of the token read as an integer: integer digits followed
/// by fractional digits.
pub open spec fn mantissa(s: Seq<u8>, i: int) -> nat {
    digits_val(int_digits(s, i) + frac_digits(s, i))
}

/// The signed exponent value of the token.
pub open spec fn exp_val(s: Seq<u8>, i: int) -> int {
    if exp_is_neg(s, i) {
        -(digits_val(exp_digits(s, i)) as int)
    } else {
        digits_val(exp_digits(s, i)) as int
    }
}

/// The power of ten that scales the mantissa once the value is itself
/// scaled to hundredths: the exponent, minus the fractional digit count,
/// plus two.
pub open spec fn shift(s: Seq<u8>, i: int) -> int {
    exp_val(s, i) - frac_len(s, i) + 2
}

/// A maximal digit run lies within the string, consists of digits, and is
/// followed by a non-digit or the end.
pub proof fn lemma_digit_run_facts(s: Seq<u8>, i: int)
    requires
        0 <= i <= s.len(),
    ensures
        0 <= digit_run(s, i) <= s.len() - i,
        forall|k: int| i <= k < i + digit_run(s, i) ==> is_digit_byte(s[k]),
        i + digit_run(s, i) < s.len() ==> !is_digit_byte(s[i + digit_run(s, i)]),
    decreases s.len() - i,
{
    if i < s.len() && is_digit_byte(s[i]) {
        lemma_digit_run_facts(s, i + 1);
    }
}

/// A run of exactly `l` digits, ended by a non-digit or the end of the
/// string, is what the maximal-run function finds.
pub proof fn lemma_digit_run_exact(s: Seq<u8>, i: int, l: int)
    requires
        0 <= i,
        0 <= l,
        i + l <= s.len(),
        forall|k: int| i <= k < i + l ==> is_digit_byte(s[k]),
        i + l < s.len() ==> !is_digit_byte(s[i + l]),
    ensures
        digit_run(s, i) == l,
    decreases l,
{
    if l > 0 {
        assert(is_digit_byte(s[i]));
        lemma_digit_run_exact(s, i + 1, l - 1);
    }
}

/// A token lies within the string.
pub proof fn lemma_token_len_bounds(s: Seq<u8>, i: int)
    requires
        0 <= i <= s.len(),
    ensures
        0 <= token_len_at(s, i) <= s.len() - i,
        int_len(s, i) > 0 ==> token_len_at(s, i) > 0,
{
    lemma_digit_run_facts(s, int_start(s, i));
    if has_dot(s, i) {
        lemma_digit_run_facts(s, after_int(s, i) + 1);
    }
    if has_exp_marker(s, i) {
        lemma_digit_run_facts(s, exp_digits_start(s, i));
    }
}

/// The boundaries of the token starting at some position, as the scanner
/// finds them.
pub struct TokenParts {
    /// The token opens with a minus sign.
    pub neg: bool,
    /// First integer digit.
    pub int_start: usize,
    /// Past the last integer digit.
    pub int_end: usize,
    /// A dot follows the integer digits.
    pub has_dot: bool,
    /// Past the last fractional digit (equals `int_end` without a dot).
    pub frac_end: usize,
    /// The token carries an exponent part.
    pub has_exp: bool,
    /// The exponent is negative.
    pub exp_neg: bool,
    /// First exponent digit (equals `end` without an exponent part).
    pub exp_start: usize,
    /// Past the last exponent digit.
    pub exp_end: usize,
    /// Past the last byte of the token.
    pub end: usize,
}

impl TokenParts {
    /// The parts describe the token that starts at `i`.
    pub open spec fn matches(self, s: Seq<u8>, i: int) -> bool {
        &&& self.neg == has_minus(s, i)
        &&& self.int_start == int_start(s, i)
        &&& self.int_end == after_int(s, i)
        &&& self.has_dot == has_dot(s, i)
        &&& self.frac_end == after_int(s, i) + (if has_dot(s, i) {
            1 + frac_len(s, i)
        } else {
            0
        })
        &&& self.has_exp == has_exp(s, i)
        &&& self.exp_neg == exp_is_neg(s, i)
        &&& self.has_exp ==> self.exp_start == exp_digits_start(s, i) && self.exp_end
            == exp_digits_start(s, i) + exp_len(s, i)
        &&& self.end == i + token_len_at(s, i)
        &&& int_len(s, i) > 0
    }
}

/// Finds the end of the digit run starting at `j`.
fn digit_run_end(s: &Vec<u8>, j: usize) -> (e: usize)
    requires
        j <= s@.len(),
    ensures
        e == j + digit_run(s@, j as int),
        j <= e <= s@.len(),
{
    proof {
        lemma_digit_run_facts(s@, j as int);
    }
    let mut e: usize = j;
    while e < s.len() && s[e] >= ('0' as u8) && s[e] <= ('9' as u8)
        invariant
            j <= e <= s@.len(),
            digit_run(s@, j as int) == (e - j) + digit_run(s@, e as int),
        decreases s@.len() - e,
    {
        proof {
            lemma_digit_run_facts(s@, e as int);
        }
        e = e + 1;
    }
    proof {
        assert(digit_run(s@, e as int) == 0);
    }
    e
}

/// Scans for a numeric token starting exactly at `i`, returning its
/// boundaries, or `None` when no token starts there.
pub fn try_token_at(s: &Vec<u8>, i: usize) -> (r: Option<TokenParts>)
    requires
        i <= s@.len(),
    ensures
        match r {
            None => token_len_at(s@, i as int) == 0,
            Some(p) => p.matches(s@, i as int),
        },
{
    let ghost gs = s@;
    let ghost gi = i as int;
    let neg = i < s.len() && s[i] == ('-' as u8);
    let ds: usize = if neg {
        i + 1
    } else {
        i
    };
    assert(ds == int_start(gs, gi));
    let ie = digit_run_end(s, ds);
    if ie == ds {
        assert(int_len(gs, gi) == 0);
        return None;
    }
    let mut has_dot_flag = false;
    let mut fe: usize = ie;
    if ie < s.len() && s[ie] == ('.' as u8) {
        has_dot_flag = true;
        fe = digit_run_end(s, ie + 1);
    }
    assert(has_dot_flag == has_dot(gs, gi));
    let mantissa_end: usize = if has_dot_flag {
        fe
    } else {
        ie
    };
    assert(mantissa_end == after_frac(gs, gi));
    let mut has_exp_flag = false;
    let mut exp_neg_flag = false;
    let mut es: usize = mantissa_end;
    let mut ee: usize = mantissa_end;
    if mantissa_end < s.len() && (s[mantissa_end] == ('e' as u8) || s[mantissa_end] == (
    'E' as u8)) {
        let mut digits_at: usize = mantissa_end + 1;
        let mut sign_neg = false;
        if digits_at < s.len() && (s[digits_at] == ('+' as u8) || s[digits_at] == ('-' as u8)) {
            sign_neg = s[digits_at] == ('-' as u8);
            digits_at = digits_at + 1;
        }
        assert(digits_at == exp_digits_start(gs, gi));
        let de = digit_run_end(s, digits_at);
        if de > digits_at {
            has_exp_flag = true;
            exp_neg_flag = sign_neg;
            es = digits_at;
            ee = de;
        }
    }
    assert(has_exp_flag == has_exp(gs, gi));
    assert(exp_neg_flag == exp_is_neg(gs, gi));
    let end: usize = if has_exp_flag {
        ee
    } else {
        mantissa_end
    };
    assert(end == i + token_len_at(gs, gi));
    Some(
        TokenParts {
            neg,
            int_start: ds,
            int_end: ie,
            has_dot: has_dot_flag,
            frac_end: fe,
            has_exp: has_exp_flag,
            exp_neg: exp_neg_flag,
            exp_start: es,
            exp_end: ee,
            end,
        },
    )
}

} // verus!
