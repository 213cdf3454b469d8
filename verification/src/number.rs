//! Exact evaluation of a numeric token. The token denotes the rational
//! value `mantissa * 10^(exponent - fraction digits)`; scaling by one
//! hundred more and rounding half away from zero gives an integer count of
//! hundredths, which is then clamped to the renderable 64-bit range.

use vstd::prelude::*;
use crate::digits::abs_int;
use crate::digits::all_digit_bytes;
use crate::digits::digits_val;
use crate::digits::is_digit_byte;
use crate::digits::pow10;
use crate::digits::lemma_digits_round_half;
use crate::digits::lemma_digits_val_bound;
use crate::digits::lemma_digits_val_first;
use crate::digits::lemma_digits_val_split;
use crate::digits::lemma_digits_val_zero_iff;
use crate::digits::lemma_digits_val_zeros;
use crate::digits::lemma_pow10_adds;
use crate::digits::lemma_pow10_increases;
use crate::digits::lemma_pow10_pos;
use crate::digits::lemma_pow10_values;
use crate::digits::dec_digits;
use crate::digits::lemma_dec_digits_val;
use crate::render::plain_number_text;
use crate::token::after_frac;
use crate::token::after_int;
use crate::token::digit_run;
use crate::token::exp_digits;
use crate::token::exp_val;
use crate::token::has_exp;
use crate::token::has_exp_marker;
use crate::token::int_len;
use crate::token::lemma_digit_run_exact;
use crate::token::token_end;
use crate::token::exp_digits_start;
use crate::token::frac_digits;
use crate::token::frac_len;
use crate::token::has_dot;
use crate::token::has_minus;
use crate::token::int_digits;
use crate::token::int_start;
use crate::token::lemma_digit_run_facts;
use crate::token::mantissa;
use crate::token::shift;
use crate::token::token_len_at;
use crate::token::try_token_at;
use crate::token::TokenParts;

verus! {

/// Hundredths of the largest value the renderer represents: `i64::MAX`
/// whole units and ninety-nine hundredths.
pub const MAX_POS_HUNDREDTHS: i128 = 922_337_203_685_477_580_799;

/// Hundredths of the smallest value the renderer represents: `i64::MIN`
/// whole units less ninety-nine hundredths.
pub const MIN_NEG_HUNDREDTHS: i128 = -922_337_203_685_477_580_899;

/// A number rounded to hundredths and clamped to the renderable range:
/// an integer part truncated toward zero, a fractional part in hundredths
/// (the sign of a value strictly between minus one and zero is lost, since
/// the integer part is then zero), and whether rounding discarded part of
/// the original value.
#[derive(Clone, Copy, Debug, PartialEq, Eq, Structural)]
pub struct Rounded {
    /// The integer part, truncated toward zero and saturated.
    pub int_part: i64,
    /// The fractional part in hundredths, below one hundred.
    pub frac: u8,
    /// Rounding to hundredths changed the value.
    pub was_rounded: bool,
}

impl Rounded {
    /// The fractional part is a valid count of hundredths.
    pub open spec fn wf(self) -> bool {
        self.frac < 100
    }
}

/// `m * 10^p`, rounded half away from zero to an integer.
pub open spec fn scaled_mag(m: nat, p: int) -> nat {
    if p >= 0 {
        m * pow10(p as nat)
    } else {
        let d = pow10((-p) as nat);
        m / d + (if 2 * (m % d) >= d {
            1nat
        } else {
            0nat
        })
    }
}

/// Rounding `m * 10^p` to an integer discards a nonzero remainder.
pub open spec fn inexact(m: nat, p: int) -> bool {
    p < 0 && m % pow10((-p) as nat) != 0
}

/// The signed rounded value in hundredths.
pub open spec fn hundredths(m: nat, p: int, neg: bool) -> int {
    if neg {
        -(scaled_mag(m, p) as int)
    } else {
        scaled_mag(m, p) as int
    }
}

/// The value in hundredths lies in the renderable range.
pub open spec fn rep_in_range(h: int) -> bool {
    MIN_NEG_HUNDREDTHS <= h <= MAX_POS_HUNDREDTHS
}

/// Division by one hundred that truncates toward zero.
pub open spec fn trunc_div100(h: int) -> int {
    if h >= 0 {
        h / 100
    } else {
        -((-h) / 100)
    }
}

/// The integer part rendered for `h` hundredths: truncated toward zero,
/// saturated at the 64-bit bounds.
pub open spec fn rep_int_part(h: int) -> int {
    if h > MAX_POS_HUNDREDTHS {
        i64::MAX as int
    } else if h < MIN_NEG_HUNDREDTHS {
        i64::MIN as int
    } else {
        trunc_div100(h)
    }
}

/// The fractional part rendered for `h` hundredths; zero when saturated.
pub open spec fn rep_frac(h: int) -> int {
    if rep_in_range(h) {
        (abs_int(h) % 100) as int
    } else {
        0
    }
}

/// The rounded value in hundredths of the token starting at `i`.
pub open spec fn token_value_hundredths(s: Seq<u8>, i: int) -> int {
    hundredths(mantissa(s, i), shift(s, i), has_minus(s, i))
}

/// The rounded, clamped representation of the token starting at `i`.
pub open spec fn token_rounded(s: Seq<u8>, i: int) -> Rounded {
    Rounded {
        int_part: rep_int_part(token_value_hundredths(s, i)) as i64,
        frac: rep_frac(token_value_hundredths(s, i)) as u8,
        was_rounded: inexact(mantissa(s, i), shift(s, i)),
    }
}

/// A zero mantissa scales and rounds to zero, exactly.
pub proof fn lemma_scaled_mag_zero(p: int)
    ensures
        scaled_mag(0, p) == 0,
        !inexact(0, p),
{
    if p < 0 {
        let d = pow10((-p) as nat);
        lemma_pow10_pos((-p) as nat);
        vstd::arithmetic::div_mod::lemma_basic_div(0, d as int);
        vstd::arithmetic::div_mod::lemma_small_mod(0, d);
    }
}

/// A nonzero mantissa shifted past the renderable range saturates, with
/// nothing rounded away.
pub proof fn lemma_big_shift(m: nat, p: int)
    requires
        m >= 1,
        p >= 22,
    ensures
        scaled_mag(m, p) > 922_337_203_685_477_580_899,
        !inexact(m, p),
{
    lemma_pow10_values();
    lemma_pow10_increases(22, p as nat);
    vstd::arithmetic::mul::lemma_mul_inequality(1, m as int, pow10(p as nat) as int);
    assert(1 * pow10(p as nat) == pow10(p as nat));
}

/// A mantissa shifted entirely below the rounding point vanishes; the
/// whole mantissa is then the discarded remainder.
pub proof fn lemma_tiny_shift(m: nat, n: nat, p: int)
    requires
        m < pow10(n),
        p + n + 1 <= 0,
    ensures
        scaled_mag(m, p) == 0,
        inexact(m, p) == (m != 0),
{
    let d = pow10((-p) as nat);
    lemma_pow10_pos(n);
    lemma_pow10_increases(n + 1, (-p) as nat);
    assert(pow10(n + 1) == 10 * pow10(n));
    assert(m < d);
    vstd::arithmetic::div_mod::lemma_basic_div(m as int, d as int);
    vstd::arithmetic::div_mod::lemma_small_mod(m, d);
    assert(2 * m < d);
}

/// Whether any digit of `d` at or after `from` is nonzero; equivalently,
/// whether the digits dropped by rounding carry a nonzero remainder.
fn has_nonzero_digit(d: &Vec<u8>, from: usize) -> (b: bool)
    requires
        all_digit_bytes(d@),
        from <= d@.len(),
    ensures
        b == (digits_val(d@.skip(from as int)) != 0),
{
    let ghost tail = d@.skip(from as int);
    let mut j: usize = from;
    while j < d.len()
        invariant
            from <= j <= d@.len(),
            all_digit_bytes(d@),
            tail == d@.skip(from as int),
            forall|t: int| from <= t < j ==> d@[t] == ('0' as u8),
        decreases d@.len() - j,
    {
        if d[j] != ('0' as u8) {
            proof {
                assert(all_digit_bytes(tail)) by {
                    assert(forall|k: int|
                        0 <= k < tail.len() ==> tail[k] == d@[k + from] && is_digit_byte(
                            d@[k + from],
                        ));
                }
                lemma_digits_val_zero_iff(tail);
                assert(tail[j - from] == d@[j as int]);
            }
            return true;
        }
        j = j + 1;
    }
    proof {
        assert(forall|k: int| 0 <= k < tail.len() ==> tail[k] == ('0' as u8)) by {
            assert(forall|k: int| 0 <= k < tail.len() ==> tail[k] == d@[k + from]);
        }
        lemma_digits_val_zeros(tail);
    }
    false
}

/// Ten to the power `e`, executably.
fn pow10_u128(e: usize) -> (r: u128)
    requires
        e <= 21,
    ensures
        r == pow10(e as nat),
{
    proof {
        lemma_pow10_values();
    }
    let mut r: u128 = 1;
    let mut j: usize = 0;
    while j < e
        invariant
            j <= e <= 21,
            r == pow10(j as nat),
        decreases e - j,
    {
        proof {
            lemma_pow10_increases((j + 1) as nat, 21);
            lemma_pow10_values();
            assert(pow10((j + 1) as nat) == 10 * pow10(j as nat));
        }
        r = r * 10;
        j = j + 1;
    }
    r
}

/// Evaluates a significant-digit string `d` (no leading zero) scaled by
/// `10^p` into the rounded, clamped representation.
fn eval_digits(d: &Vec<u8>, p: i128, neg: bool) -> (r: Rounded)
    requires
        all_digit_bytes(d@),
        d@.len() > 0 ==> d@[0] != ('0' as u8),
        -4_000_000_000_000_000_000_000_000_000_000 <= p
            <= 4_000_000_000_000_000_000_000_000_000_000,
    ensures
        r.wf(),
        r.int_part == rep_int_part(hundredths(digits_val(d@), p as int, neg)),
        r.frac == rep_frac(hundredths(digits_val(d@), p as int, neg)),
        r.was_rounded == inexact(digits_val(d@), p as int),
{
    let ghost m = digits_val(d@);
    let n: usize = d.len();
    if n == 0 {
        proof {
            lemma_scaled_mag_zero(p as int);
        }
        return Rounded { int_part: 0, frac: 0, was_rounded: false };
    }
    proof {
        lemma_digits_val_bound(d@);
        lemma_digits_val_first(d@);
        assert((d@[0] - ('0' as u8)) >= 1);
        vstd::arithmetic::mul::lemma_mul_inequality(
            1,
            (d@[0] - ('0' as u8)) as int,
            pow10((n - 1) as nat) as int,
        );
        assert(1 * pow10((n - 1) as nat) == pow10((n - 1) as nat));
        assert(m >= pow10((n - 1) as nat));
        lemma_pow10_pos((n - 1) as nat);
        lemma_pow10_values();
    }
    let n_wide: i128 = n as i128;
    let kept: i128 = n_wide + p;
    if kept > 21 {
        // the magnitude reaches at least ten to the twenty-first power, so
        // the value saturates in both directions
        let was: bool = if p < 0 {
            let start: usize = kept as usize;
            proof {
                lemma_split_drop(d@, kept as int, p as int);
            }
            has_nonzero_digit(d, start)
        } else {
            false
        };
        proof {
            let pi = p as int;
            if pi >= 0 {
                vstd::arithmetic::mul::lemma_mul_inequality(
                    pow10((n - 1) as nat) as int,
                    m as int,
                    pow10(pi as nat) as int,
                );
                lemma_pow10_adds((n - 1) as nat, pi as nat);
                assert((n - 1) as nat + pi as nat == (kept - 1) as nat);
                lemma_pow10_increases(21, (kept - 1) as nat);
                assert(scaled_mag(m, pi) >= pow10((kept - 1) as nat));
            } else {
                let dd = pow10((-pi) as nat);
                lemma_pow10_pos((-pi) as nat);
                lemma_pow10_adds((kept - 1) as nat, (-pi) as nat);
                assert((kept - 1) as nat + (-pi) as nat == (n - 1) as nat);
                assert(m >= pow10((kept - 1) as nat) * dd);
                vstd::arithmetic::div_mod::lemma_div_is_ordered(
                    pow10((kept - 1) as nat) * dd as int,
                    m as int,
                    dd as int,
                );
                vstd::arithmetic::div_mod::lemma_div_by_multiple(
                    pow10((kept - 1) as nat) as int,
                    dd as int,
                );
                assert(m / dd >= pow10((kept - 1) as nat));
                assert(scaled_mag(m, pi) >= m / dd);
            }
            lemma_pow10_increases(21, (kept - 1) as nat);
            assert(scaled_mag(m, pi) > 922_337_203_685_477_580_899);
        }
        if neg {
            return Rounded { int_part: i64::MIN, frac: 0, was_rounded: was };
        } else {
            return Rounded { int_part: i64::MAX, frac: 0, was_rounded: was };
        }
    }
    if kept <= 0 {
        // every digit is dropped by rounding; at most a carry survives
        let up: bool = kept == 0 && d[0] >= ('5' as u8);
        proof {
            let pi = p as int;
            if kept == 0 {
                assert((-pi) as nat == n as nat);
                let dd = pow10((-pi) as nat);
                vstd::arithmetic::div_mod::lemma_basic_div(m as int, dd as int);
                vstd::arithmetic::div_mod::lemma_small_mod(m, dd);
                lemma_digits_round_half(d@);
            } else {
                lemma_tiny_shift(m, n as nat, pi);
            }
        }
        let fr: u8 = if up {
            1
        } else {
            0
        };
        return Rounded { int_part: 0, frac: fr, was_rounded: true };
    }
    // between one and twenty-one digits survive in hundredths
    let keep_n: usize = if kept < n_wide {
        kept as usize
    } else {
        n
    };
    let ghost kept_seq = d@.take(keep_n as int);
    proof {
        lemma_all_digits_take(d@, keep_n as int);
        lemma_digits_val_bound(kept_seq);
        lemma_pow10_increases(keep_n as nat, 21);
    }
    let mut q: u128 = 0;
    let mut j: usize = 0;
    while j < keep_n
        invariant
            j <= keep_n <= d@.len(),
            all_digit_bytes(d@),
            keep_n <= 21,
            q == digits_val(d@.take(j as int)),
            q < pow10(j as nat),
        decreases keep_n - j,
    {
        proof {
            lemma_all_digits_take(d@, j + 1);
            lemma_digits_val_bound(d@.take(j + 1));
            lemma_pow10_increases((j + 1) as nat, 21);
            lemma_pow10_values();
            assert(d@.take(j + 1).drop_last() =~= d@.take(j as int));
            assert(d@.take(j + 1).last() == d@[j as int]);
            assert(is_digit_byte(d@[j as int]));
        }
        q = q * 10 + ((d[j] - ('0' as u8)) as u128);
        j = j + 1;
    }
    let mut was: bool = false;
    if p >= 0 {
        proof {
            assert(keep_n == n);
            assert(kept_seq =~= d@);
            assert(q == m);
            let pi = p as int;
            assert(m * pow10(pi as nat) < pow10(n as nat) * pow10(pi as nat)) by {
                lemma_pow10_pos(pi as nat);
                lemma_pow10_pos(n as nat);
                vstd::arithmetic::mul::lemma_mul_strict_inequality(
                    m as int,
                    pow10(n as nat) as int,
                    pow10(pi as nat) as int,
                );
            }
            lemma_pow10_adds(n as nat, pi as nat);
            assert(n as nat + pi as nat == kept as nat);
            lemma_pow10_increases(kept as nat, 21);
            lemma_pow10_values();
        }
        let mul = pow10_u128(p as usize);
        q = q * mul;
    } else {
        let start: usize = keep_n;
        proof {
            lemma_split_drop(d@, keep_n as int, p as int);
            lemma_digits_round_half(d@.skip(keep_n as int));
            assert(d@.skip(keep_n as int)[0] == d@[keep_n as int]);
        }
        let up = d[start] >= ('5' as u8);
        was = has_nonzero_digit(d, start);
        if up {
            q = q + 1;
        }
    }
    proof {
        assert(q == scaled_mag(m, p as int));
        assert(q <= pow10(21nat));
        lemma_pow10_values();
    }
    let bound: u128 = if neg {
        922_337_203_685_477_580_899
    } else {
        922_337_203_685_477_580_799
    };
    if q > bound {
        if neg {
            Rounded { int_part: i64::MIN, frac: 0, was_rounded: was }
        } else {
            Rounded { int_part: i64::MAX, frac: 0, was_rounded: was }
        }
    } else {
        let units: u128 = q / 100;
        let fr: u8 = (q % 100) as u8;
        let ip: i64 = if neg {
            proof {
                assert(units <= 9_223_372_036_854_775_808);
            }
            (-(units as i128)) as i64
        } else {
            proof {
                assert(units <= 9_223_372_036_854_775_807);
            }
            units as i64
        };
        proof {
            let h = hundredths(m, p as int, neg);
            assert(rep_in_range(h));
            if neg {
                assert(h == -(q as int));
                assert(rep_int_part(h) == -((q as int) / 100));
                assert(abs_int(h) == q as nat);
            } else {
                assert(h == q as int);
            }
        }
        Rounded { int_part: ip, frac: fr, was_rounded: was }
    }
}

/// Trailing zeros of the mantissa and the decimal shift trade off
/// exactly: scaling the mantissa by a power of ten and lowering the shift
/// by as much rounds to the same value, with the same remainder test.
pub proof fn lemma_shift_invariance(m: nat, k: nat, p: int)
    ensures
        scaled_mag(m * pow10(k), p) == scaled_mag(m, p + k),
        inexact(m * pow10(k), p) == inexact(m, p + k),
{
    lemma_pow10_pos(k);
    if p >= 0 {
        lemma_pow10_adds(k, p as nat);
        assert((m * pow10(k)) * pow10(p as nat) == m * (pow10(k) * pow10(p as nat)))
            by (nonlinear_arith);
        assert((p + k) as nat == k + p as nat);
        assert(scaled_mag(m, p + k) == m * pow10((p + k) as nat));
    } else if p + k >= 0 {
        let d = pow10((-p) as nat);
        let x = pow10((p + k) as nat);
        lemma_pow10_pos((-p) as nat);
        lemma_pow10_pos((p + k) as nat);
        lemma_pow10_adds((p + k) as nat, (-p) as nat);
        assert((p + k) as nat + (-p) as nat == k);
        assert(pow10(k) == x * d);
        assert(m * pow10(k) == (m * x) * d) by (nonlinear_arith)
            requires
                pow10(k) == x * d,
        ;
        vstd::arithmetic::div_mod::lemma_div_by_multiple((m * x) as int, d as int);
        vstd::arithmetic::div_mod::lemma_mod_multiples_basic((m * x) as int, d as int);
        assert((m * pow10(k)) / d == m * x);
        assert((m * pow10(k)) % d == 0);
        assert(scaled_mag(m * pow10(k), p) == m * x);
        assert(scaled_mag(m, p + k) == m * x);
    } else {
        let t = pow10(k);
        let d1 = pow10((-p) as nat);
        let d2 = pow10((-(p + k)) as nat);
        lemma_pow10_pos((-(p + k)) as nat);
        lemma_pow10_adds((-(p + k)) as nat, k);
        assert((-(p + k)) as nat + k == (-p) as nat);
        assert(d1 == d2 * t);
        let a = m / d2;
        let r = m % d2;
        vstd::arithmetic::div_mod::lemma_fundamental_div_mod(m as int, d2 as int);
        assert(m == d2 * a + r);
        assert(0 <= r < d2);
        assert(m * t == a * d1 + r * t) by (nonlinear_arith)
            requires
                m == d2 * a + r,
                d1 == d2 * t,
        ;
        assert(r * t < d1) by (nonlinear_arith)
            requires
                r < d2,
                d1 == d2 * t,
                t >= 1,
        ;
        assert(r * t >= 0) by (nonlinear_arith)
            requires
                r >= 0,
                t >= 1,
        ;
        vstd::arithmetic::div_mod::lemma_fundamental_div_mod_converse(
            (m * t) as int,
            d1 as int,
            a as int,
            (r * t) as int,
        );
        assert((m * t) / d1 == a);
        assert((m * t) % d1 == r * t);
        assert((2 * (r * t) >= d1) == (2 * r >= d2)) by (nonlinear_arith)
            requires
                d1 == d2 * t,
                t >= 1,
                r >= 0,
                d2 >= 1,
        ;
        assert((r * t != 0) == (r != 0)) by (nonlinear_arith)
            requires
                t >= 1,
                r >= 0,
        ;
    }
}

/// A token's rounded value depends only on the number the token denotes,
/// not on its spelling: two tokens with the same sign whose mantissas and
/// shifts differ only by a traded power of ten round to the same
/// representation. A value written in scientific notation therefore
/// renders exactly as its plain decimal spelling does.
pub proof fn lemma_notation_irrelevant(s1: Seq<u8>, i1: int, s2: Seq<u8>, i2: int, k: nat)
    requires
        mantissa(s1, i1) == mantissa(s2, i2) * pow10(k),
        shift(s1, i1) + k == shift(s2, i2),
        has_minus(s1, i1) == has_minus(s2, i2),
    ensures
        token_rounded(s1, i1) == token_rounded(s2, i2),
{
    lemma_shift_invariance(mantissa(s2, i2), k, shift(s1, i1));
}

/// Rounding is idempotent: the plain decimal text of a rounded value is
/// itself one whole numeric token, it evaluates back to the very same
/// integer and fractional part, and nothing further is rounded away.
/// Re-rendering a rounded value therefore produces the same numeric text,
/// and without the rounding note.
pub proof fn lemma_rounding_idempotent(i: i64, f: u8)
    requires
        f < 100,
    ensures
        ({
            let t = plain_number_text(i as int, f as int);
            &&& t.len() > 0
            &&& token_len_at(t, 0) == t.len()
            &&& token_rounded(t, 0) == (Rounded { int_part: i, frac: f, was_rounded: false })
        }),
{
    let t = plain_number_text(i as int, f as int);
    let m = abs_int(i as int);
    let ds = dec_digits(m);
    let dl = ds.len() as int;
    lemma_dec_digits_val(m);
    lemma_pow10_values();
    let st: int = if i < 0 {
        1
    } else {
        0
    };
    // shape of the text: optional sign, the digits of |i|, optional
    // dot and two fraction digits
    assert(t.len() == st + dl + (if f == 0 {
        0int
    } else {
        3int
    }));
    assert(forall|k: int| st <= k < st + dl ==> t[k] == ds[k - st]);
    assert(has_minus(t, 0) == (i < 0)) by {
        if i >= 0 {
            assert(t[0] == ds[0]);
            assert(is_digit_byte(ds[0]));
        }
    }
    assert(int_start(t, 0) == st);
    let d1 = (('0' as u8) + (f as int) / 10) as u8;
    let d2 = (('0' as u8) + (f as int) % 10) as u8;
    assert(digit_run(t, st) == dl) by {
        if f != 0 {
            assert(t[st + dl] == ('.' as u8));
            lemma_digit_run_exact(t, st, dl);
        } else {
            lemma_digit_run_exact(t, st, dl);
        }
    }
    assert(int_len(t, 0) == dl);
    assert(after_int(t, 0) == st + dl);
    assert(int_digits(t, 0) =~= ds);
    if f == 0 {
        assert(after_int(t, 0) == t.len());
        assert(!has_dot(t, 0));
        assert(frac_digits(t, 0) =~= Seq::<u8>::empty());
        assert(after_frac(t, 0) == t.len());
        assert(!has_exp_marker(t, 0));
        assert(!has_exp(t, 0));
        assert(token_end(t, 0) == t.len());
        assert(token_len_at(t, 0) == t.len());
        assert(int_digits(t, 0) + frac_digits(t, 0) =~= ds);
        assert(mantissa(t, 0) == m);
        assert(frac_len(t, 0) == 0);
    } else {
        assert(t[st + dl] == ('.' as u8));
        assert(has_dot(t, 0));
        assert((f as int) / 10 <= 9);
        assert(t[st + dl + 1] == d1);
        assert(t[st + dl + 2] == d2);
        assert(is_digit_byte(d1));
        assert(is_digit_byte(d2));
        assert(digit_run(t, st + dl + 1) == 2) by {
            lemma_digit_run_exact(t, st + dl + 1, 2);
        }
        assert(frac_len(t, 0) == 2);
        assert(after_frac(t, 0) == t.len());
        assert(!has_exp_marker(t, 0));
        assert(!has_exp(t, 0));
        assert(token_end(t, 0) == t.len());
        assert(token_len_at(t, 0) == t.len());
        assert(frac_digits(t, 0) =~= seq![d1, d2]);
        let w = ds + seq![d1, d2];
        assert(int_digits(t, 0) + frac_digits(t, 0) =~= w);
        assert(w.drop_last() =~= ds + seq![d1]);
        assert(w.last() == d2);
        assert((ds + seq![d1]).drop_last() =~= ds);
        assert((ds + seq![d1]).last() == d1);
        assert(digits_val(ds + seq![d1]) == m * 10 + (f as int) / 10);
        assert(digits_val(w) == (m * 10 + (f as int) / 10) * 10 + (f as int) % 10);
        assert(((f as int) / 10) * 10 + (f as int) % 10 == f as int) by {
            vstd::arithmetic::div_mod::lemma_fundamental_div_mod(f as int, 10);
        }
        assert(mantissa(t, 0) == m * 100 + f);
    }
    // no exponent part: the shift is two minus the fraction digit count
    assert(exp_digits(t, 0) =~= Seq::<u8>::empty());
    assert(digits_val(Seq::<u8>::empty()) == 0);
    assert(exp_val(t, 0) == 0);
    let p = shift(t, 0);
    assert(p >= 0);
    let mm = mantissa(t, 0);
    assert(scaled_mag(mm, p) == mm * pow10(p as nat));
    assert(mm * pow10(p as nat) == m * 100 + f) by {
        if f == 0 {
            assert(p == 2);
            assert(pow10(2) == 100);
            assert(m * 100 + 0 == m * 100);
        } else {
            assert(p == 0);
            assert(pow10(0) == 1);
            assert((m * 100 + f) * 1 == m * 100 + f);
        }
    }
    assert(!inexact(mm, p));
    let h = token_value_hundredths(t, 0);
    vstd::arithmetic::div_mod::lemma_fundamental_div_mod_converse(
        (m * 100 + f) as int,
        100,
        m as int,
        f as int,
    );
    if i < 0 {
        assert(h == -((m * 100 + f) as int));
        assert(m <= 9_223_372_036_854_775_808);
        assert(rep_in_range(h));
        assert(rep_int_part(h) == -(m as int));
        assert(abs_int(h) == m * 100 + f);
        assert(rep_frac(h) == f);
    } else {
        assert(h == m * 100 + f);
        assert(m <= 9_223_372_036_854_775_807);
        assert(rep_in_range(h));
        assert(rep_int_part(h) == m as int);
        assert(rep_frac(h) == f);
    }
}

/// Splitting the digit string where rounding drops the tail: the kept
/// prefix is the quotient and the dropped suffix the remainder.
proof fn lemma_split_drop(s: Seq<u8>, at: int, p: int)
    requires
        all_digit_bytes(s),
        p < 0,
        0 <= at < s.len(),
        s.len() - at == -p,
    ensures
        digits_val(s) / pow10((-p) as nat) == digits_val(s.take(at)),
        digits_val(s) % pow10((-p) as nat) == digits_val(s.skip(at)),
        all_digit_bytes(s.skip(at)),
        s.skip(at).len() == -p,
{
    lemma_digits_val_split(s, at);
    lemma_all_digits_skip(s, at);
    lemma_digits_val_bound(s.skip(at));
    lemma_pow10_pos((-p) as nat);
    vstd::arithmetic::div_mod::lemma_fundamental_div_mod_converse(
        digits_val(s) as int,
        pow10((-p) as nat) as int,
        digits_val(s.take(at)) as int,
        digits_val(s.skip(at)) as int,
    );
}

/// The largest exponent magnitude kept exactly; beyond it the shift is so
/// extreme that only its sign matters.
pub const EXP_CAP: u128 = 1_000_000_000_000_000_000_000_000_000_000;

/// An exponent magnitude clamped at the cap.
pub open spec fn clamp_exp(m: nat) -> nat {
    if m > EXP_CAP {
        EXP_CAP as nat
    } else {
        m
    }
}

/// Copies the significant digits of the token at `i` — integer digits,
/// then fractional digits, with leading zeros stripped.
fn collect_sig_digits(s: &Vec<u8>, parts: &TokenParts, Ghost(i): Ghost<int>) -> (d: Vec<u8>)
    requires
        0 <= i <= s@.len(),
        parts.matches(s@, i),
    ensures
        all_digit_bytes(d@),
        d@.len() > 0 ==> d@[0] != ('0' as u8),
        digits_val(d@) == mantissa(s@, i),
{
    let ghost int_seq = int_digits(s@, i);
    let ghost fr_seq = frac_digits(s@, i);
    proof {
        lemma_digit_run_facts(s@, int_start(s@, i));
        if has_dot(s@, i) {
            lemma_digit_run_facts(s@, after_int(s@, i) + 1);
        }
    }
    let mut all: Vec<u8> = Vec::new();
    let mut j: usize = parts.int_start;
    while j < parts.int_end
        invariant
            parts.int_start <= j <= parts.int_end,
            parts.int_end <= s@.len(),
            all@ == s@.subrange(parts.int_start as int, j as int),
        decreases parts.int_end - j,
    {
        all.push(s[j]);
        assert(all@ =~= s@.subrange(parts.int_start as int, j + 1));
        j = j + 1;
    }
    assert(all@ == int_seq);
    if parts.has_dot {
        let mut k: usize = parts.int_end + 1;
        while k < parts.frac_end
            invariant
                parts.int_end + 1 <= k <= parts.frac_end,
                parts.frac_end <= s@.len(),
                all@ == int_seq + s@.subrange(parts.int_end + 1, k as int),
            decreases parts.frac_end - k,
        {
            all.push(s[k]);
            assert(all@ =~= int_seq + s@.subrange(parts.int_end + 1, k + 1));
            k = k + 1;
        }
    }
    assert(all@ =~= int_seq + fr_seq);
    proof {
        assert(all_digit_bytes(all@)) by {
            assert(forall|t: int|
                0 <= t < int_seq.len() ==> all@[t] == s@[int_start(s@, i) + t] && is_digit_byte(
                    s@[int_start(s@, i) + t],
                ));
            assert(forall|t: int|
                int_seq.len() <= t < all@.len() ==> all@[t] == s@[after_int(s@, i) + 1 + (t
                    - int_seq.len())] && is_digit_byte(s@[after_int(s@, i) + 1 + (t - int_seq.len())]));
        }
    }
    let mut z: usize = 0;
    while z < all.len() && all[z] == ('0' as u8)
        invariant
            z <= all@.len(),
            forall|t: int| 0 <= t < z ==> all@[t] == ('0' as u8),
        decreases all@.len() - z,
    {
        z = z + 1;
    }
    let mut d: Vec<u8> = Vec::new();
    let mut t: usize = z;
    while t < all.len()
        invariant
            z <= t <= all@.len(),
            d@ == all@.subrange(z as int, t as int),
        decreases all@.len() - t,
    {
        d.push(all[t]);
        assert(d@ =~= all@.subrange(z as int, t + 1));
        t = t + 1;
    }
    proof {
        assert(d@ =~= all@.skip(z as int));
        crate::digits::lemma_digits_val_skip_zeros(all@, z as int);
        lemma_all_digits_skip(all@, z as int);
        if d@.len() > 0 {
            assert(d@[0] == all@[z as int]);
        }
    }
    d
}

/// Reads the exponent digits of the token at `i`, clamped at the cap.
fn exp_value_clamped(s: &Vec<u8>, parts: &TokenParts, Ghost(i): Ghost<int>) -> (x: u128)
    requires
        0 <= i <= s@.len(),
        parts.matches(s@, i),
    ensures
        x == clamp_exp(digits_val(exp_digits(s@, i))),
{
    if !parts.has_exp {
        proof {
            assert(exp_digits(s@, i) =~= Seq::<u8>::empty());
        }
        return 0;
    }
    let ghost eseq = exp_digits(s@, i);
    proof {
        lemma_digit_run_facts(s@, exp_digits_start(s@, i));
        assert(all_digit_bytes(eseq)) by {
            assert(forall|t: int|
                0 <= t < eseq.len() ==> eseq[t] == s@[exp_digits_start(s@, i) + t]
                    && is_digit_byte(s@[exp_digits_start(s@, i) + t]));
        }
    }
    let mut x: u128 = 0;
    let mut j: usize = parts.exp_start;
    while j < parts.exp_end
        invariant
            parts.exp_start <= j <= parts.exp_end,
            parts.exp_end <= s@.len(),
            eseq == exp_digits(s@, i),
            all_digit_bytes(eseq),
            eseq.len() == parts.exp_end - parts.exp_start,
            parts.exp_start == exp_digits_start(s@, i),
            forall|t: int| 0 <= t < eseq.len() ==> eseq[t] == s@[exp_digits_start(s@, i) + t],
            x == clamp_exp(digits_val(eseq.take(j - parts.exp_start))),
            x <= EXP_CAP,
        decreases parts.exp_end - j,
    {
        proof {
            let pref = eseq.take(j - parts.exp_start);
            let pref1 = eseq.take(j + 1 - parts.exp_start);
            assert(pref1.drop_last() =~= pref);
            assert(pref1.last() == s@[j as int]);
            assert(is_digit_byte(eseq[j - parts.exp_start]));
            assert(digits_val(pref1) == digits_val(pref) * 10 + (s@[j as int] - ('0' as u8))
                as nat);
        }
        let dig = (s[j] - ('0' as u8)) as u128;
        let nxt = x * 10 + dig;
        if nxt > EXP_CAP {
            x = EXP_CAP;
        } else {
            x = nxt;
        }
        j = j + 1;
    }
    assert(eseq.take(eseq.len() as int) =~= eseq);
    x
}

/// Evaluates the token at `i` into its rounded, clamped representation.
pub(crate) fn eval_token(s: &Vec<u8>, parts: &TokenParts, Ghost(i): Ghost<int>) -> (r: Rounded)
    requires
        0 <= i <= s@.len(),
        parts.matches(s@, i),
    ensures
        r == token_rounded(s@, i),
        r.wf(),
{
    let d = collect_sig_digits(s, parts, Ghost(i));
    let x = exp_value_clamped(s, parts, Ghost(i));
    proof {
        lemma_digit_run_facts(s@, int_start(s@, i));
        if has_dot(s@, i) {
            lemma_digit_run_facts(s@, after_int(s@, i) + 1);
        }
        assert(parts.has_dot ==> parts.frac_end >= parts.int_end + 1);
    }
    let fl: i128 = if parts.has_dot {
        (parts.frac_end - (parts.int_end + 1)) as i128
    } else {
        0
    };
    assert(fl == frac_len(s@, i));
    let xs: i128 = if parts.exp_neg {
        -(x as i128)
    } else {
        x as i128
    };
    let p: i128 = xs - fl + 2;
    let n_exec: usize = d.len();
    let r = eval_digits(&d, p, parts.neg);
    proof {
        let xm = digits_val(exp_digits(s@, i));
        let m = mantissa(s@, i);
        let n = d@.len();
        assert(n == n_exec);
        assert(digits_val(d@) == m);
        lemma_digits_val_bound(d@);
        if xm <= EXP_CAP {
            assert(x == xm);
            assert(p as int == shift(s@, i));
        } else {
            assert(x == EXP_CAP);
            assert(n <= usize::MAX);
            if parts.exp_neg {
                assert(p + n + 1 <= 0);
                assert(shift(s@, i) + n + 1 <= 0);
                lemma_tiny_shift(m, n as nat, p as int);
                lemma_tiny_shift(m, n as nat, shift(s@, i));
            } else {
                if m == 0 {
                    lemma_scaled_mag_zero(p as int);
                    lemma_scaled_mag_zero(shift(s@, i));
                } else {
                    lemma_digits_val_first(d@);
                    lemma_pow10_pos((n - 1) as nat);
                    vstd::arithmetic::mul::lemma_mul_inequality(
                        1,
                        (d@[0] - ('0' as u8)) as int,
                        pow10((n - 1) as nat) as int,
                    );
                    assert(1 * pow10((n - 1) as nat) == pow10((n - 1) as nat));
                    assert(m >= 1);
                    assert(p >= 22);
                    assert(shift(s@, i) >= 22);
                    lemma_big_shift(m, p as int);
                    lemma_big_shift(m, shift(s@, i));
                }
            }
        }
    }
    r
}

/// Parses a byte string that consists of exactly one numeric token,
/// returning its rounded, clamped representation; returns nothing when the
/// string is empty, or when any of it lies outside the one token.
pub fn parse_number(s: &Vec<u8>) -> (r: Option<Rounded>)
    ensures
        match r {
            Some(v) => s@.len() > 0 && token_len_at(s@, 0) == s@.len() && v == token_rounded(
                s@,
                0,
            ) && v.wf(),
            None => !(s@.len() > 0 && token_len_at(s@, 0) == s@.len()),
        },
{
    let t = try_token_at(s, 0);
    match t {
        None => None,
        Some(parts) => {
            if parts.end == s.len() {
                Some(eval_token(s, &parts, Ghost(0)))
            } else {
                None
            }
        },
    }
}

/// A prefix of a digit string consists of digits.
proof fn lemma_all_digits_take(s: Seq<u8>, k: int)
    requires
        all_digit_bytes(s),
        0 <= k <= s.len(),
    ensures
        all_digit_bytes(s.take(k)),
{
    assert(forall|t: int| 0 <= t < k ==> s.take(k)[t] == s[t]);
}

/// A suffix of a digit string consists of digits.
proof fn lemma_all_digits_skip(s: Seq<u8>, k: int)
    requires
        all_digit_bytes(s),
        0 <= k <= s.len(),
    ensures
        all_digit_bytes(s.skip(k)),
{
    assert(forall|t: int|
        0 <= t < s.len() - k ==> s.skip(k)[t] == s[t + k] && is_digit_byte(s[t + k]));
}

} // verus!
