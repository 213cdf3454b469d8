//! Decimal digit arithmetic: powers of ten, the value denoted by a sequence
//! of digit bytes, and the canonical digit string of a number.

use vstd::prelude::*;

verus! {

/// An ASCII decimal digit.
pub open spec fn is_digit_byte(b: u8) -> bool {
    ('0' as u8) <= b && b <= ('9' as u8)
}

/// Every byte of `s` is an ASCII decimal digit.
pub open spec fn all_digit_bytes(s: Seq<u8>) -> bool {
    forall|k: int| 0 <= k < s.len() ==> is_digit_byte(s[k])
}

/// The absolute value of an integer, as a natural number.
pub open spec fn abs_int(i: int) -> nat {
    if i >= 0 {
        i as nat
    } else {
        (-i) as nat
    }
}

/// Ten to the power `e`.
pub open spec fn pow10(e: nat) -> nat
    decreases e,
{
    if e == 0 {
        1
    } else {
        10 * pow10((e - 1) as nat)
    }
}

/// The number denoted by a big-endian sequence of decimal digit bytes.
pub open spec fn digits_val(s: Seq<u8>) -> nat
    decreases s.len(),
{
    if s.len() == 0 {
        0
    } else {
        digits_val(s.drop_last()) * 10 + (s.last() - ('0' as u8)) as nat
    }
}

/// The canonical (no leading zero) digit string of `n`.
pub open spec fn dec_digits(n: nat) -> Seq<u8>
    decreases n,
{
    if n < 10 {
        seq![(('0' as u8) + n) as u8]
    } else {
        dec_digits(n / 10) + seq![(('0' as u8) + n % 10) as u8]
    }
}

pub proof fn lemma_pow10_pos(e: nat)
    ensures
        pow10(e) >= 1,
    decreases e,
{
    if e > 0 {
        lemma_pow10_pos((e - 1) as nat);
    }
}

pub proof fn lemma_pow10_adds(a: nat, b: nat)
    ensures
        pow10(a + b) == pow10(a) * pow10(b),
    decreases a,
{
    if a == 0 {
        assert(pow10(a) == 1);
        assert(a + b == b);
        assert(pow10(a + b) == pow10(b));
        assert(pow10(a + b) == pow10(a) * pow10(b));
    } else {
        lemma_pow10_adds((a - 1) as nat, b);
        let x = pow10((a - 1) as nat) as int;
        let y = pow10(b) as int;
        assert((a - 1) as nat + b == (a + b - 1) as nat);
        assert(pow10(a + b) == 10 * (x * y));
        assert(pow10(a) == 10 * x);
        assert(pow10(a + b) == pow10(a) * pow10(b)) by (nonlinear_arith)
            requires
                pow10(a + b) == 10 * (x * y),
                pow10(a) == 10 * x,
                pow10(b) == y,
        ;
    }
}

pub proof fn lemma_pow10_increases(a: nat, b: nat)
    requires
        a <= b,
    ensures
        pow10(a) <= pow10(b),
    decreases b,
{
    if a < b {
        lemma_pow10_increases(a, (b - 1) as nat);
        lemma_pow10_pos((b - 1) as nat);
    }
}

/// A digit string denotes less than ten to its length.
pub proof fn lemma_digits_val_bound(s: Seq<u8>)
    requires
        all_digit_bytes(s),
    ensures
        digits_val(s) < pow10(s.len() as nat),
    decreases s.len(),
{
    if s.len() > 0 {
        lemma_digits_val_bound(s.drop_last());
        assert(is_digit_byte(s[s.len() - 1]));
    }
}

/// A digit string whose first digit is `d` denotes at least `d` shifted
/// past the remaining digits.
pub proof fn lemma_digits_val_first(s: Seq<u8>)
    requires
        all_digit_bytes(s),
        s.len() > 0,
    ensures
        digits_val(s) >= (s[0] - ('0' as u8)) * pow10((s.len() - 1) as nat),
    decreases s.len(),
{
    if s.len() == 1 {
        assert(s.drop_last().len() == 0);
        assert(pow10((s.len() - 1) as nat) == 1);
    } else {
        let t = s.drop_last();
        lemma_digits_val_first(t);
        let d0 = (s[0] - ('0' as u8)) as int;
        let p = pow10((s.len() - 2) as nat) as int;
        let tv = digits_val(t) as int;
        let dl = (s.last() - ('0' as u8)) as int;
        assert(t[0] == s[0]);
        assert(tv >= d0 * p);
        assert(digits_val(s) == tv * 10 + dl);
        assert(is_digit_byte(s[s.len() - 1]));
        assert(dl >= 0);
        assert(pow10((s.len() - 1) as nat) == 10 * p);
        assert(tv * 10 + dl >= d0 * (10 * p)) by (nonlinear_arith)
            requires
                tv >= d0 * p,
                dl >= 0,
        ;
    }
}

/// Splitting a digit string at `k` splits its value.
pub proof fn lemma_digits_val_split(s: Seq<u8>, k: int)
    requires
        all_digit_bytes(s),
        0 <= k <= s.len(),
    ensures
        digits_val(s) == digits_val(s.take(k)) * pow10((s.len() - k) as nat) + digits_val(
            s.skip(k),
        ),
    decreases s.len() - k,
{
    if k == s.len() {
        assert(s.take(k) =~= s);
        assert(s.skip(k).len() == 0);
        assert(digits_val(s.skip(k)) == 0);
        assert(pow10((s.len() - k) as nat) == 1);
        assert(digits_val(s.take(k)) * 1 == digits_val(s.take(k))) by (nonlinear_arith);
    } else {
        let t = s.drop_last();
        lemma_digits_val_split(t, k);
        assert(t.take(k) =~= s.take(k));
        assert(t.skip(k) =~= s.skip(k).drop_last());
        assert(s.skip(k).last() == s.last());
        let q = digits_val(s.take(k)) as int;
        let r = digits_val(s.skip(k).drop_last()) as int;
        let d = (s.last() - ('0' as u8)) as int;
        let pm = pow10((s.len() - 1 - k) as nat) as int;
        let tv = digits_val(t) as int;
        assert(is_digit_byte(s[s.len() - 1]));
        assert((t.len() - k) as nat == (s.len() - 1 - k) as nat);
        assert(tv == q * pm + r);
        assert(s.len() > 0 && digits_val(s) == digits_val(s.drop_last()) * 10 + (s.last() - (
        '0' as u8)) as nat);
        assert(digits_val(s) == tv * 10 + d);
        assert(s.skip(k).len() > 0);
        assert(digits_val(s.skip(k)) == digits_val(s.skip(k).drop_last()) * 10 + (s.skip(
            k,
        ).last() - ('0' as u8)) as nat);
        assert(digits_val(s.skip(k)) == r * 10 + d);
        assert(pow10((s.len() - k) as nat) == 10 * pm);
        assert(digits_val(s) == digits_val(s.take(k)) * pow10((s.len() - k) as nat) + digits_val(
            s.skip(k),
        )) by (nonlinear_arith)
            requires
                digits_val(s) == tv * 10 + d,
                tv == q * pm + r,
                digits_val(s.skip(k)) == r * 10 + d,
                digits_val(s.take(k)) == q,
                pow10((s.len() - k) as nat) == 10 * pm,
        ;
    }
}

/// Leading zero digits do not change the denoted value.
pub proof fn lemma_digits_val_skip_zeros(s: Seq<u8>, k: int)
    requires
        all_digit_bytes(s),
        0 <= k <= s.len(),
        forall|j: int| 0 <= j < k ==> s[j] == ('0' as u8),
    ensures
        digits_val(s.skip(k)) == digits_val(s),
{
    lemma_digits_val_split(s, k);
    lemma_digits_val_zeros(s.take(k));
}

/// A string of zero digits denotes zero.
pub proof fn lemma_digits_val_zeros(s: Seq<u8>)
    requires
        forall|j: int| 0 <= j < s.len() ==> s[j] == ('0' as u8),
    ensures
        digits_val(s) == 0,
    decreases s.len(),
{
    if s.len() > 0 {
        lemma_digits_val_zeros(s.drop_last());
        assert(s.last() == ('0' as u8));
    }
}

/// The canonical digit string of `n` denotes `n`, consists of digits, and
/// has no leading zero unless `n` is zero itself.
pub proof fn lemma_dec_digits_val(n: nat)
    ensures
        digits_val(dec_digits(n)) == n,
        all_digit_bytes(dec_digits(n)),
        dec_digits(n).len() >= 1,
        n > 0 ==> dec_digits(n)[0] != ('0' as u8),
    decreases n,
{
    if n < 10 {
        let s = dec_digits(n);
        reveal_with_fuel(digits_val, 2);
        assert(s.drop_last().len() == 0);
        assert(s.last() == (('0' as u8) + n) as u8);
    } else {
        lemma_dec_digits_val(n / 10);
        let s = dec_digits(n);
        assert(s.drop_last() == dec_digits(n / 10));
        assert(s.last() == (('0' as u8) + n % 10) as u8);
        assert(digits_val(s) == (n / 10) * 10 + n % 10);
        assert((n / 10) * 10 + n % 10 == n) by {
            vstd::arithmetic::div_mod::lemma_fundamental_div_mod(n as int, 10);
        }
    }
}

/// A digit string denotes less than one more than its first digit, shifted
/// past the remaining digits.
pub proof fn lemma_digits_val_first_upper(s: Seq<u8>)
    requires
        all_digit_bytes(s),
        s.len() > 0,
    ensures
        digits_val(s) < ((s[0] - ('0' as u8)) + 1) * pow10((s.len() - 1) as nat),
    decreases s.len(),
{
    if s.len() == 1 {
        reveal_with_fuel(digits_val, 2);
        assert(s.drop_last().len() == 0);
        assert(pow10((s.len() - 1) as nat) == 1);
        assert(digits_val(s) == (s[0] - ('0' as u8)) as nat);
    } else {
        let t = s.drop_last();
        lemma_digits_val_first_upper(t);
        lemma_pow10_pos((s.len() - 2) as nat);
        let d0 = (s[0] - ('0' as u8)) as int;
        let p = pow10((s.len() - 2) as nat) as int;
        let tv = digits_val(t) as int;
        let dl = (s.last() - ('0' as u8)) as int;
        assert(t[0] == s[0]);
        assert(tv < (d0 + 1) * p);
        assert(digits_val(s) == tv * 10 + dl);
        assert(is_digit_byte(s[s.len() - 1]));
        assert(dl <= 9);
        assert(pow10((s.len() - 1) as nat) == 10 * p);
        assert(tv * 10 + dl < (d0 + 1) * (10 * p)) by (nonlinear_arith)
            requires
                tv < (d0 + 1) * p,
                dl <= 9,
                p >= 1,
        ;
    }
}

/// Whether twice a digit string's value reaches ten to its length is
/// decided by its first digit alone.
pub proof fn lemma_digits_round_half(s: Seq<u8>)
    requires
        all_digit_bytes(s),
        s.len() > 0,
    ensures
        2 * digits_val(s) >= pow10(s.len() as nat) <==> s[0] >= ('5' as u8),
{
    let d0 = (s[0] - ('0' as u8)) as int;
    let p = pow10((s.len() - 1) as nat) as int;
    let v = digits_val(s) as int;
    lemma_digits_val_first(s);
    lemma_digits_val_first_upper(s);
    lemma_pow10_pos((s.len() - 1) as nat);
    assert(pow10(s.len() as nat) == 10 * p);
    if s[0] >= ('5' as u8) {
        assert(d0 >= 5);
        assert(v >= d0 * p);
        assert(d0 * p >= 5 * p) by (nonlinear_arith)
            requires
                d0 >= 5,
                p >= 0,
        ;
        assert(2 * v >= 10 * p);
    } else {
        assert(d0 <= 4);
        assert(v < (d0 + 1) * p);
        assert((d0 + 1) * p <= 5 * p) by (nonlinear_arith)
            requires
                d0 + 1 <= 5,
                p >= 0,
        ;
        assert(2 * v < 10 * p);
    }
}

/// A digit string denotes zero exactly when all its digits are zero.
pub proof fn lemma_digits_val_zero_iff(s: Seq<u8>)
    requires
        all_digit_bytes(s),
    ensures
        digits_val(s) == 0 <==> (forall|k: int| 0 <= k < s.len() ==> s[k] == ('0' as u8)),
    decreases s.len(),
{
    if s.len() > 0 {
        let t = s.drop_last();
        lemma_digits_val_zero_iff(t);
        assert(is_digit_byte(s[s.len() - 1]));
        assert(digits_val(s) == digits_val(t) * 10 + (s.last() - ('0' as u8)) as nat);
        if digits_val(s) == 0 {
            assert(digits_val(t) == 0);
            assert(s[s.len() - 1] == ('0' as u8));
            assert forall|k: int| 0 <= k < s.len() implies s[k] == ('0' as u8) by {
                if k < s.len() - 1 {
                    assert(t[k] == s[k]);
                }
            }
        } else {
            if forall|k: int| 0 <= k < s.len() ==> s[k] == ('0' as u8) {
                lemma_digits_val_zeros(s);
            }
        }
    }
}

/// The numeric values of the low powers of ten used for bounds.
pub proof fn lemma_pow10_values()
    ensures
        pow10(1) == 10,
        pow10(2) == 100,
        pow10(21) == 1_000_000_000_000_000_000_000,
        pow10(22) == 10_000_000_000_000_000_000_000,
{
    reveal_with_fuel(pow10, 23);
}

/// Appends the decimal digit string of `v` to `out`.
pub fn push_dec_digits(v: u64, out: &mut Vec<u8>)
    ensures
        final(out)@ == old(out)@ + dec_digits(v as nat),
    decreases v,
{
    if v < 10 {
        out.push(('0' as u8) + (v as u8));
    } else {
        push_dec_digits(v / 10, out);
        out.push(('0' as u8) + ((v % 10) as u8));
        assert(dec_digits(v as nat) == dec_digits((v / 10) as nat) + seq![
            (('0' as u8) + (v as nat) % 10) as u8,
        ]);
    }
}

} // verus!
