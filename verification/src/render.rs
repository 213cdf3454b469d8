//! Textual rendering of a rounded value: the integer part grouped with
//! comma thousand separators, followed by a two-digit fractional part when
//! it is nonzero.

use vstd::prelude::*;
use crate::digits::abs_int;
use crate::digits::dec_digits;
use crate::digits::lemma_dec_digits_val;
use crate::digits::push_dec_digits;

verus! {

/// A digit string with a comma inserted every three digits, counted from
/// the right.
pub open spec fn with_commas(q: Seq<u8>) -> Seq<u8>
    decreases q.len(),
{
    if q.len() <= 3 {
        q
    } else {
        with_commas(q.take(q.len() - 3)) + seq![(',' as u8)] + q.skip(q.len() - 3)
    }
}

/// The two zero-padded digits of a fractional part in hundredths.
pub open spec fn frac_two_digits(f: int) -> Seq<u8> {
    seq![(('0' as u8) + f / 10) as u8, (('0' as u8) + f % 10) as u8]
}

/// The rendered text of a rounded value: sign, comma-grouped digits of the
/// absolute integer part, and `.` plus two digits when the fractional part
/// is nonzero.
pub open spec fn number_text(i: int, f: int) -> Seq<u8> {
    let grouped = with_commas(dec_digits(abs_int(i)));
    let signed = if i < 0 {
        seq![('-' as u8)] + grouped
    } else {
        grouped
    };
    if f == 0 {
        signed
    } else {
        signed + seq![('.' as u8)] + frac_two_digits(f)
    }
}

/// Groups the digit string `ds[0..end]` with comma separators.
fn group_digits(ds: &Vec<u8>, end: usize) -> (out: Vec<u8>)
    requires
        end <= ds@.len(),
    ensures
        out@ == with_commas(ds@.take(end as int)),
    decreases end,
{
    if end <= 3 {
        let mut out: Vec<u8> = Vec::new();
        let mut j: usize = 0;
        while j < end
            invariant
                j <= end,
                end <= ds@.len(),
                out@ == ds@.subrange(0, j as int),
            decreases end - j,
        {
            out.push(ds[j]);
            assert(out@ =~= ds@.subrange(0, j + 1));
            j = j + 1;
        }
        assert(out@ =~= ds@.take(end as int));
        out
    } else {
        let mut out = group_digits(ds, end - 3);
        out.push(',' as u8);
        out.push(ds[end - 3]);
        out.push(ds[end - 2]);
        out.push(ds[end - 1]);
        proof {
            let whole = ds@.take(end as int);
            assert(whole.take(whole.len() - 3) =~= ds@.take(end - 3));
            assert(whole.skip(whole.len() - 3) =~= seq![
                ds@[end - 3],
                ds@[end - 2],
                ds@[end - 1],
            ]);
            assert(out@ =~= with_commas(ds@.take(end - 3)) + seq![(',' as u8)] + whole.skip(
                whole.len() - 3,
            ));
        }
        out
    }
}

/// The rendered text of a rounded value without separators: what the
/// value reads as a plain decimal numeral.
pub open spec fn plain_number_text(i: int, f: int) -> Seq<u8> {
    let ds = dec_digits(abs_int(i));
    let signed = if i < 0 {
        seq![('-' as u8)] + ds
    } else {
        ds
    };
    if f == 0 {
        signed
    } else {
        signed + seq![('.' as u8)] + frac_two_digits(f)
    }
}

/// Copies a byte vector.
pub fn copy_bytes(v: &Vec<u8>) -> (out: Vec<u8>)
    ensures
        out@ == v@,
{
    let mut out: Vec<u8> = Vec::new();
    let mut j: usize = 0;
    while j < v.len()
        invariant
            j <= v@.len(),
            out@ == v@.subrange(0, j as int),
        decreases v@.len() - j,
    {
        out.push(v[j]);
        assert(out@ =~= v@.subrange(0, j + 1));
        j = j + 1;
    }
    assert(out@ =~= v@);
    out
}

/// The absolute value of `i` as an unsigned 64-bit integer.
fn abs_u64(i: i64) -> (m: u64)
    ensures
        m == abs_int(i as int),
{
    if i >= 0 {
        i as u64
    } else {
        let wide: i128 = -(i as i128);
        assert(0 < wide <= 0x8000_0000_0000_0000);
        wide as u64
    }
}

/// Renders a rounded value as text: comma-grouped integer part with its
/// sign, then a two-digit fractional part when it is nonzero.
pub fn format_number_with_separators(int_part: i64, frac: u8) -> (out: Vec<u8>)
    requires
        frac < 100,
    ensures
        out@ == number_text(int_part as int, frac as int),
{
    let mag = abs_u64(int_part);
    let mut ds: Vec<u8> = Vec::new();
    push_dec_digits(mag, &mut ds);
    proof {
        lemma_dec_digits_val(mag as nat);
    }
    let grouped = group_digits(&ds, ds.len());
    proof {
        assert(ds@.take(ds@.len() as int) =~= ds@);
    }
    let mut out: Vec<u8> = Vec::new();
    if int_part < 0 {
        out.push('-' as u8);
    }
    let mut tail = grouped;
    out.append(&mut tail);
    if frac != 0 {
        out.push('.' as u8);
        out.push('0' as u8 + frac / 10);
        out.push('0' as u8 + frac % 10);
    }
    proof {
        assert(out@ =~= number_text(int_part as int, frac as int));
    }
    out
}

} // verus!
