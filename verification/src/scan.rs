//! Text scanning: every numeric token in the text, found left to right
//! without overlap, is replaced by its rounded value rendered with
//! separators; all other bytes pass through unchanged. Text mode carries
//! no rounding note and no magnitude label.

use vstd::prelude::*;
use crate::number::eval_token;
use crate::number::token_rounded;
use crate::render::format_number_with_separators;
use crate::render::number_text;
use crate::token::lemma_token_len_bounds;
use crate::token::token_len_at;
use crate::token::try_token_at;

verus! {

/// The replacement text for the token at `i`: its rounded value with
/// separators.
pub open spec fn replacement_at(s: Seq<u8>, i: int) -> Seq<u8> {
    let r = token_rounded(s, i);
    number_text(r.int_part as int, r.frac as int)
}

/// The scanned form of `s` from position `i` on: each position either
/// starts a token, which is replaced and skipped whole, or contributes
/// its byte unchanged.
pub open spec fn scan_from(s: Seq<u8>, i: int) -> Seq<u8>
    decreases s.len() - i,
    when 0 <= i
    via scan_from_decreases
{
    if i < 0 || i >= s.len() {
        Seq::empty()
    } else {
        let l = token_len_at(s, i);
        if l > 0 {
            replacement_at(s, i) + scan_from(s, i + l)
        } else {
            seq![s[i]] + scan_from(s, i + 1)
        }
    }
}

#[via_fn]
proof fn scan_from_decreases(s: Seq<u8>, i: int) {
    if 0 <= i < s.len() {
        lemma_token_len_bounds(s, i);
    }
}

/// Replaces every numeric token of `s`, leaving the rest unchanged.
pub fn process_text_with_numbers(s: &Vec<u8>) -> (out: Vec<u8>)
    ensures
        out@ == scan_from(s@, 0),
{
    let mut out: Vec<u8> = Vec::new();
    let mut i: usize = 0;
    while i < s.len()
        invariant
            i <= s@.len(),
            out@ + scan_from(s@, i as int) == scan_from(s@, 0),
        decreases s@.len() - i,
    {
        let ghost pre = out@;
        match try_token_at(s, i) {
            Some(parts) => {
                proof {
                    lemma_token_len_bounds(s@, i as int);
                }
                let r = eval_token(s, &parts, Ghost(i as int));
                let mut piece = format_number_with_separators(r.int_part, r.frac);
                out.append(&mut piece);
                proof {
                    assert(scan_from(s@, i as int) == replacement_at(s@, i as int) + scan_from(
                        s@,
                        parts.end as int,
                    ));
                    assert(out@ + scan_from(s@, parts.end as int) =~= pre + scan_from(
                        s@,
                        i as int,
                    ));
                }
                i = parts.end;
            },
            None => {
                out.push(s[i]);
                proof {
                    assert(scan_from(s@, i as int) == seq![s@[i as int]] + scan_from(s@, i + 1));
                    assert(out@ + scan_from(s@, i + 1) =~= pre + scan_from(s@, i as int));
                }
                i = i + 1;
            },
        }
    }
    proof {
        assert(scan_from(s@, s@.len() as int) =~= Seq::<u8>::empty());
        assert(out@ + scan_from(s@, s@.len() as int) =~= out@);
    }
    out
}

/// Text without a single numeric token scans to itself, unchanged.
pub proof fn lemma_scan_without_tokens_is_identity(s: Seq<u8>)
    requires
        forall|i: int| 0 <= i < s.len() ==> token_len_at(s, i) == 0,
    ensures
        scan_from(s, 0) == s,
{
    lemma_scan_from_no_tokens(s, 0);
    assert(s.skip(0) =~= s);
}

proof fn lemma_scan_from_no_tokens(s: Seq<u8>, i: int)
    requires
        0 <= i <= s.len(),
        forall|k: int| i <= k < s.len() ==> token_len_at(s, k) == 0,
    ensures
        scan_from(s, i) == s.skip(i),
    decreases s.len() - i,
{
    if i < s.len() {
        lemma_scan_from_no_tokens(s, i + 1);
        assert(s.skip(i) =~= seq![s[i]] + s.skip(i + 1));
    } else {
        assert(s.skip(i) =~= Seq::<u8>::empty());
    }
}

} // verus!
