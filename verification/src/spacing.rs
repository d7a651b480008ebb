//! How the text around a position bears on what the lexer reads there: the
//! bytes before it do not matter, nor does whitespace that it skips, and a
//! token that ends before some whitespace reads nothing beyond it.

use vstd::prelude::*;
use crate::chars::{is_ws_byte, is_digit_byte, is_alnum_byte, BACKSLASH, QUOTE, DOT};
use crate::lexer::{
    after_whitespace, word_end, number_end, string_end, lex_step, tokens_from, pos_after,
    lemma_after_whitespace, lemma_word_end, lemma_number_end, lemma_string_end, lemma_lex_step,
    lemma_pos_after,
};

verus! {

// ---------------------------------------------------------------------------
// Text before a position
// ---------------------------------------------------------------------------

proof fn shift_after_whitespace(x: Seq<u8>, y: Seq<u8>, p: int)
    requires
        0 <= p <= y.len(),
    ensures
        after_whitespace(x + y, x.len() + p) == x.len() + after_whitespace(y, p),
    decreases y.len() - p,
{
    if p < y.len() {
        assert((x + y)[x.len() + p] == y[p]);
        if is_ws_byte(y[p]) {
            shift_after_whitespace(x, y, p + 1);
        }
    }
}

proof fn shift_word_end(x: Seq<u8>, y: Seq<u8>, p: int)
    requires
        0 <= p <= y.len(),
    ensures
        word_end(x + y, x.len() + p) == x.len() + word_end(y, p),
    decreases y.len() - p,
{
    if p < y.len() {
        assert((x + y)[x.len() + p] == y[p]);
        shift_word_end(x, y, p + 1);
    }
}

proof fn shift_number_end(x: Seq<u8>, y: Seq<u8>, p: int, seen_dot: bool)
    requires
        0 <= p <= y.len(),
    ensures
        number_end(x + y, x.len() + p, seen_dot) == x.len() + number_end(y, p, seen_dot),
    decreases y.len() - p,
{
    if p < y.len() {
        assert((x + y)[x.len() + p] == y[p]);
        shift_number_end(x, y, p + 1, seen_dot);
        shift_number_end(x, y, p + 1, true);
    }
}

proof fn shift_string_end(x: Seq<u8>, y: Seq<u8>, p: int)
    requires
        0 <= p <= y.len(),
    ensures
        string_end(x + y, x.len() + p) == x.len() + string_end(y, p),
    decreases y.len() - p,
{
    if p < y.len() {
        assert((x + y)[x.len() + p] == y[p]);
        if y[p] == BACKSLASH {
            if p + 1 < y.len() {
                shift_string_end(x, y, p + 2);
            }
        } else if y[p] != QUOTE {
            shift_string_end(x, y, p + 1);
        }
    }
}

/// A call of `next` reads the source from its position on: with text put
/// before it, it gives back the same token and moves as far.
proof fn shift_lex_step(x: Seq<u8>, y: Seq<u8>, p: int)
    requires
        0 <= p <= y.len(),
    ensures
        lex_step(x + y, x.len() + p).token == lex_step(y, p).token,
        lex_step(x + y, x.len() + p).next == x.len() + lex_step(y, p).next,
{
    reveal(lex_step);
    let m = x.len() as int;
    let s = x + y;
    shift_after_whitespace(x, y, p);
    lemma_after_whitespace(y, p);
    let q = after_whitespace(y, p);
    if q < y.len() {
        assert(s[m + q] == y[q]);
        if q + 1 < y.len() {
            assert(s[m + q + 1] == y[q + 1]);
        }
        lemma_word_end(y, q);
        lemma_number_end(y, q, false);
        lemma_string_end(y, q + 1);
        shift_word_end(x, y, q);
        shift_number_end(x, y, q, false);
        shift_string_end(x, y, q + 1);
        let we = word_end(y, q);
        let ne = number_end(y, q, false);
        let se = string_end(y, q + 1);
        assert(s.subrange(m + q, m + we) =~= y.subrange(q, we));
        assert(s.subrange(m + q, m + ne) =~= y.subrange(q, ne));
        assert(s.subrange(m + q + 1, m + se) =~= y.subrange(q + 1, se));
    }
}

/// The tokens read from a position do not depend on the text before it.
pub proof fn shift_tokens_from(x: Seq<u8>, y: Seq<u8>, p: int)
    requires
        0 <= p <= y.len(),
    ensures
        tokens_from(x + y, x.len() + p) == tokens_from(y, p),
    decreases y.len() - p,
{
    shift_lex_step(x, y, p);
    lemma_lex_step(y, p);
    let st = lex_step(y, p);
    if st.token is Some && p < st.next <= y.len() {
        shift_tokens_from(x, y, st.next);
    }
}

// ---------------------------------------------------------------------------
// Whitespace that is skipped
// ---------------------------------------------------------------------------

proof fn ws_run_after_whitespace(src: Seq<u8>, p: int, r: int)
    requires
        0 <= p <= r <= src.len(),
        forall|i: int| p <= i < r ==> is_ws_byte(#[trigger] src[i]),
    ensures
        after_whitespace(src, p) == after_whitespace(src, r),
    decreases r - p,
{
    if p < r {
        ws_run_after_whitespace(src, p + 1, r);
    }
}

/// Reading from the start of a run of whitespace gives back the tokens that
/// reading from its end does.
pub proof fn ws_run_tokens_from(src: Seq<u8>, p: int, r: int)
    requires
        0 <= p <= r <= src.len(),
        forall|i: int| p <= i < r ==> is_ws_byte(#[trigger] src[i]),
    ensures
        tokens_from(src, p) == tokens_from(src, r),
{
    ws_run_after_whitespace(src, p, r);
    assert(lex_step(src, p) == lex_step(src, r)) by {
        reveal(lex_step);
    }
    lemma_lex_step(src, r);
}

// ---------------------------------------------------------------------------
// Text after some whitespace
// ---------------------------------------------------------------------------

/// `src1` and `src2` have the same bytes before position `n`, and each has
/// whitespace at `n`.
pub open spec fn alike_before_space(src1: Seq<u8>, src2: Seq<u8>, n: int) -> bool {
    &&& 0 <= n < src1.len()
    &&& n < src2.len()
    &&& forall|i: int| 0 <= i < n ==> #[trigger] src1[i] == src2[i]
    &&& is_ws_byte(src1[n])
    &&& is_ws_byte(src2[n])
}

proof fn alike_after_whitespace(src1: Seq<u8>, src2: Seq<u8>, n: int, p: int)
    requires
        alike_before_space(src1, src2, n),
        0 <= p <= n,
        after_whitespace(src1, p) < n,
    ensures
        after_whitespace(src2, p) == after_whitespace(src1, p),
    decreases n - p,
{
    lemma_after_whitespace(src1, p);
    assert(src1[p] == src2[p]);
    if is_ws_byte(src1[p]) {
        lemma_after_whitespace(src1, p + 1);
        alike_after_whitespace(src1, src2, n, p + 1);
    }
}

proof fn alike_word_end(src1: Seq<u8>, src2: Seq<u8>, n: int, p: int)
    requires
        alike_before_space(src1, src2, n),
        0 <= p <= n,
        word_end(src1, p) <= n,
    ensures
        word_end(src2, p) == word_end(src1, p),
    decreases n - p,
{
    if p < n {
        assert(src1[p] == src2[p]);
        if is_alnum_byte(src1[p]) {
            alike_word_end(src1, src2, n, p + 1);
        }
    }
}

proof fn alike_number_end(src1: Seq<u8>, src2: Seq<u8>, n: int, p: int, seen_dot: bool)
    requires
        alike_before_space(src1, src2, n),
        0 <= p <= n,
        number_end(src1, p, seen_dot) <= n,
    ensures
        number_end(src2, p, seen_dot) == number_end(src1, p, seen_dot),
    decreases n - p,
{
    if p < n {
        assert(src1[p] == src2[p]);
        if is_digit_byte(src1[p]) {
            alike_number_end(src1, src2, n, p + 1, seen_dot);
        } else if src1[p] == DOT && !seen_dot {
            alike_number_end(src1, src2, n, p + 1, true);
        }
    }
}

proof fn alike_string_end(src1: Seq<u8>, src2: Seq<u8>, n: int, p: int)
    requires
        alike_before_space(src1, src2, n),
        0 <= p <= n,
        string_end(src1, p) < n,
    ensures
        string_end(src2, p) == string_end(src1, p),
    decreases n - p,
{
    lemma_string_end(src1, p);
    assert(src1[p] == src2[p]);
    if src1[p] == BACKSLASH {
        if p + 1 < src1.len() {
            lemma_string_end(src1, p + 2);
            alike_string_end(src1, src2, n, p + 2);
        }
    } else if src1[p] != QUOTE {
        lemma_string_end(src1, p + 1);
        alike_string_end(src1, src2, n, p + 1);
    }
}

/// A call of `next` that stops at or before `n` reads nothing beyond `n`:
/// on two sources alike before the whitespace at `n`, it gives back the
/// same token, or none on both, and moves as far.
#[verifier::rlimit(40)]
pub proof fn alike_lex_step(src1: Seq<u8>, src2: Seq<u8>, n: int, p: int)
    requires
        alike_before_space(src1, src2, n),
        0 <= p <= n,
        lex_step(src1, p).next <= n,
    ensures
        lex_step(src2, p).token == lex_step(src1, p).token,
        lex_step(src2, p).next == lex_step(src1, p).next,
{
    reveal(lex_step);
    lemma_after_whitespace(src1, p);
    let q = after_whitespace(src1, p);
    lemma_word_end(src1, q);
    lemma_number_end(src1, q, false);
    lemma_string_end(src1, q + 1);
    assert(q < n);
    alike_after_whitespace(src1, src2, n, p);
    assert(src1[q] == src2[q]);
    if q + 1 < n {
        assert(src1[q + 1] == src2[q + 1]);
    }
    let we = word_end(src1, q);
    let ne = number_end(src1, q, false);
    let se = string_end(src1, q + 1);
    if we <= n {
        alike_word_end(src1, src2, n, q);
        assert(src1.subrange(q, we) =~= src2.subrange(q, we));
    }
    if ne <= n {
        alike_number_end(src1, src2, n, q, false);
        assert(src1.subrange(q, ne) =~= src2.subrange(q, ne));
    }
    if se < n {
        alike_string_end(src1, src2, n, q + 1);
        assert(src1.subrange(q + 1, se) =~= src2.subrange(q + 1, se));
    }
}

/// When the first `k` calls of `next` from `p` give back tokens and leave
/// the lexer at or before `n`, and both sources give back the same tokens
/// from there, then they give back the same tokens from `p`.
pub proof fn alike_tokens_from(src1: Seq<u8>, src2: Seq<u8>, n: int, p: int, k: nat)
    requires
        alike_before_space(src1, src2, n),
        0 <= p <= n,
        k <= tokens_from(src1, p).len(),
        pos_after(src1, p, k) <= n,
        tokens_from(src1, pos_after(src1, p, k)) == tokens_from(src2, pos_after(src1, p, k)),
    ensures
        tokens_from(src1, p) == tokens_from(src2, p),
    decreases k,
{
    if k > 0 {
        lemma_lex_step(src1, p);
        let st = lex_step(src1, p);
        let next = st.next;
        lemma_pos_after(src1, next, (k - 1) as nat);
        assert(pos_after(src1, p, k) == pos_after(src1, next, (k - 1) as nat));
        alike_lex_step(src1, src2, n, p);
        alike_tokens_from(src1, src2, n, next, (k - 1) as nat);
    }
}

} // verus!
