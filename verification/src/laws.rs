//! Laws of the library: facts that relate its functions to one another and
//! hold for every input.

use vstd::prelude::*;
use vstd::utf8::*;
use vstd::string::{StringSliceAdditionalSpecFns, is_ascii, is_ascii_spec_bytes};
use crate::token::SpecToken;
use crate::ast::{SpecExpr, SpecStmt};
use crate::grammar::{
    TokenStream, SpecErr, Parsed, seq_stream, bin, additive_op, multiplicative_op, comparison_op,
    expr_at, lemma_factor_at, lemma_postfix_loop, lemma_term_at,
    comparison_at, comparison_loop, additive_at, additive_loop, term_at, term_loop, factor_at,
    postfix_loop, program_loop, ident_at, expect_at, lemma_stmt_at,
};
use crate::locality::{same_upto, lemma_shorter_further, local_program_loop};
use crate::grammar::program_at;
use crate::chars::is_ws_byte;
use crate::spacing::{
    alike_before_space, shift_tokens_from, ws_run_tokens_from, alike_tokens_from, alike_lex_step,
};
use crate::lexer::{
    lex_step, after_whitespace, tokens_from, lexes_safely_from, lexes_safely_upto, stream_step,
    pos_after, lexed_stream, word_end, number_end, string_end, lemma_lexed_at,
    lemma_pos_after_tokens, lemma_pos_after, lemma_lex_step, lemma_after_whitespace,
    lemma_word_end, lemma_number_end, lemma_string_end,
};

verus! {

/// The parser reads exactly the tokens that `Lexer::all` gives back for the
/// same source, in the same order, and then the end of the stream.
pub proof fn parser_reads_lexer_tokens(src: Seq<u8>, k: int)
    requires
        0 <= k <= tokens_from(src, 0).len(),
    ensures
        lexed_stream(src).at(k) == seq_stream(tokens_from(src, 0)).at(k),
{
    lemma_lexed_at(src, k);
    lemma_pos_after_tokens(src, 0, k as nat);
}

/// The lexed stream of a source holds the tokens that `Lexer::all` gives
/// back for it, and then no token, at the same positions as the sequence of
/// those tokens does.
proof fn lexed_same_as_tokens(src: Seq<u8>)
    ensures
        same_upto(lexed_stream(src), seq_stream(tokens_from(src, 0)), tokens_from(src, 0).len() as int),
{
    let ts = tokens_from(src, 0);
    let n = ts.len() as int;
    let s1 = lexed_stream(src);
    let s2 = seq_stream(ts);
    assert forall|k: int| 0 <= k <= n implies s1.at(k) == s2.at(k) by {
        parser_reads_lexer_tokens(src, k);
    }
    parser_reads_lexer_tokens(src, n);
    assert forall|k: int| 0 <= k < n implies #[trigger] s1.at(k) is Some by {
        parser_reads_lexer_tokens(src, k);
    }
    assert forall|k: int| 0 <= k < n implies #[trigger] s2.at(k) is Some by {}
    assert forall|i: int, j: int| 0 <= i <= n && 0 <= j <= n implies (s1.beyond(i, j) <==> s2.beyond(i, j)) by {
        lemma_shorter_further(s1, n, i, j);
        lemma_shorter_further(s2, n, i, j);
    }
}

/// A source parses as the sequence of its tokens does, as `Lexer::all`
/// gives them back, followed by the end of the input: nothing after the
/// first call of `next` that gives back no token is read by the parser.
pub proof fn parse_reads_only_the_tokens(src: Seq<u8>)
    ensures
        program_at(lexed_stream(src), 0) == program_at(seq_stream(tokens_from(src, 0)), 0),
{
    let ts = tokens_from(src, 0);
    lexed_same_as_tokens(src);
    local_program_loop(lexed_stream(src), seq_stream(ts), ts.len() as int, seq![], 0);
}

/// Two sources with the same tokens parse alike: both to the same program,
/// or both to the same error, with the parser stopped at the same token.
pub proof fn same_tokens_parse_alike(src1: Seq<u8>, src2: Seq<u8>)
    requires
        tokens_from(src1, 0) == tokens_from(src2, 0),
    ensures
        program_at(lexed_stream(src1), 0) == program_at(lexed_stream(src2), 0),
{
    parse_reads_only_the_tokens(src1);
    parse_reads_only_the_tokens(src2);
}

/// Whitespace between tokens can be replaced by any other whitespace, and
/// whitespace at the start can be added or taken away, without changing the
/// tokens: in `a + w1 + b` the lexer stands, after its first `k` tokens,
/// before nothing but whitespace up to the run `w1`, or stops there for good
/// with a call that gives back no token and reads nothing past `a`; putting
/// the run `w2` in the place of `w1` gives back the same tokens. Where `a`
/// is not empty, neither run is, so that the tokens on either side stay
/// apart.
pub proof fn whitespace_between_tokens_is_interchangeable(
    a: Seq<u8>,
    w1: Seq<u8>,
    w2: Seq<u8>,
    b: Seq<u8>,
    k: nat,
)
    requires
        forall|i: int| 0 <= i < w1.len() ==> is_ws_byte(#[trigger] w1[i]),
        forall|i: int| 0 <= i < w2.len() ==> is_ws_byte(#[trigger] w2[i]),
        a.len() == 0 || (w1.len() > 0 && w2.len() > 0),
        k <= tokens_from(a + w1 + b, 0).len(),
        pos_after(a + w1 + b, 0, k) <= a.len(),
        (forall|i: int| pos_after(a + w1 + b, 0, k) <= i < a.len() ==> is_ws_byte(#[trigger] a[i]))
            || (k == tokens_from(a + w1 + b, 0).len() && lex_step(a + w1 + b, pos_after(a + w1 + b, 0, k)).next <= a.len()),
    ensures
        tokens_from(a + w1 + b, 0) == tokens_from(a + w2 + b, 0),
{
    let src1 = a + w1 + b;
    let src2 = a + w2 + b;
    let n = a.len() as int;
    lemma_pos_after(src1, 0, k);
    let r = pos_after(src1, 0, k);
    if !(forall|i: int| r <= i < n && 0 <= i < a.len() ==> is_ws_byte(#[trigger] a[i])) {
        // The lexer stops before the run: the call after the last token
        // gives back none on both sources.
        assert(src1[n] == w1[0]);
        assert(src2[n] == w2[0]);
        assert(alike_before_space(src1, src2, n));
        lemma_pos_after_tokens(src1, 0, k);
        alike_lex_step(src1, src2, n, r);
        assert(tokens_from(src1, r) =~= tokens_from(src2, r));
        alike_tokens_from(src1, src2, n, 0, k);
        return;
    }
    assert forall|i: int| r <= i < n + w1.len() implies is_ws_byte(#[trigger] src1[i]) by {
        if i >= n {
            assert(src1[i] == w1[i - n]);
        }
    }
    ws_run_tokens_from(src1, r, n + w1.len());
    shift_tokens_from(a + w1, b, 0);
    assert forall|i: int| r <= i < n + w2.len() implies is_ws_byte(#[trigger] src2[i]) by {
        if i >= n {
            assert(src2[i] == w2[i - n]);
        }
    }
    ws_run_tokens_from(src2, r, n + w2.len());
    shift_tokens_from(a + w2, b, 0);
    if n > 0 {
        assert(src1[n] == w1[0]);
        assert(src2[n] == w2[0]);
        assert(alike_before_space(src1, src2, n));
        alike_tokens_from(src1, src2, n, 0, k);
    }
}

/// Whitespace between tokens does not change the parse: replacing it as
/// `whitespace_between_tokens_is_interchangeable` allows gives the same
/// program or the same error.
pub proof fn whitespace_between_tokens_parses_alike(
    a: Seq<u8>,
    w1: Seq<u8>,
    w2: Seq<u8>,
    b: Seq<u8>,
    k: nat,
)
    requires
        forall|i: int| 0 <= i < w1.len() ==> is_ws_byte(#[trigger] w1[i]),
        forall|i: int| 0 <= i < w2.len() ==> is_ws_byte(#[trigger] w2[i]),
        a.len() == 0 || (w1.len() > 0 && w2.len() > 0),
        k <= tokens_from(a + w1 + b, 0).len(),
        pos_after(a + w1 + b, 0, k) <= a.len(),
        (forall|i: int| pos_after(a + w1 + b, 0, k) <= i < a.len() ==> is_ws_byte(#[trigger] a[i]))
            || (k == tokens_from(a + w1 + b, 0).len() && lex_step(a + w1 + b, pos_after(a + w1 + b, 0, k)).next <= a.len()),
    ensures
        program_at(lexed_stream(a + w1 + b), 0) == program_at(lexed_stream(a + w2 + b), 0),
{
    whitespace_between_tokens_is_interchangeable(a, w1, w2, b, k);
    same_tokens_parse_alike(a + w1 + b, a + w2 + b);
}

/// Whitespace before a token does not change what the lexer reads: a call
/// of `next` at `p` does what a call at the first non-whitespace byte does.
pub proof fn whitespace_is_skipped(src: Seq<u8>, p: int)
    requires
        0 <= p <= src.len(),
    ensures
        lex_step(src, p) == lex_step(src, after_whitespace(src, p)),
{
    reveal(lex_step);
    lemma_after_whitespace(src, p);
}

/// A whole program parses only when every token is read: after a
/// successful parse the stream is at its end.
pub proof fn parsed_program_reads_every_token(s: TokenStream, acc: Seq<SpecStmt>, i: int)
    ensures
        program_loop(s, acc, i).0 is Ok ==> s.at(program_loop(s, acc, i).1) is None,
    decreases (s.rank)(i),
{
    if s.at(i) is Some {
        lemma_stmt_at(s, i);
        if let (Ok(st), j) = crate::grammar::stmt_at(s, i) {
            if s.beyond(i, j) {
                parsed_program_reads_every_token(s, acc.push(st), j);
            }
        }
    }
}

/// An operand of `*` and `/`: a factor and the field accesses after it.
pub open spec fn operand_at(s: TokenStream, i: int) -> Parsed<SpecExpr> {
    match factor_at(s, i) {
        (Ok(f), j) => postfix_loop(s, f, j),
        (Err(x), j) => (Err(x), j),
    }
}

/// A term starts with an operand, which takes at least one token.
proof fn term_starts_with_operand(s: TokenStream, i: int, a: SpecExpr, j: int)
    requires
        operand_at(s, i) == (Ok::<SpecExpr, SpecErr>(a), j),
    ensures
        s.beyond(i, j),
        term_at(s, i) == term_loop(s, a, j),
{
    lemma_factor_at(s, i);
    if let (Ok(f), j0) = factor_at(s, i) {
        lemma_postfix_loop(s, f, j0);
    }
}

/// A multiplicative operator and an operand after `lhs` join it.
proof fn term_loop_step(s: TokenStream, lhs: SpecExpr, i: int, t: SpecToken, b: SpecExpr, k: int)
    requires
        s.at(i) == Some(t),
        multiplicative_op(t) is Some,
        operand_at(s, i + 1) == (Ok::<SpecExpr, SpecErr>(b), k),
    ensures
        s.beyond(i, k),
        term_loop(s, lhs, i) == term_loop(s, bin(multiplicative_op(t)->0, lhs, b), k),
{
    term_starts_with_operand(s, i + 1, b, k);
}

/// An additive operator and a term after `lhs` join it.
proof fn additive_loop_step(s: TokenStream, lhs: SpecExpr, i: int, t: SpecToken, b: SpecExpr, k: int)
    requires
        s.at(i) == Some(t),
        additive_op(t) is Some,
        term_at(s, i + 1) == (Ok::<SpecExpr, SpecErr>(b), k),
    ensures
        s.beyond(i, k),
        additive_loop(s, lhs, i) == additive_loop(s, bin(additive_op(t)->0, lhs, b), k),
{
    lemma_term_at(s, i + 1);
}

/// `*` and `/` bind tighter than `+` and `-`: a term `a`, an additive
/// operator, and then operands `b` and `c` with a multiplicative operator
/// between them, up to a token that continues no expression, parse as
/// `a + (b * c)`.
pub proof fn multiplicative_binds_tighter(
    s: TokenStream,
    i: int,
    a: SpecExpr,
    j: int,
    t1: SpecToken,
    b: SpecExpr,
    k: int,
    t2: SpecToken,
    c: SpecExpr,
    l: int,
)
    requires
        term_at(s, i) == (Ok::<SpecExpr, SpecErr>(a), j),
        s.at(j) == Some(t1),
        additive_op(t1) is Some,
        operand_at(s, j + 1) == (Ok::<SpecExpr, SpecErr>(b), k),
        s.at(k) == Some(t2),
        multiplicative_op(t2) is Some,
        operand_at(s, k + 1) == (Ok::<SpecExpr, SpecErr>(c), l),
        s.at(l) matches Some(t) ==> multiplicative_op(t) is None && additive_op(t) is None
            && comparison_op(t) is None,
    ensures
        expr_at(s, i) == (
            Ok::<SpecExpr, SpecErr>(bin(
                additive_op(t1)->0,
                a,
                bin(multiplicative_op(t2)->0, b, c),
            )),
            l,
        ),
{
    let bc = bin(multiplicative_op(t2)->0, b, c);
    let sum = bin(additive_op(t1)->0, a, bc);
    lemma_term_at(s, i);
    term_starts_with_operand(s, j + 1, b, k);
    term_loop_step(s, b, k, t2, c, l);
    assert(term_loop(s, bc, l) == (Ok::<SpecExpr, SpecErr>(bc), l));
    assert(term_at(s, j + 1) == (Ok::<SpecExpr, SpecErr>(bc), l));
    additive_loop_step(s, a, j, t1, bc, l);
    assert(additive_loop(s, sum, l) == (Ok::<SpecExpr, SpecErr>(sum), l));
    assert(additive_at(s, i) == (Ok::<SpecExpr, SpecErr>(sum), l));
    assert(comparison_loop(s, sum, l) == (Ok::<SpecExpr, SpecErr>(sum), l));
    assert(comparison_at(s, i) == (Ok::<SpecExpr, SpecErr>(sum), l));
}

/// `+` and `-` group to the left: terms `a`, `b` and `c` with additive
/// operators between them, up to a token that continues no expression,
/// parse as `(a - b) + c`.
pub proof fn additive_groups_left(
    s: TokenStream,
    i: int,
    a: SpecExpr,
    j: int,
    t1: SpecToken,
    b: SpecExpr,
    k: int,
    t2: SpecToken,
    c: SpecExpr,
    l: int,
)
    requires
        term_at(s, i) == (Ok::<SpecExpr, SpecErr>(a), j),
        s.at(j) == Some(t1),
        additive_op(t1) is Some,
        term_at(s, j + 1) == (Ok::<SpecExpr, SpecErr>(b), k),
        s.at(k) == Some(t2),
        additive_op(t2) is Some,
        term_at(s, k + 1) == (Ok::<SpecExpr, SpecErr>(c), l),
        s.at(l) matches Some(t) ==> additive_op(t) is None && comparison_op(t) is None,
    ensures
        expr_at(s, i) == (
            Ok::<SpecExpr, SpecErr>(bin(
                additive_op(t2)->0,
                bin(additive_op(t1)->0, a, b),
                c,
            )),
            l,
        ),
{
    let first = bin(additive_op(t1)->0, a, b);
    let both = bin(additive_op(t2)->0, first, c);
    lemma_term_at(s, i);
    additive_loop_step(s, a, j, t1, b, k);
    additive_loop_step(s, first, k, t2, c, l);
    assert(additive_loop(s, both, l) == (Ok::<SpecExpr, SpecErr>(both), l));
    assert(additive_at(s, i) == (Ok::<SpecExpr, SpecErr>(both), l));
    assert(comparison_loop(s, both, l) == (Ok::<SpecExpr, SpecErr>(both), l));
    assert(comparison_at(s, i) == (Ok::<SpecExpr, SpecErr>(both), l));
}

/// Parentheses group without leaving a node of their own: `( e )` is `e`.
pub proof fn parentheses_group(s: TokenStream, i: int)
    requires
        s.at(i) == Some(SpecToken::LParen),
        expr_at(s, i + 1).0 is Ok,
        s.at(expr_at(s, i + 1).1) == Some(SpecToken::RParen),
    ensures
        factor_at(s, i) == (expr_at(s, i + 1).0, expr_at(s, i + 1).1 + 1),
{
    reveal(expect_at);
}

/// Field accesses group to the left: `e.f.g` is `(e.f).g`.
pub proof fn field_access_groups_left(s: TokenStream, e: SpecExpr, i: int, f: Seq<char>, g: Seq<char>)
    requires
        s.at(i) == Some(SpecToken::Dot),
        s.at(i + 1) == Some(SpecToken::Ident(f)),
        s.at(i + 2) == Some(SpecToken::Dot),
        s.at(i + 3) == Some(SpecToken::Ident(g)),
        s.at(i + 4) != Some(SpecToken::Dot),
    ensures
        postfix_loop(s, e, i) == (
            Ok::<SpecExpr, SpecErr>(SpecExpr::FieldAccess {
                receiver: Box::new(SpecExpr::FieldAccess { receiver: Box::new(e), field: f }),
                field: g,
            }),
            i + 4,
        ),
{
    let ef = SpecExpr::FieldAccess { receiver: Box::new(e), field: f };
    let efg = SpecExpr::FieldAccess { receiver: Box::new(ef), field: g };
    reveal(ident_at);
    assert(postfix_loop(s, efg, i + 4) == (Ok::<SpecExpr, SpecErr>(efg), i + 4));
    assert(postfix_loop(s, ef, i + 2) == (Ok::<SpecExpr, SpecErr>(efg), i + 4));
}

/// Where every position of the source is a character boundary, no call of
/// `next` panics.
proof fn no_panic_on_boundaries(src: Seq<u8>, p: int)
    requires
        0 <= p <= src.len(),
        forall|x: int| 0 <= x <= src.len() ==> #[trigger] is_char_boundary(src, x),
    ensures
        !lex_step(src, p).panics,
{
    reveal(lex_step);
    lemma_after_whitespace(src, p);
    let q = after_whitespace(src, p);
    if q < src.len() {
        lemma_word_end(src, q);
        lemma_number_end(src, q, false);
        lemma_string_end(src, q + 1);
        assert(is_char_boundary(src, q));
        assert(is_char_boundary(src, q + 1));
        assert(is_char_boundary(src, word_end(src, q)));
        assert(is_char_boundary(src, number_end(src, q, false)));
        assert(is_char_boundary(src, string_end(src, q + 1)));
    }
}

/// In an ASCII source every position is a character boundary.
proof fn ascii_boundaries(source: &str)
    requires
        is_ascii(source),
    ensures
        forall|x: int| 0 <= x <= source.spec_bytes().len() ==> #[trigger] is_char_boundary(source.spec_bytes(), x),
{
    let src = source.spec_bytes();
    is_ascii_spec_bytes(source);
    encode_utf8_valid_utf8(source@);
    is_char_boundary_start_end_of_seq(src);
    assert forall|x: int| 0 <= x <= src.len() implies #[trigger] is_char_boundary(src, x) by {
        if x < src.len() {
            is_char_boundary_iff_not_is_continuation_byte(src, x);
        }
    }
}

/// The lexer never panics on an ASCII source, however often `next` is called.
pub proof fn ascii_source_lexes_safely(source: &str, n: int)
    requires
        is_ascii(source),
    ensures
        lexes_safely_upto(source.spec_bytes(), n),
{
    let src = source.spec_bytes();
    ascii_boundaries(source);
    reveal(lexes_safely_upto);
    assert forall|k: nat| k < n implies !(#[trigger] stream_step(src, k)).panics by {
        lemma_pos_after(src, 0, k);
        no_panic_on_boundaries(src, pos_after(src, 0, k));
    }
}

/// On an ASCII source, `Lexer::all` never panics, wherever it starts.
pub proof fn ascii_source_lexes_all_safely(source: &str, p: int)
    requires
        is_ascii(source),
        0 <= p <= source.spec_bytes().len(),
    ensures
        lexes_safely_from(source.spec_bytes(), p),
    decreases source.spec_bytes().len() - p,
{
    let src = source.spec_bytes();
    ascii_boundaries(source);
    no_panic_on_boundaries(src, p);
    lemma_lex_step(src, p);
    let st = lex_step(src, p);
    if st.token is Some && p < st.next <= src.len() {
        ascii_source_lexes_all_safely(source, st.next);
    }
}

} // verus!
