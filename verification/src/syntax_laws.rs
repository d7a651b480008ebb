//! Laws on what the lexer and the parser make of particular forms of input,
//! stated over the bytes and tokens themselves: numbers, the right side of
//! a comparison, list literals and struct declarations.

use vstd::prelude::*;
use vstd::utf8::decode_utf8;
use crate::token::SpecToken;
use crate::ast::{SpecExpr, SpecStmt, SpecField};
use crate::grammar::{
    TokenStream, SpecErr, bin, comparison_op, expr_at, comparison_at, comparison_loop,
    additive_at, term_at, factor_at, list_at, exprs_at, exprs_loop, stmt_at, struct_at,
    struct_fields, ident_at, expect_at, lemma_additive_at, lemma_term_at, lemma_expr_at,
    block_at, block_loop, program_loop, program_at, params_at, params_loop, lemma_stmt_at,
    lemma_block_at, lemma_params_at, lemma_exprs_at,
};
use crate::lexer::{lex_step, after_whitespace, number_end, word_end, string_end};

verus! {

// ---------------------------------------------------------------------------
// Numbers
// ---------------------------------------------------------------------------

/// A blank byte: space, tab, line feed, form feed or carriage return.
pub open spec fn is_blank(b: u8) -> bool {
    b == 0x20u8 || b == 0x09u8 || b == 0x0Au8 || b == 0x0Cu8 || b == 0x0Du8
}

/// One of the ten ASCII digits `0` to `9`.
pub open spec fn is_decimal_digit(b: u8) -> bool {
    0x30u8 <= b <= 0x39u8
}

proof fn blanks_then(src: Seq<u8>, p: int, q: int)
    requires
        0 <= p <= q <= src.len(),
        forall|x: int| p <= x < q ==> is_blank(#[trigger] src[x]),
        q < src.len() ==> !is_blank(src[q]),
    ensures
        after_whitespace(src, p) == q,
    decreases q - p,
{
    if p < q {
        assert(is_blank(src[p]));
        blanks_then(src, p + 1, q);
    }
}

proof fn digit_run_end(src: Seq<u8>, x: int, e: int)
    requires
        0 <= x <= e <= src.len(),
        forall|y: int| x <= y < e ==> is_decimal_digit(#[trigger] src[y]),
        e < src.len() ==> !is_decimal_digit(src[e]) && src[e] != 0x2Eu8,
    ensures
        number_end(src, x, false) == e,
    decreases e - x,
{
    if x < e {
        assert(is_decimal_digit(src[x]));
        digit_run_end(src, x + 1, e);
    }
}

/// A call of `next` that finds, after blanks, a run of the digits `0` to `9`
/// ended by a byte that is neither a digit nor `.` (or by the end) gives
/// back one number whose text is the whole run, and stops right after it.
pub proof fn digit_run_is_one_number(src: Seq<u8>, p: int, q: int, e: int)
    requires
        0 <= p <= q < e <= src.len(),
        forall|x: int| p <= x < q ==> is_blank(#[trigger] src[x]),
        forall|x: int| q <= x < e ==> is_decimal_digit(#[trigger] src[x]),
        e < src.len() ==> !is_decimal_digit(src[e]) && src[e] != 0x2Eu8,
    ensures
        lex_step(src, p).token == Some(SpecToken::Number(decode_utf8(src.subrange(q, e)))),
        lex_step(src, p).next == e,
{
    reveal(lex_step);
    assert(is_decimal_digit(src[q]));
    blanks_then(src, p, q);
    digit_run_end(src, q, e);
}

/// An ASCII letter.
pub open spec fn is_ascii_letter(b: u8) -> bool {
    (0x41u8 <= b <= 0x5Au8) || (0x61u8 <= b <= 0x7Au8)
}

proof fn word_run_end(src: Seq<u8>, x: int, e: int)
    requires
        0 <= x <= e <= src.len(),
        forall|y: int| x <= y < e ==> is_ascii_letter(#[trigger] src[y]) || is_decimal_digit(src[y]),
        e < src.len() ==> src[e] < 0x80u8 && !is_ascii_letter(src[e]) && !is_decimal_digit(src[e]),
    ensures
        word_end(src, x) == e,
    decreases e - x,
{
    if x < e {
        assert(is_ascii_letter(src[x]) || is_decimal_digit(src[x]));
        word_run_end(src, x + 1, e);
    }
}

/// A call of `next` that finds, after blanks, an ASCII letter and then
/// ASCII letters and digits up to an ASCII byte that is neither (or the
/// end) gives back a keyword where the word is `let`, `fn`, `struct`, `if`
/// or `else`, and else a name with the word's text; it stops after the word.
pub proof fn word_is_keyword_or_name(src: Seq<u8>, p: int, q: int, e: int)
    requires
        0 <= p <= q < e <= src.len(),
        forall|x: int| p <= x < q ==> is_blank(#[trigger] src[x]),
        is_ascii_letter(src[q]),
        forall|x: int| q <= x < e ==> is_ascii_letter(#[trigger] src[x]) || is_decimal_digit(src[x]),
        e < src.len() ==> src[e] < 0x80u8 && !is_ascii_letter(src[e]) && !is_decimal_digit(src[e]),
    ensures
        lex_step(src, p).next == e,
        lex_step(src, p).token == Some(
            if src.subrange(q, e) == seq![0x6Cu8, 0x65u8, 0x74u8] {
                SpecToken::Let
            } else if src.subrange(q, e) == seq![0x66u8, 0x6Eu8] {
                SpecToken::Fn
            } else if src.subrange(q, e) == seq![0x73u8, 0x74u8, 0x72u8, 0x75u8, 0x63u8, 0x74u8] {
                SpecToken::Struct
            } else if src.subrange(q, e) == seq![0x69u8, 0x66u8] {
                SpecToken::If
            } else if src.subrange(q, e) == seq![0x65u8, 0x6Cu8, 0x73u8, 0x65u8] {
                SpecToken::Else
            } else {
                SpecToken::Ident(decode_utf8(src.subrange(q, e)))
            },
        ),
{
    reveal(lex_step);
    blanks_then(src, p, q);
    word_run_end(src, q, e);
}

proof fn plain_string_end(src: Seq<u8>, x: int, e: int)
    requires
        0 <= x <= e < src.len(),
        forall|y: int| x <= y < e ==> #[trigger] src[y] != 0x22u8 && src[y] != 0x5Cu8,
        src[e] == 0x22u8,
    ensures
        string_end(src, x) == e,
    decreases e - x,
{
    if x < e {
        assert(src[x] != 0x22u8 && src[x] != 0x5Cu8);
        plain_string_end(src, x + 1, e);
    }
}

/// A call of `next` that finds, after blanks, a `"`, then bytes that are
/// neither `"` nor a backslash, then a `"`, gives back a string whose text
/// is the bytes between the quotes, and stops after the closing quote.
pub proof fn quoted_text_is_one_string(src: Seq<u8>, p: int, q: int, e: int)
    requires
        0 <= p <= q < e < src.len(),
        forall|x: int| p <= x < q ==> is_blank(#[trigger] src[x]),
        src[q] == 0x22u8,
        forall|x: int| q < x < e ==> #[trigger] src[x] != 0x22u8 && src[x] != 0x5Cu8,
        src[e] == 0x22u8,
    ensures
        lex_step(src, p).token == Some(SpecToken::String(decode_utf8(src.subrange(q + 1, e)))),
        lex_step(src, p).next == e + 1,
{
    reveal(lex_step);
    blanks_then(src, p, q);
    plain_string_end(src, q + 1, e);
}

/// The token, if any, that the byte `c` is by itself.
pub open spec fn punctuation(c: u8) -> Option<SpecToken> {
    if c == 0x28u8 { Some(SpecToken::LParen) }
    else if c == 0x29u8 { Some(SpecToken::RParen) }
    else if c == 0x5Bu8 { Some(SpecToken::LBrace) }
    else if c == 0x5Du8 { Some(SpecToken::RBrace) }
    else if c == 0x7Bu8 { Some(SpecToken::LCurl) }
    else if c == 0x7Du8 { Some(SpecToken::RCurl) }
    else if c == 0x2Bu8 { Some(SpecToken::Plus) }
    else if c == 0x2Du8 { Some(SpecToken::Minus) }
    else if c == 0x2Au8 { Some(SpecToken::Mul) }
    else if c == 0x2Fu8 { Some(SpecToken::Div) }
    else if c == 0x2Cu8 { Some(SpecToken::Comma) }
    else if c == 0x3Au8 { Some(SpecToken::Colon) }
    else if c == 0x2Eu8 { Some(SpecToken::Dot) }
    else { None }
}

/// The operator that `c` followed by `=` is, for `c` one of `= ! < >`.
pub open spec fn operator_with_eq(c: u8) -> Option<SpecToken> {
    if c == 0x3Du8 { Some(SpecToken::EqEq) }
    else if c == 0x21u8 { Some(SpecToken::NotEq) }
    else if c == 0x3Cu8 { Some(SpecToken::LtEq) }
    else if c == 0x3Eu8 { Some(SpecToken::GtEq) }
    else { None }
}

/// The operator that `c` is when no `=` follows it (none for `!`).
pub open spec fn operator_alone(c: u8) -> Option<SpecToken> {
    if c == 0x3Du8 { Some(SpecToken::Eq) }
    else if c == 0x3Cu8 { Some(SpecToken::Lt) }
    else if c == 0x3Eu8 { Some(SpecToken::Gt) }
    else { None }
}

/// A call of `next` that finds, after blanks, one of the bytes
/// `( ) [ ] { } + - * / , : .` gives back its token and steps over it.
pub proof fn punctuation_is_one_token(src: Seq<u8>, p: int, q: int)
    requires
        0 <= p <= q < src.len(),
        forall|x: int| p <= x < q ==> is_blank(#[trigger] src[x]),
        punctuation(src[q]) is Some,
    ensures
        lex_step(src, p).token == punctuation(src[q]),
        lex_step(src, p).next == q + 1,
{
    reveal(lex_step);
    blanks_then(src, p, q);
}

/// A call of `next` that finds, after blanks, one of `=`, `!`, `<`, `>`:
/// followed by `=`, it gives back `==`, `!=`, `<=` or `>=` and steps over
/// both bytes; else `=`, `<` or `>` (none for `!`), stepping over the one.
pub proof fn operator_takes_a_following_eq(src: Seq<u8>, p: int, q: int)
    requires
        0 <= p <= q < src.len(),
        forall|x: int| p <= x < q ==> is_blank(#[trigger] src[x]),
        operator_with_eq(src[q]) is Some,
    ensures
        q + 1 < src.len() && src[q + 1] == 0x3Du8 ==> lex_step(src, p).token
            == operator_with_eq(src[q]) && lex_step(src, p).next == q + 2,
        !(q + 1 < src.len() && src[q + 1] == 0x3Du8) ==> lex_step(src, p).token
            == operator_alone(src[q]) && lex_step(src, p).next == q + 1,
{
    reveal(lex_step);
    blanks_then(src, p, q);
}

// ---------------------------------------------------------------------------
// Comparisons
// ---------------------------------------------------------------------------

/// The right side of a comparison is a whole term, products and quotients
/// included: an additive expression `a`, a comparison operator, and a term
/// `b` up to a token that is no comparison operator parse as `a op b`; so
/// `a < b * c` is `a < (b * c)`.
pub proof fn comparison_right_side_is_a_term(
    s: TokenStream,
    i: int,
    a: SpecExpr,
    j: int,
    t: SpecToken,
    b: SpecExpr,
    k: int,
)
    requires
        additive_at(s, i) == (Ok::<SpecExpr, SpecErr>(a), j),
        s.at(j) == Some(t),
        comparison_op(t) is Some,
        term_at(s, j + 1) == (Ok::<SpecExpr, SpecErr>(b), k),
        s.at(k) matches Some(u) ==> comparison_op(u) is None,
    ensures
        expr_at(s, i) == (Ok::<SpecExpr, SpecErr>(bin(comparison_op(t)->0, a, b)), k),
{
    let c = bin(comparison_op(t)->0, a, b);
    lemma_additive_at(s, i);
    lemma_term_at(s, j + 1);
    assert(comparison_loop(s, c, k) == (Ok::<SpecExpr, SpecErr>(c), k));
    assert(comparison_loop(s, a, j) == (Ok::<SpecExpr, SpecErr>(c), k));
    assert(comparison_at(s, i) == (Ok::<SpecExpr, SpecErr>(c), k));
}

// ---------------------------------------------------------------------------
// Lists
// ---------------------------------------------------------------------------

/// `[` followed at once by `]` is the empty list.
pub proof fn empty_brackets_are_the_empty_list(s: TokenStream, i: int)
    requires
        s.at(i) == Some(SpecToken::LBrace),
        s.at(i + 1) == Some(SpecToken::RBrace),
    ensures
        factor_at(s, i) == (Ok::<SpecExpr, SpecErr>(SpecExpr::List(seq![])), i + 2),
{
    reveal(expect_at);
    assert(exprs_at(s, SpecToken::RBrace, i + 1) == (Ok::<Seq<SpecExpr>, SpecErr>(seq![]), i + 1));
    assert(list_at(s, i + 1) == (Ok::<SpecExpr, SpecErr>(SpecExpr::List(seq![])), i + 2));
}

/// No expression starts with a token that starts no factor, such as `]`,
/// `)` or `}`, nor at the end.
proof fn no_expression_at(s: TokenStream, x: int)
    requires
        s.at(x) == Some(SpecToken::RBrace) || s.at(x) == Some(SpecToken::RParen)
            || s.at(x) == Some(SpecToken::RCurl) || s.at(x) is None,
    ensures
        expr_at(s, x).0 is Err,
{
    assert(factor_at(s, x).0 is Err);
    assert(term_at(s, x).0 is Err);
    assert(additive_at(s, x).0 is Err);
    assert(comparison_at(s, x).0 is Err);
}

/// Where element `k` of a list literal opened at `i` starts, given where
/// each element ends.
pub open spec fn element_start(i: int, ends: Seq<int>, k: int) -> int {
    if k == 0 {
        i + 1
    } else {
        ends[k - 1] + 1
    }
}

/// The expressions `elems` separated by commas, each parsed from where the
/// one before it ended, past its comma.
pub open spec fn list_elements(s: TokenStream, i: int, elems: Seq<SpecExpr>, ends: Seq<int>) -> bool {
    &&& elems.len() == ends.len()
    &&& forall|k: int|
        #![trigger elems[k]]
        0 <= k < elems.len() ==> expr_at(s, element_start(i, ends, k)) == (
            Ok::<SpecExpr, SpecErr>(elems[k]),
            ends[k],
        ) && (k + 1 < elems.len() ==> s.at(ends[k]) == Some(SpecToken::Comma))
}

proof fn list_tail(s: TokenStream, delim: SpecToken, i: int, elems: Seq<SpecExpr>, ends: Seq<int>, k: int)
    requires
        list_elements(s, i, elems, ends),
        elems.len() > 0,
        s.at(ends[elems.len() - 1]) == Some(delim),
        delim != SpecToken::Comma,
        0 <= k < elems.len(),
    ensures
        exprs_loop(s, delim, elems.take(k), element_start(i, ends, k)) == (
            Ok::<Seq<SpecExpr>, SpecErr>(elems),
            ends[elems.len() - 1],
        ),
    decreases elems.len() - k,
{
    reveal(expect_at);
    let x = element_start(i, ends, k);
    let e = elems[k];
    let j = ends[k];
    lemma_expr_at(s, x);
    assert(elems.take(k).push(e) =~= elems.take(k + 1));
    if k + 1 < elems.len() {
        assert(s.at(j) == Some(SpecToken::Comma));
        assert(element_start(i, ends, k + 1) == j + 1);
        list_tail(s, delim, i, elems, ends, k + 1);
    } else {
        assert(elems.take(k + 1) =~= elems);
    }
}

/// A list literal holds every element between its brackets, in order: `[`,
/// then expressions separated by commas, then `]`, parse as the list of
/// those expressions.
pub proof fn list_holds_its_elements(s: TokenStream, i: int, elems: Seq<SpecExpr>, ends: Seq<int>)
    requires
        s.at(i) == Some(SpecToken::LBrace),
        list_elements(s, i, elems, ends),
        elems.len() > 0,
        s.at(ends[elems.len() - 1]) == Some(SpecToken::RBrace),
    ensures
        factor_at(s, i) == (
            Ok::<SpecExpr, SpecErr>(SpecExpr::List(elems)),
            ends[elems.len() - 1] + 1,
        ),
{
    reveal(expect_at);
    assert(elems[0] == elems[0]);
    if s.at(i + 1) == Some(SpecToken::RBrace) {
        no_expression_at(s, i + 1);
    }
    list_tail(s, SpecToken::RBrace, i, elems, ends, 0);
    assert(elems.take(0) =~= seq![]);
    assert(exprs_at(s, SpecToken::RBrace, i + 1) == (
        Ok::<Seq<SpecExpr>, SpecErr>(elems),
        ends[elems.len() - 1],
    ));
}

/// A call holds every argument between its parentheses, in order: a name,
/// `(`, then expressions separated by commas, then `)`, parse as the call
/// of that name with those arguments.
pub proof fn call_holds_its_arguments(
    s: TokenStream,
    i: int,
    callee: Seq<char>,
    args: Seq<SpecExpr>,
    ends: Seq<int>,
)
    requires
        s.at(i) == Some(SpecToken::Ident(callee)),
        s.at(i + 1) == Some(SpecToken::LParen),
        list_elements(s, i + 1, args, ends),
        args.len() > 0,
        s.at(ends[args.len() - 1]) == Some(SpecToken::RParen),
    ensures
        factor_at(s, i) == (
            Ok::<SpecExpr, SpecErr>(SpecExpr::Call { callee, args }),
            ends[args.len() - 1] + 1,
        ),
{
    reveal(expect_at);
    assert(args[0] == args[0]);
    if s.at(i + 2) == Some(SpecToken::RParen) {
        no_expression_at(s, i + 2);
    }
    list_tail(s, SpecToken::RParen, i + 1, args, ends, 0);
    assert(args.take(0) =~= seq![]);
}

/// A name followed at once by `()` is a call without arguments.
pub proof fn empty_parentheses_call_without_arguments(s: TokenStream, i: int, callee: Seq<char>)
    requires
        s.at(i) == Some(SpecToken::Ident(callee)),
        s.at(i + 1) == Some(SpecToken::LParen),
        s.at(i + 2) == Some(SpecToken::RParen),
    ensures
        factor_at(s, i) == (
            Ok::<SpecExpr, SpecErr>(SpecExpr::Call { callee, args: seq![] }),
            i + 3,
        ),
{
    reveal(expect_at);
}

/// An anonymous function without parameters, as the parser reads it:
/// `fn`, `(`, `)`, a second `)`, `{`, an expression and `}` make a function
/// with no parameter list whose value is that expression.
pub proof fn lambda_without_params(s: TokenStream, i: int, value: SpecExpr, j: int)
    requires
        s.at(i) == Some(SpecToken::Fn),
        s.at(i + 1) == Some(SpecToken::LParen),
        s.at(i + 2) == Some(SpecToken::RParen),
        s.at(i + 3) == Some(SpecToken::RParen),
        s.at(i + 4) == Some(SpecToken::LCurl),
        expr_at(s, i + 5) == (Ok::<SpecExpr, SpecErr>(value), j),
        s.at(j) == Some(SpecToken::RCurl),
    ensures
        factor_at(s, i) == (
            Ok::<SpecExpr, SpecErr>(SpecExpr::Lambda { params: None, value: Box::new(value) }),
            j + 1,
        ),
{
    reveal(expect_at);
}

/// An anonymous function with parameters: `fn`, `(`, expressions separated
/// by commas, `)`, `{`, an expression and `}` make a function with those
/// parameters, in order, whose value is that expression.
pub proof fn lambda_with_params(
    s: TokenStream,
    i: int,
    params: Seq<SpecExpr>,
    ends: Seq<int>,
    value: SpecExpr,
    j: int,
)
    requires
        s.at(i) == Some(SpecToken::Fn),
        s.at(i + 1) == Some(SpecToken::LParen),
        list_elements(s, i + 1, params, ends),
        params.len() > 0,
        s.at(ends[params.len() - 1]) == Some(SpecToken::RParen),
        s.at(ends[params.len() - 1] + 1) == Some(SpecToken::LCurl),
        expr_at(s, ends[params.len() - 1] + 2) == (Ok::<SpecExpr, SpecErr>(value), j),
        s.at(j) == Some(SpecToken::RCurl),
    ensures
        factor_at(s, i) == (
            Ok::<SpecExpr, SpecErr>(SpecExpr::Lambda { params: Some(params), value: Box::new(value) }),
            j + 1,
        ),
{
    reveal(expect_at);
    assert(params[0] == params[0]);
    if s.at(i + 2) == Some(SpecToken::RParen) {
        no_expression_at(s, i + 2);
    }
    list_tail(s, SpecToken::RParen, i + 1, params, ends, 0);
    assert(params.take(0) =~= seq![]);
    assert(exprs_at(s, SpecToken::RParen, i + 2) == (
        Ok::<Seq<SpecExpr>, SpecErr>(params),
        ends[params.len() - 1],
    ));
    lemma_exprs_at(s, SpecToken::RParen, i + 2);
}

// ---------------------------------------------------------------------------
// Statements, blocks and programs
// ---------------------------------------------------------------------------

/// `let name = value`: a `let`, a name, `=` and an expression make a binding
/// of that name to that expression.
pub proof fn let_binds_name_to_value(s: TokenStream, i: int, name: Seq<char>, value: SpecExpr, j: int)
    requires
        s.at(i) == Some(SpecToken::Let),
        s.at(i + 1) == Some(SpecToken::Ident(name)),
        s.at(i + 2) == Some(SpecToken::Eq),
        expr_at(s, i + 3) == (Ok::<SpecExpr, SpecErr>(value), j),
    ensures
        stmt_at(s, i) == (Ok::<SpecStmt, SpecErr>(SpecStmt::Let { name, value }), j),
{
    reveal(expect_at);
    reveal(ident_at);
}

/// Where statement `k` of a run that starts at `i0` starts, given where
/// each statement ends.
pub open spec fn stmt_start(i0: int, ends: Seq<int>, k: int) -> int {
    if k == 0 {
        i0
    } else {
        ends[k - 1]
    }
}

/// The statements `stmts` one after another from `i0`, each parsed from
/// where the one before it ended.
pub open spec fn stmt_run(s: TokenStream, i0: int, stmts: Seq<SpecStmt>, ends: Seq<int>) -> bool {
    &&& stmts.len() == ends.len()
    &&& forall|k: int|
        #![trigger stmts[k]]
        0 <= k < stmts.len() ==> stmt_at(s, stmt_start(i0, ends, k)) == (
            Ok::<SpecStmt, SpecErr>(stmts[k]),
            ends[k],
        )
}

/// The end of such a run: where its last statement ends, or `i0`.
pub open spec fn run_end(i0: int, ends: Seq<int>) -> int {
    if ends.len() == 0 {
        i0
    } else {
        ends[ends.len() - 1]
    }
}

/// A statement that parses starts at a token that is neither `}` nor the
/// end.
proof fn stmt_starts_at_a_token(s: TokenStream, x: int)
    requires
        stmt_at(s, x).0 is Ok,
    ensures
        s.at(x) is Some,
        s.at(x) != Some(SpecToken::RCurl),
{
    reveal(expect_at);
    reveal(ident_at);
    reveal(struct_at);
    if s.at(x) is None || s.at(x) == Some(SpecToken::RCurl) {
        no_expression_at(s, x);
    }
}

proof fn block_tail(s: TokenStream, i0: int, stmts: Seq<SpecStmt>, ends: Seq<int>, k: int)
    requires
        stmt_run(s, i0, stmts, ends),
        s.at(run_end(i0, ends)) == Some(SpecToken::RCurl),
        0 <= k <= stmts.len(),
    ensures
        block_loop(s, stmts.take(k), stmt_start(i0, ends, k)) == (
            Ok::<Seq<SpecStmt>, SpecErr>(stmts),
            run_end(i0, ends) + 1,
        ),
    decreases stmts.len() - k,
{
    if k == stmts.len() {
        assert(stmts.take(k) =~= stmts);
    } else {
        let x = stmt_start(i0, ends, k);
        assert(stmts[k] == stmts[k]);
        assert(stmt_at(s, x) == (Ok::<SpecStmt, SpecErr>(stmts[k]), ends[k]));
        stmt_starts_at_a_token(s, x);
        lemma_stmt_at(s, x);
        assert(stmts.take(k).push(stmts[k]) =~= stmts.take(k + 1));
        block_tail(s, i0, stmts, ends, k + 1);
    }
}

/// A block holds every statement between its braces, in order: `{`, then
/// statements one after another, then `}`, parse as those statements.
pub proof fn block_holds_its_statements(s: TokenStream, i: int, stmts: Seq<SpecStmt>, ends: Seq<int>)
    requires
        s.at(i) == Some(SpecToken::LCurl),
        stmt_run(s, i + 1, stmts, ends),
        s.at(run_end(i + 1, ends)) == Some(SpecToken::RCurl),
    ensures
        block_at(s, i) == (Ok::<Seq<SpecStmt>, SpecErr>(stmts), run_end(i + 1, ends) + 1),
{
    reveal(expect_at);
    block_tail(s, i + 1, stmts, ends, 0);
    assert(stmts.take(0) =~= seq![]);
}

proof fn program_tail(s: TokenStream, i0: int, stmts: Seq<SpecStmt>, ends: Seq<int>, k: int)
    requires
        stmt_run(s, i0, stmts, ends),
        s.at(run_end(i0, ends)) is None,
        0 <= k <= stmts.len(),
    ensures
        program_loop(s, stmts.take(k), stmt_start(i0, ends, k)) == (
            Ok::<Seq<SpecStmt>, SpecErr>(stmts),
            run_end(i0, ends),
        ),
    decreases stmts.len() - k,
{
    if k == stmts.len() {
        assert(stmts.take(k) =~= stmts);
    } else {
        let x = stmt_start(i0, ends, k);
        assert(stmts[k] == stmts[k]);
        assert(stmt_at(s, x) == (Ok::<SpecStmt, SpecErr>(stmts[k]), ends[k]));
        stmt_starts_at_a_token(s, x);
        lemma_stmt_at(s, x);
        assert(stmts.take(k).push(stmts[k]) =~= stmts.take(k + 1));
        program_tail(s, i0, stmts, ends, k + 1);
    }
}

/// A program is every statement up to the end, in order: statements one
/// after another from the start, the last of them ending where the tokens
/// run out, parse as the program of those statements.
pub proof fn program_holds_its_statements(s: TokenStream, stmts: Seq<SpecStmt>, ends: Seq<int>)
    requires
        stmt_run(s, 0, stmts, ends),
        s.at(run_end(0, ends)) is None,
    ensures
        program_at(s, 0) == (Ok::<Seq<SpecStmt>, SpecErr>(stmts), run_end(0, ends)),
{
    program_tail(s, 0, stmts, ends, 0);
    assert(stmts.take(0) =~= seq![]);
}

/// `if cond { .. } else { .. }` and `if cond { .. }`: the condition, the
/// block after it, and the block after `else` where there is one, make the
/// `if` expression.
pub proof fn if_takes_condition_and_blocks(
    s: TokenStream,
    i: int,
    cond: SpecExpr,
    j: int,
    then: Seq<SpecStmt>,
    k: int,
    els: Option<Seq<SpecStmt>>,
    l: int,
)
    requires
        s.at(i) == Some(SpecToken::If),
        expr_at(s, i + 1) == (Ok::<SpecExpr, SpecErr>(cond), j),
        block_at(s, j) == (Ok::<Seq<SpecStmt>, SpecErr>(then), k),
        match els {
            Some(e) => s.at(k) == Some(SpecToken::Else) && block_at(s, k + 1) == (
                Ok::<Seq<SpecStmt>, SpecErr>(e),
                l,
            ),
            None => s.at(k) != Some(SpecToken::Else) && l == k,
        },
    ensures
        factor_at(s, i) == (
            Ok::<SpecExpr, SpecErr>(SpecExpr::If { cond: Box::new(cond), then, else_: els }),
            l,
        ),
{
    lemma_expr_at(s, i + 1);
    lemma_block_at(s, j);
}

/// Where the `)` after `n` parameters of a function declaration at `i`
/// stands.
pub open spec fn params_close(i: int, n: int) -> int {
    if n == 0 {
        i + 3
    } else {
        i + 2 + 2 * n
    }
}

/// The parameter names of a function declaration at `i`: from `i + 3` on,
/// one name every two tokens, with a comma between each two.
pub open spec fn param_names(s: TokenStream, i: int, names: Seq<Seq<char>>) -> bool {
    forall|k: int|
        #![trigger names[k]]
        0 <= k < names.len() ==> s.at(i + 3 + 2 * k) == Some(SpecToken::Ident(names[k])) && (k
            + 1 < names.len() ==> s.at(i + 4 + 2 * k) == Some(SpecToken::Comma))
}

/// The parameters that the names make.
pub open spec fn params_of(names: Seq<Seq<char>>) -> Seq<SpecExpr> {
    Seq::new(names.len(), |k: int| SpecExpr::Ident(names[k]))
}

proof fn params_from(s: TokenStream, i: int, names: Seq<Seq<char>>, k: int)
    requires
        param_names(s, i, names),
        s.at(params_close(i, names.len() as int)) == Some(SpecToken::RParen),
        0 <= k < names.len(),
    ensures
        params_loop(s, params_of(names).take(k), i + 3 + 2 * k) == (
            Ok::<Seq<SpecExpr>, SpecErr>(params_of(names)),
            params_close(i, names.len() as int),
        ),
    decreases names.len() - k,
{
    reveal(expect_at);
    reveal(ident_at);
    let ps = params_of(names);
    assert(names[k] == names[k]);
    assert(ps.take(k).push(SpecExpr::Ident(names[k])) =~= ps.take(k + 1));
    if k + 1 < names.len() {
        assert(i + 3 + 2 * (k + 1) == i + 3 + 2 * k + 2);
        params_from(s, i, names, k + 1);
    } else {
        assert(ps.take(k + 1) =~= ps);
    }
}

/// A function declaration: `fn`, its name, `(`, parameter names separated
/// by commas, `)` and a block make the declaration of a function with those
/// parameters, in order, and that body.
pub proof fn fn_decl_takes_names_and_body(
    s: TokenStream,
    i: int,
    name: Seq<char>,
    names: Seq<Seq<char>>,
    body: Seq<SpecStmt>,
    j: int,
)
    requires
        s.at(i) == Some(SpecToken::Fn),
        s.at(i + 1) == Some(SpecToken::Ident(name)),
        s.at(i + 2) == Some(SpecToken::LParen),
        param_names(s, i, names),
        s.at(params_close(i, names.len() as int)) == Some(SpecToken::RParen),
        block_at(s, params_close(i, names.len() as int) + 1) == (
            Ok::<Seq<SpecStmt>, SpecErr>(body),
            j,
        ),
    ensures
        stmt_at(s, i) == (
            Ok::<SpecStmt, SpecErr>(SpecStmt::FnDecl { name, params: params_of(names), body }),
            j,
        ),
{
    reveal(expect_at);
    reveal(ident_at);
    let c = params_close(i, names.len() as int);
    if names.len() == 0 {
        assert(params_of(names) =~= seq![]);
        assert(params_at(s, i + 3) == (Ok::<Seq<SpecExpr>, SpecErr>(seq![]), i + 3));
    } else {
        assert(names[0] == names[0]);
        params_from(s, i, names, 0);
        assert(params_of(names).take(0) =~= seq![]);
        assert(params_at(s, i + 3) == (Ok::<Seq<SpecExpr>, SpecErr>(params_of(names)), c));
    }
    lemma_params_at(s, i + 3);
}

// ---------------------------------------------------------------------------
// Structs
// ---------------------------------------------------------------------------

/// The tokens `name ':' ty` at `x`, and a `,` after them when `comma`.
pub open spec fn field_tokens(s: TokenStream, x: int, name: Seq<char>, ty: Seq<char>, comma: bool) -> bool {
    &&& s.at(x) == Some(SpecToken::Ident(name))
    &&& s.at(x + 1) == Some(SpecToken::Colon)
    &&& s.at(x + 2) == Some(SpecToken::Ident(ty))
    &&& comma ==> s.at(x + 3) == Some(SpecToken::Comma)
}

/// The fields `names[k]: tys[k]` from `f0` on, four tokens each, with a
/// comma between them and, when `trailing`, one after the last.
pub open spec fn field_list(
    s: TokenStream,
    f0: int,
    names: Seq<Seq<char>>,
    tys: Seq<Seq<char>>,
    trailing: bool,
) -> bool {
    &&& names.len() == tys.len()
    &&& forall|k: int|
        #![trigger names[k]]
        0 <= k < names.len() ==> field_tokens(
            s,
            f0 + 4 * k,
            names[k],
            tys[k],
            k + 1 < names.len() || trailing,
        )
}

/// Where the `}` after such fields stands.
pub open spec fn fields_close(f0: int, n: int, trailing: bool) -> int {
    if n == 0 || trailing {
        f0 + 4 * n
    } else {
        f0 + 4 * n - 1
    }
}

/// The fields that the names and types make.
pub open spec fn fields_of(names: Seq<Seq<char>>, tys: Seq<Seq<char>>) -> Seq<SpecField> {
    Seq::new(names.len(), |k: int| SpecField { name: names[k], ty: tys[k] })
}

proof fn fields_from(
    s: TokenStream,
    f0: int,
    names: Seq<Seq<char>>,
    tys: Seq<Seq<char>>,
    trailing: bool,
    k: int,
)
    requires
        field_list(s, f0, names, tys, trailing),
        s.at(fields_close(f0, names.len() as int, trailing)) == Some(SpecToken::RCurl),
        0 <= k <= names.len(),
        k == names.len() ==> names.len() == 0 || trailing,
    ensures
        struct_fields(s, fields_of(names, tys).take(k), f0 + 4 * k) == (
            Ok::<Seq<SpecField>, SpecErr>(fields_of(names, tys)),
            fields_close(f0, names.len() as int, trailing),
        ),
    decreases names.len() - k,
{
    reveal(expect_at);
    reveal(ident_at);
    let n = names.len() as int;
    let fs = fields_of(names, tys);
    if k == n {
        assert(fs.take(k) =~= fs);
    } else {
        let x = f0 + 4 * k;
        assert(names[k] == names[k]);
        assert(field_tokens(s, x, names[k], tys[k], k + 1 < n || trailing));
        assert(fs.take(k).push(SpecField { name: names[k], ty: tys[k] }) =~= fs.take(k + 1));
        if k + 1 < n || trailing {
            assert(f0 + 4 * (k + 1) == x + 4);
            fields_from(s, f0, names, tys, trailing, k + 1);
        } else {
            assert(fs.take(k + 1) =~= fs);
            assert(fields_close(f0, n, trailing) == x + 3);
        }
    }
}

/// A struct declaration keeps every `name: type` pair of its body, in order,
/// whether or not a comma follows the last one.
pub proof fn struct_keeps_every_field(
    s: TokenStream,
    i: int,
    name: Seq<char>,
    names: Seq<Seq<char>>,
    tys: Seq<Seq<char>>,
    trailing: bool,
)
    requires
        s.at(i) == Some(SpecToken::Struct),
        s.at(i + 1) == Some(SpecToken::Ident(name)),
        s.at(i + 2) == Some(SpecToken::LCurl),
        field_list(s, i + 3, names, tys, trailing),
        s.at(fields_close(i + 3, names.len() as int, trailing)) == Some(SpecToken::RCurl),
    ensures
        stmt_at(s, i) == (
            Ok::<SpecStmt, SpecErr>(SpecStmt::Struct { name, fields: fields_of(names, tys) }),
            fields_close(i + 3, names.len() as int, trailing) + 1,
        ),
{
    reveal(expect_at);
    reveal(ident_at);
    reveal(struct_at);
    fields_from(s, i + 3, names, tys, trailing, 0);
    assert(fields_of(names, tys).take(0) =~= seq![]);
}

} // verus!
