//! The lexer: a model of what one call of `next` does to the position in the
//! source bytes and which token it gives back, and the executable lexer that
//! is proved to follow it.

use vstd::prelude::*;
use vstd::utf8::*;
use vstd::string::StringSliceAdditionalSpecFns;
use crate::chars::{
    is_ws_byte, is_digit_byte, is_alpha_byte, is_alnum_byte, byte_is_ws, byte_is_digit,
    byte_is_alpha, byte_is_alnum,
};
use crate::chars::{
    OPEN_PAREN, CLOSE_PAREN, OPEN_BRACKET, CLOSE_BRACKET, OPEN_CURLY, CLOSE_CURLY, PLUS, MINUS, STAR, SLASH, COMMA, COLON, DOT, EQUALS, BANG, LESS, GREATER, QUOTE, BACKSLASH,
};
use crate::grammar::TokenStream;
use crate::token::{Token, SpecToken, opt_token_view, tokens_view};

verus! {

/// The first position at or after `p` that does not hold whitespace.
pub open spec fn after_whitespace(src: Seq<u8>, p: int) -> int
    decreases src.len() - p,
{
    if 0 <= p < src.len() && is_ws_byte(src[p]) {
        after_whitespace(src, p + 1)
    } else {
        p
    }
}

/// The end of the run of alphanumeric bytes that starts at `p`.
pub open spec fn word_end(src: Seq<u8>, p: int) -> int
    decreases src.len() - p,
{
    if 0 <= p < src.len() && is_alnum_byte(src[p]) {
        word_end(src, p + 1)
    } else {
        p
    }
}

/// The end of a number literal whose remaining text starts at `p`: digits,
/// and one `.` unless `seen_dot` says that one was already taken.
pub open spec fn number_end(src: Seq<u8>, p: int, seen_dot: bool) -> int
    decreases src.len() - p,
{
    if 0 <= p < src.len() {
        if is_digit_byte(src[p]) {
            number_end(src, p + 1, seen_dot)
        } else if src[p] == DOT && !seen_dot {
            number_end(src, p + 1, true)
        } else {
            p
        }
    } else {
        p
    }
}

/// The end of the body of a string literal that starts at `p`: the position
/// of the closing `"`, or the end of the source. A backslash makes the byte
/// after it part of the body.
pub open spec fn string_end(src: Seq<u8>, p: int) -> int
    decreases src.len() - p,
{
    if 0 <= p < src.len() {
        if src[p] == BACKSLASH {
            if p + 1 < src.len() {
                string_end(src, p + 2)
            } else {
                p + 1
            }
        } else if src[p] == QUOTE {
            p
        } else {
            string_end(src, p + 1)
        }
    } else {
        p
    }
}

/// The token for a word: one of the keywords `let`, `fn`, `struct`, `if`,
/// `else` (compared byte by byte in that order), or else an identifier.
pub open spec fn keyword_or_ident(word: Seq<u8>) -> SpecToken {
    if word == seq![0x6Cu8, 0x65u8, 0x74u8] {
        SpecToken::Let
    } else if word == seq![0x66u8, 0x6Eu8] {
        SpecToken::Fn
    } else if word == seq![0x73u8, 0x74u8, 0x72u8, 0x75u8, 0x63u8, 0x74u8] {
        SpecToken::Struct
    } else if word == seq![0x69u8, 0x66u8] {
        SpecToken::If
    } else if word == seq![0x65u8, 0x6Cu8, 0x73u8, 0x65u8] {
        SpecToken::Else
    } else {
        SpecToken::Ident(decode_utf8(word))
    }
}

/// The token that a byte stands for when it is a token by itself.
pub open spec fn single_byte_token(c: u8) -> Option<SpecToken> {
    if c == OPEN_PAREN {
        Some(SpecToken::LParen)
    } else if c == CLOSE_PAREN {
        Some(SpecToken::RParen)
    } else if c == OPEN_BRACKET {
        Some(SpecToken::LBrace)
    } else if c == CLOSE_BRACKET {
        Some(SpecToken::RBrace)
    } else if c == OPEN_CURLY {
        Some(SpecToken::LCurl)
    } else if c == CLOSE_CURLY {
        Some(SpecToken::RCurl)
    } else if c == PLUS {
        Some(SpecToken::Plus)
    } else if c == MINUS {
        Some(SpecToken::Minus)
    } else if c == STAR {
        Some(SpecToken::Mul)
    } else if c == SLASH {
        Some(SpecToken::Div)
    } else if c == COMMA {
        Some(SpecToken::Comma)
    } else if c == COLON {
        Some(SpecToken::Colon)
    } else if c == DOT {
        Some(SpecToken::Dot)
    } else {
        None
    }
}

/// What one call of `Lexer::next` does: the token it returns, the position
/// it leaves the lexer at, and whether it panics. It panics only where it
/// cuts the text of a token out of the source at a position that is not a
/// character boundary.
pub struct LexStep {
    pub token: Option<SpecToken>,
    pub next: int,
    pub panics: bool,
}

/// A step that gives back a token without text.
pub open spec fn plain_step(token: SpecToken, next: int) -> LexStep {
    LexStep { token: Some(token), next, panics: false }
}

/// A step that gives back a token whose text is `src[start..end]`.
pub open spec fn text_step(src: Seq<u8>, start: int, end: int, token: SpecToken, next: int) -> LexStep {
    LexStep {
        token: Some(token),
        next,
        panics: !(is_char_boundary(src, start) && is_char_boundary(src, end)),
    }
}

/// A step that gives back no token.
pub open spec fn empty_step(next: int) -> LexStep {
    LexStep { token: None, next, panics: false }
}

/// Whether the byte after position `q` is `=`.
pub open spec fn followed_by_eq(src: Seq<u8>, q: int) -> bool {
    q + 1 < src.len() && src[q + 1] == EQUALS
}

/// One call of `Lexer::next` at position `p`: skip whitespace, then read one
/// token. At the end of the source, at a byte that starts no token, and at a
/// `!` not followed by `=` (which it steps over) it gives back no token.
#[verifier::opaque]
pub open spec fn lex_step(src: Seq<u8>, p: int) -> LexStep {
    let q = after_whitespace(src, p);
    if !(0 <= q < src.len()) {
        empty_step(q)
    } else {
        let c = src[q];
        if single_byte_token(c) is Some {
            LexStep { token: single_byte_token(c), next: q + 1, panics: false }
        } else if c == EQUALS {
            if followed_by_eq(src, q) {
                plain_step(SpecToken::EqEq, q + 2)
            } else {
                plain_step(SpecToken::Eq, q + 1)
            }
        } else if c == BANG {
            if followed_by_eq(src, q) {
                plain_step(SpecToken::NotEq, q + 2)
            } else {
                empty_step(q + 1)
            }
        } else if c == LESS {
            if followed_by_eq(src, q) {
                plain_step(SpecToken::LtEq, q + 2)
            } else {
                plain_step(SpecToken::Lt, q + 1)
            }
        } else if c == GREATER {
            if followed_by_eq(src, q) {
                plain_step(SpecToken::GtEq, q + 2)
            } else {
                plain_step(SpecToken::Gt, q + 1)
            }
        } else if is_alpha_byte(c) {
            let e = word_end(src, q);
            text_step(src, q, e, keyword_or_ident(src.subrange(q, e)), e)
        } else if is_digit_byte(c) {
            let e = number_end(src, q, false);
            text_step(src, q, e, SpecToken::Number(decode_utf8(src.subrange(q, e))), e)
        } else if c == QUOTE {
            let e = string_end(src, q + 1);
            text_step(
                src,
                q + 1,
                e,
                SpecToken::String(decode_utf8(src.subrange(q + 1, e))),
                if e < src.len() { e + 1 } else { e },
            )
        } else {
            empty_step(q)
        }
    }
}

/// The tokens that calls of `next` from position `p` give back before the
/// first call that gives back none.
pub open spec fn tokens_from(src: Seq<u8>, p: int) -> Seq<SpecToken>
    decreases src.len() - p,
{
    let st = lex_step(src, p);
    match st.token {
        Some(t) => if p < st.next <= src.len() {
            seq![t] + tokens_from(src, st.next)
        } else {
            seq![t]
        },
        None => seq![],
    }
}

/// The position at which the lexer stands after the first call of `next`
/// from `p` that gives back no token.
pub open spec fn end_from(src: Seq<u8>, p: int) -> int
    decreases src.len() - p,
{
    let st = lex_step(src, p);
    match st.token {
        Some(t) => if p < st.next <= src.len() {
            end_from(src, st.next)
        } else {
            st.next
        },
        None => st.next,
    }
}

/// No call of `next` from `p` up to and including the first one that gives
/// back no token panics.
pub open spec fn lexes_safely_from(src: Seq<u8>, p: int) -> bool
    decreases src.len() - p,
{
    let st = lex_step(src, p);
    &&& !st.panics
    &&& (st.token is Some && p < st.next <= src.len()) ==> lexes_safely_from(src, st.next)
}

/// The position after `k` calls of `next` from `p`.
pub open spec fn pos_after(src: Seq<u8>, p: int, k: nat) -> int
    decreases k,
{
    if k == 0 {
        p
    } else {
        pos_after(src, lex_step(src, p).next, (k - 1) as nat)
    }
}

/// Call number `k` (counting from 0) of `next` on a lexer made for `src`.
pub open spec fn stream_step(src: Seq<u8>, k: nat) -> LexStep {
    lex_step(src, pos_after(src, 0, k))
}

/// None of the first `n` calls of `next` on a lexer made for `src` panics.
#[verifier::opaque]
pub open spec fn lexes_safely_upto(src: Seq<u8>, n: int) -> bool {
    forall|k: nat| k < n ==> !(#[trigger] stream_step(src, k)).panics
}

/// Fewer calls are as safe as more.
pub broadcast proof fn lemma_lexes_safely_fewer(src: Seq<u8>, m: int, n: int)
    requires
        #[trigger] lexes_safely_upto(src, m),
        n <= m,
    ensures
        #[trigger] lexes_safely_upto(src, n),
{
    reveal(lexes_safely_upto);
}

// ---------------------------------------------------------------------------
// Facts about the model
// ---------------------------------------------------------------------------

pub proof fn lemma_after_whitespace(src: Seq<u8>, p: int)
    requires
        0 <= p <= src.len(),
    ensures
        p <= after_whitespace(src, p) <= src.len(),
        after_whitespace(src, p) < src.len() ==> !is_ws_byte(src[after_whitespace(src, p)]),
    decreases src.len() - p,
{
    if p < src.len() && is_ws_byte(src[p]) {
        lemma_after_whitespace(src, p + 1);
    }
}

pub proof fn lemma_word_end(src: Seq<u8>, p: int)
    requires
        0 <= p <= src.len(),
    ensures
        p <= word_end(src, p) <= src.len(),
        p < src.len() && is_alnum_byte(src[p]) ==> p < word_end(src, p),
    decreases src.len() - p,
{
    if p < src.len() && is_alnum_byte(src[p]) {
        lemma_word_end(src, p + 1);
    }
}

pub proof fn lemma_number_end(src: Seq<u8>, p: int, seen_dot: bool)
    requires
        0 <= p <= src.len(),
    ensures
        p <= number_end(src, p, seen_dot) <= src.len(),
        p < src.len() && is_digit_byte(src[p]) ==> p < number_end(src, p, seen_dot),
    decreases src.len() - p,
{
    if p < src.len() {
        if is_digit_byte(src[p]) {
            lemma_number_end(src, p + 1, seen_dot);
        } else if src[p] == DOT && !seen_dot {
            lemma_number_end(src, p + 1, true);
        }
    }
}

pub proof fn lemma_string_end(src: Seq<u8>, p: int)
    requires
        0 <= p <= src.len(),
    ensures
        p <= string_end(src, p) <= src.len(),
    decreases src.len() - p,
{
    if p < src.len() {
        if src[p] == BACKSLASH {
            if p + 1 < src.len() {
                lemma_string_end(src, p + 2);
            }
        } else if src[p] != QUOTE {
            lemma_string_end(src, p + 1);
        }
    }
}

/// A call of `next` never moves backwards nor past the end, and each token
/// it gives back takes at least one byte.
pub proof fn lemma_lex_step(src: Seq<u8>, p: int)
    requires
        0 <= p <= src.len(),
    ensures
        p <= lex_step(src, p).next <= src.len(),
        lex_step(src, p).token is Some ==> p < lex_step(src, p).next,
{
    reveal(lex_step);
    let q = after_whitespace(src, p);
    lemma_after_whitespace(src, p);
    if 0 <= q < src.len() {
        lemma_word_end(src, q);
        lemma_number_end(src, q, false);
        lemma_string_end(src, q + 1);
    }
}

pub proof fn lemma_pos_after(src: Seq<u8>, p: int, k: nat)
    requires
        0 <= p <= src.len(),
    ensures
        p <= pos_after(src, p, k) <= src.len(),
        pos_after(src, p, k + 1) == lex_step(src, pos_after(src, p, k)).next,
    decreases k,
{
    lemma_lex_step(src, p);
    let n = lex_step(src, p).next;
    assert(pos_after(src, p, k + 1) == pos_after(src, n, k));
    if k > 0 {
        lemma_pos_after(src, n, (k - 1) as nat);
        assert(pos_after(src, p, k) == pos_after(src, n, (k - 1) as nat));
    }
}

/// Call number `k` of `next` from position `p` gives back token number `k`
/// of `tokens_from(src, p)`, and the call right after the last of them gives
/// back none.
pub proof fn lemma_pos_after_tokens(src: Seq<u8>, p: int, k: nat)
    requires
        0 <= p <= src.len(),
        k <= tokens_from(src, p).len(),
    ensures
        lex_step(src, pos_after(src, p, k)).token == if k < tokens_from(src, p).len() {
            Some(tokens_from(src, p)[k as int])
        } else {
            None::<SpecToken>
        },
    decreases k,
{
    lemma_lex_step(src, p);
    let st = lex_step(src, p);
    if k > 0 {
        let n = st.next;
        assert(pos_after(src, p, k) == pos_after(src, n, (k - 1) as nat));
        lemma_pos_after_tokens(src, n, (k - 1) as nat);
    }
}

/// The stream of tokens that successive calls of `next` give on a lexer
/// made for `src`; its rank is the number of bytes left to read.
pub open spec fn lexed_stream(src: Seq<u8>) -> TokenStream {
    TokenStream {
        tok: |i: int| if i >= 0 { stream_step(src, i as nat).token } else { None },
        rank: |i: int| if i >= 0 { (src.len() - pos_after(src, 0, i as nat)) as nat } else { 0 },
    }
}

/// In the lexed stream, the token at each position is what that call of
/// `next` gives back.
pub proof fn lemma_lexed_at(src: Seq<u8>, i: int)
    requires
        0 <= i,
    ensures
        lexed_stream(src).at(i) == stream_step(src, i as nat).token,
{
    lemma_pos_after(src, 0, i as nat);
    lemma_lex_step(src, pos_after(src, 0, i as nat));
    assert(((i + 1) as nat) == (i as nat) + 1);
}

// ---------------------------------------------------------------------------
// Executable lexer
// ---------------------------------------------------------------------------

/// Cuts `s[a..b]` out of `s`, `a` and `b` being character boundaries.
fn substr<'b>(s: &'b str, a: usize, b: usize) -> (r: &'b str)
    requires
        a <= b <= s.spec_bytes().len(),
        is_char_boundary(s.spec_bytes(), a as int),
        is_char_boundary(s.spec_bytes(), b as int),
    ensures
        r.spec_bytes() == s.spec_bytes().subrange(a as int, b as int),
{
    let ghost bytes = s.spec_bytes();
    proof {
        encode_utf8_valid_utf8(s@);
        valid_utf8_split(bytes, b as int);
    }
    let (left, _) = s.split_at(b);
    proof {
        let lb = bytes.subrange(0, b as int);
        assert(left.spec_bytes() == lb);
        if a == b {
            is_char_boundary_start_end_of_seq(lb);
        } else if a > 0 {
            is_char_boundary_iff_not_is_continuation_byte(bytes, a as int);
            is_char_boundary_iff_not_is_continuation_byte(lb, a as int);
        }
    }
    let (_, mid) = left.split_at(a);
    proof {
        assert(mid.spec_bytes() =~= bytes.subrange(a as int, b as int));
    }
    mid
}

/// The token for the text of a word.
fn word_token(word: &str) -> (t: Token)
    ensures
        t@ == keyword_or_ident(word.spec_bytes()),
{
    let b = word.as_bytes();
    let ghost w = word.spec_bytes();
    proof {
        encode_utf8_decode_utf8(word@);
    }
    if b.len() == 3 && b[0] == 0x6Cu8 && b[1] == 0x65u8 && b[2] == 0x74u8 {
        assert(w =~= seq![0x6Cu8, 0x65u8, 0x74u8]);
        Token::Let
    } else if b.len() == 2 && b[0] == 0x66u8 && b[1] == 0x6Eu8 {
        assert(w =~= seq![0x66u8, 0x6Eu8]);
        Token::Fn
    } else if b.len() == 6 && b[0] == 0x73u8 && b[1] == 0x74u8 && b[2] == 0x72u8 && b[3] == 0x75u8
        && b[4] == 0x63u8 && b[5] == 0x74u8 {
        assert(w =~= seq![0x73u8, 0x74u8, 0x72u8, 0x75u8, 0x63u8, 0x74u8]);
        Token::Struct
    } else if b.len() == 2 && b[0] == 0x69u8 && b[1] == 0x66u8 {
        assert(w =~= seq![0x69u8, 0x66u8]);
        Token::If
    } else if b.len() == 4 && b[0] == 0x65u8 && b[1] == 0x6Cu8 && b[2] == 0x73u8 && b[3] == 0x65u8 {
        assert(w =~= seq![0x65u8, 0x6Cu8, 0x73u8, 0x65u8]);
        Token::Else
    } else {
        assert(w != seq![0x6Cu8, 0x65u8, 0x74u8]);
        assert(w != seq![0x66u8, 0x6Eu8]);
        assert(w != seq![0x73u8, 0x74u8, 0x72u8, 0x75u8, 0x63u8, 0x74u8]);
        assert(w != seq![0x69u8, 0x66u8]);
        assert(w != seq![0x65u8, 0x6Cu8, 0x73u8, 0x65u8]);
        Token::Ident(word.to_owned())
    }
}

/// A lexer over a source text. It reads the UTF-8 bytes of the source one
/// at a time and gives back one token per call of `next`.
pub struct Lexer<'a> {
    source: &'a str,
    pos: usize,
}

impl<'a> Lexer<'a> {
    /// The bytes of the source.
    pub closed spec fn bytes(&self) -> Seq<u8> {
        self.source.spec_bytes()
    }

    /// The position of the next byte to read.
    pub closed spec fn position(&self) -> int {
        self.pos as int
    }

    /// The position lies within the source.
    pub closed spec fn wf(&self) -> bool {
        self.pos <= self.source.spec_bytes().len()
    }

    /// A valid lexer stands within its source.
    pub proof fn lemma_position_in_source(&self)
        requires
            self.wf(),
        ensures
            0 <= self.position() <= self.bytes().len(),
    {
    }

    /// A lexer at the start of `source`.
    pub fn new(source: &'a str) -> (r: Self)
        ensures
            r.wf(),
            r.bytes() == source.spec_bytes(),
            r.position() == 0,
    {
        Self { source, pos: 0 }
    }

    /// The next token, or `None` at the end of the source, at a byte that
    /// starts no token, and at a `!` that is not followed by `=`.
    pub fn next(&mut self) -> (r: Option<Token>)
        requires
            old(self).wf(),
            !lex_step(old(self).bytes(), old(self).position()).panics,
        ensures
            final(self).wf(),
            final(self).bytes() == old(self).bytes(),
            final(self).position() == lex_step(old(self).bytes(), old(self).position()).next,
            opt_token_view(r) == lex_step(old(self).bytes(), old(self).position()).token,
    {
        let ghost src = self.bytes();
        let ghost p0 = self.position();
        let ghost st = lex_step(src, p0);
        proof {
            reveal(lex_step);
        }
        self.skip_ws();
        if !self.not_eof() {
            return None;
        }
        let cur = self.current();
        assert(after_whitespace(src, p0) == self.pos);
        match cur {
            OPEN_PAREN => {
                self.advance();
                Some(Token::LParen)
            },
            CLOSE_PAREN => {
                self.advance();
                Some(Token::RParen)
            },
            OPEN_BRACKET => {
                self.advance();
                Some(Token::LBrace)
            },
            CLOSE_BRACKET => {
                self.advance();
                Some(Token::RBrace)
            },
            OPEN_CURLY => {
                self.advance();
                Some(Token::LCurl)
            },
            CLOSE_CURLY => {
                self.advance();
                Some(Token::RCurl)
            },
            PLUS => {
                self.advance();
                Some(Token::Plus)
            },
            MINUS => {
                self.advance();
                Some(Token::Minus)
            },
            STAR => {
                self.advance();
                Some(Token::Mul)
            },
            SLASH => {
                self.advance();
                Some(Token::Div)
            },
            COMMA => {
                self.advance();
                Some(Token::Comma)
            },
            COLON => {
                self.advance();
                Some(Token::Colon)
            },
            DOT => {
                self.advance();
                Some(Token::Dot)
            },
            EQUALS => {
                self.advance();
                if self.not_eof() && self.current() == EQUALS {
                    self.advance();
                    Some(Token::EqEq)
                } else {
                    Some(Token::Eq)
                }
            },
            BANG => {
                self.advance();
                if self.not_eof() && self.current() == EQUALS {
                    self.advance();
                    Some(Token::NotEq)
                } else {
                    None
                }
            },
            LESS => {
                self.advance();
                if self.not_eof() && self.current() == EQUALS {
                    self.advance();
                    Some(Token::LtEq)
                } else {
                    Some(Token::Lt)
                }
            },
            GREATER => {
                self.advance();
                if self.not_eof() && self.current() == EQUALS {
                    self.advance();
                    Some(Token::GtEq)
                } else {
                    Some(Token::Gt)
                }
            },
            _ => {
                if byte_is_alpha(cur) {
                    let start = self.pos;
                    while self.not_eof() && byte_is_alnum(self.current())
                        invariant
                            self.wf(),
                            self.bytes() == src,
                            start <= self.pos,
                            word_end(src, self.pos as int) == word_end(src, start as int),
                        decreases src.len() - self.pos,
                    {
                        self.advance();
                    }
                    let word = substr(self.source, start, self.pos);
                    return Some(word_token(word));
                } else if byte_is_digit(cur) {
                    let start = self.pos;
                    let mut flt = false;
                    loop
                        invariant
                            self.wf(),
                            self.bytes() == src,
                            start <= self.pos,
                            number_end(src, self.pos as int, flt) == number_end(src, start as int, false),
                        ensures
                            self.wf(),
                            self.bytes() == src,
                            start <= self.pos,
                            self.pos == number_end(src, start as int, false),
                        decreases src.len() - self.pos,
                    {
                        if !self.not_eof() {
                            break;
                        }
                        let b = self.current();
                        if byte_is_digit(b) {
                            self.advance();
                        } else if b == DOT && !flt {
                            flt = true;
                            self.advance();
                        } else {
                            break;
                        }
                    }
                    let text = substr(self.source, start, self.pos);
                    proof {
                        encode_utf8_decode_utf8(text@);
                    }
                    return Some(Token::Number(text.to_owned()));
                } else if cur == QUOTE {
                    self.advance();
                    let start = self.pos;
                    loop
                        invariant
                            self.wf(),
                            self.bytes() == src,
                            start <= self.pos,
                            string_end(src, self.pos as int) == string_end(src, start as int),
                        ensures
                            self.wf(),
                            self.bytes() == src,
                            start <= self.pos,
                            self.pos == string_end(src, start as int),
                        decreases src.len() - self.pos,
                    {
                        if !self.not_eof() {
                            break;
                        }
                        let b = self.current();
                        if b == BACKSLASH {
                            self.advance();
                            if self.not_eof() {
                                self.advance();
                            }
                        } else if b == QUOTE {
                            break;
                        } else {
                            self.advance();
                        }
                    }
                    let text = substr(self.source, start, self.pos);
                    proof {
                        encode_utf8_decode_utf8(text@);
                    }
                    let value = text.to_owned();
                    self.advance();
                    return Some(Token::String(value));
                }
                None
            },
        }
    }

    /// Makes one call of `next` without building its token and says whether
    /// the call would panic; where it would not, the lexer moves as the call
    /// does.
    fn step_is_safe(&mut self) -> (safe: bool)
        requires
            old(self).wf(),
        ensures
            final(self).wf(),
            final(self).bytes() == old(self).bytes(),
            safe == !lex_step(old(self).bytes(), old(self).position()).panics,
            safe ==> final(self).position() == lex_step(old(self).bytes(), old(self).position()).next,
    {
        let ghost src = self.bytes();
        let ghost p0 = self.position();
        proof {
            reveal(lex_step);
            lemma_after_whitespace(src, p0);
        }
        self.skip_ws();
        if !self.not_eof() {
            return true;
        }
        let cur = self.current();
        let start = self.pos;
        if byte_is_alpha(cur) {
            while self.not_eof() && byte_is_alnum(self.current())
                invariant
                    self.wf(),
                    self.bytes() == src,
                    start <= self.pos,
                    word_end(src, self.pos as int) == word_end(src, start as int),
                decreases src.len() - self.pos,
            {
                self.advance();
            }
            self.source.is_char_boundary(start) && self.source.is_char_boundary(self.pos)
        } else if byte_is_digit(cur) {
            let mut flt = false;
            loop
                invariant
                    self.wf(),
                    self.bytes() == src,
                    start <= self.pos,
                    number_end(src, self.pos as int, flt) == number_end(src, start as int, false),
                ensures
                    self.wf(),
                    self.bytes() == src,
                    self.pos == number_end(src, start as int, false),
                decreases src.len() - self.pos,
            {
                if !self.not_eof() {
                    break;
                }
                let b = self.current();
                if byte_is_digit(b) {
                    self.advance();
                } else if b == DOT && !flt {
                    flt = true;
                    self.advance();
                } else {
                    break;
                }
            }
            self.source.is_char_boundary(start) && self.source.is_char_boundary(self.pos)
        } else if cur == QUOTE {
            self.advance();
            let body = self.pos;
            loop
                invariant
                    self.wf(),
                    self.bytes() == src,
                    body <= self.pos,
                    string_end(src, self.pos as int) == string_end(src, body as int),
                ensures
                    self.wf(),
                    self.bytes() == src,
                    self.pos == string_end(src, body as int),
                decreases src.len() - self.pos,
            {
                if !self.not_eof() {
                    break;
                }
                let b = self.current();
                if b == BACKSLASH {
                    self.advance();
                    if self.not_eof() {
                        self.advance();
                    }
                } else if b == QUOTE {
                    break;
                } else {
                    self.advance();
                }
            }
            let safe = self.source.is_char_boundary(body) && self.source.is_char_boundary(self.pos);
            self.advance();
            safe
        } else {
            assert(after_whitespace(src, start as int) == start as int);
            self.next();
            true
        }
    }

    /// All the tokens up to the first call of `next` that gives back none.
    pub fn all(&mut self) -> (r: Vec<Token>)
        requires
            old(self).wf(),
            lexes_safely_from(old(self).bytes(), old(self).position()),
        ensures
            final(self).wf(),
            final(self).bytes() == old(self).bytes(),
            tokens_view(r@) == tokens_from(old(self).bytes(), old(self).position()),
            final(self).position() == end_from(old(self).bytes(), old(self).position()),
    {
        let ghost src = self.bytes();
        let ghost p0 = self.position();
        let mut out: Vec<Token> = Vec::new();
        loop
            invariant_except_break
                tokens_view(out@) + tokens_from(src, self.position()) == tokens_from(src, p0),
                end_from(src, self.position()) == end_from(src, p0),
                lexes_safely_from(src, self.position()),
            invariant
                self.wf(),
                self.bytes() == src,
            ensures
                self.wf(),
                self.bytes() == src,
                tokens_view(out@) == tokens_from(src, p0),
                self.position() == end_from(src, p0),
            decreases src.len() - self.position(),
        {
            let ghost p = self.position();
            proof {
                lemma_lex_step(src, p);
            }
            let t = self.next();
            match t {
                Some(t) => {
                    proof {
                        assert(tokens_view(out@.push(t)) =~= tokens_view(out@).push(t@));
                        assert(tokens_from(src, p) == seq![t@] + tokens_from(src, self.position()));
                        assert(tokens_view(out@).push(t@) + tokens_from(src, self.position())
                            =~= tokens_view(out@) + (seq![t@] + tokens_from(src, self.position())));
                    }
                    out.push(t);
                },
                None => {
                    assert(tokens_view(out@) + tokens_from(src, p) =~= tokens_view(out@));
                    break;
                },
            }
        }
        out
    }

    /// The byte at the current position.
    pub fn current(&self) -> (r: u8)
        requires
            self.position() < self.bytes().len(),
        ensures
            r == self.bytes()[self.position()],
    {
        self.source.as_bytes()[self.pos]
    }

    /// Steps over one byte, unless the end has been reached.
    pub fn advance(&mut self)
        requires
            old(self).wf(),
        ensures
            final(self).wf(),
            final(self).bytes() == old(self).bytes(),
            final(self).position() == if old(self).position() < old(self).bytes().len() {
                old(self).position() + 1
            } else {
                old(self).position()
            },
    {
        if self.pos < self.source.as_bytes().len() {
            self.pos += 1;
        }
    }

    /// Steps over whitespace.
    pub fn skip_ws(&mut self)
        requires
            old(self).wf(),
        ensures
            final(self).wf(),
            final(self).bytes() == old(self).bytes(),
            final(self).position() == after_whitespace(old(self).bytes(), old(self).position()),
    {
        let ghost src = self.bytes();
        let ghost p0 = self.position();
        while self.not_eof() && byte_is_ws(self.current())
            invariant
                self.wf(),
                self.bytes() == src,
                after_whitespace(src, self.position()) == after_whitespace(src, p0),
            decreases src.len() - self.position(),
        {
            self.advance();
        }
    }

    /// Whether bytes are left to read.
    pub fn not_eof(&self) -> (r: bool)
        ensures
            r == (self.position() < self.bytes().len()),
    {
        self.pos < self.source.as_bytes().len()
    }
}

/// Calls of `next` from a position that a call leaves unchanged all stay there.
proof fn lemma_pos_after_stays(src: Seq<u8>, p: int, k: nat)
    requires
        lex_step(src, p).next == p,
    ensures
        pos_after(src, p, k) == p,
    decreases k,
{
    if k > 0 {
        lemma_pos_after_stays(src, p, (k - 1) as nat);
    }
}

/// `k + j` calls of `next` from `p` go where `j` calls go after the first `k`.
proof fn lemma_pos_after_add(src: Seq<u8>, p: int, k: nat, j: nat)
    ensures
        pos_after(src, p, k + j) == pos_after(src, pos_after(src, p, k), j),
    decreases k,
{
    if k > 0 {
        lemma_pos_after_add(src, lex_step(src, p).next, (k - 1) as nat, j);
        assert((k + j - 1) as nat == (k - 1) as nat + j);
    }
}

/// Whether no call of `next`, however many are made, panics on a lexer made
/// for `source`. It follows the calls until one would panic, or until one
/// leaves the lexer where it stood, after which every call does the same.
pub fn lexes_safely(source: &str) -> (r: bool)
    ensures
        r == forall|n: int| lexes_safely_upto(source.spec_bytes(), n),
{
    let ghost src = source.spec_bytes();
    let mut lexer = Lexer::new(source);
    let ghost mut k: nat = 0;
    proof {
        reveal(lexes_safely_upto);
    }
    loop
        invariant
            lexer.wf(),
            lexer.bytes() == src,
            src == source.spec_bytes(),
            lexer.position() == pos_after(src, 0, k),
            lexes_safely_upto(src, k as int),
        decreases src.len() - lexer.position(),
    {
        let p = lexer.pos;
        proof {
            lemma_pos_after(src, 0, k);
            lemma_lex_step(src, p as int);
        }
        if !lexer.step_is_safe() {
            proof {
                reveal(lexes_safely_upto);
                assert(stream_step(src, k).panics);
                assert(!lexes_safely_upto(src, k + 1int));
            }
            return false;
        }
        if lexer.pos == p {
            proof {
                reveal(lexes_safely_upto);
                assert forall|n: int| lexes_safely_upto(src, n) by {
                    reveal(lexes_safely_upto);
                    assert forall|m: nat| m < n implies !(#[trigger] stream_step(src, m)).panics by {
                        if m >= k {
                            lemma_pos_after_add(src, 0, k, (m - k) as nat);
                            lemma_pos_after_stays(src, p as int, (m - k) as nat);
                            assert(k + (m - k) as nat == m);
                        }
                    }
                }
            }
            return true;
        }
        proof {
            reveal(lexes_safely_upto);
            lemma_pos_after(src, 0, k);
            assert forall|m: nat| m < k + 1 implies !(#[trigger] stream_step(src, m)).panics by {
                if m == k {
                } else {
                    assert(m < k);
                }
            }
            k = k + 1;
        }
    }
}

} // verus!
