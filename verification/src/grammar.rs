//! The grammar that the parser follows, written as a deterministic function
//! from a stream of tokens to a syntax tree or an error, and facts about it.
//!
//! ```text
//! program    <- stmt*
//! stmt       <- let / fn_decl / struct / expr
//! let        <- 'let' ident '=' expr
//! fn_decl    <- 'fn' ident '(' (ident (',' ident)*)? ')' block
//! struct     <- 'struct' ident '{' (ident ':' ident (',' ident ':' ident)* ','?)? '}'
//! expr       <- additive (cmp_op term)*
//! additive   <- term ([+-] term)*
//! term       <- postfix ([*/] postfix)*
//! postfix    <- factor ('.' ident)*
//! factor     <- number / string / list / if / call / ident / '(' expr ')' / lambda
//! list       <- '[' exprs? ']'
//! call       <- ident '(' exprs? ')'
//! if         <- 'if' expr block ('else' block)?
//! lambda     <- 'fn' '(' (')' / exprs) ')' '{' expr '}'
//! block      <- '{' stmt* '}'
//! exprs      <- expr (',' expr)*
//! ```
//!
//! Each function takes the stream and the index of the current token, and
//! gives back the result together with the index of the token that is
//! current afterwards. A position from which the stream does not get
//! shorter is treated as its end, which keeps every function total.

use vstd::prelude::*;
use crate::token::SpecToken;
use crate::ast::{BinOps, SpecExpr, SpecStmt, SpecField};

verus! {

/// A stream of tokens: `tok(i)` is the `i`-th token (none at the end), and
/// `rank(i)` measures how much of the stream is left from position `i`.
pub struct TokenStream {
    pub tok: spec_fn(int) -> Option<SpecToken>,
    pub rank: spec_fn(int) -> nat,
}

impl TokenStream {
    /// The token at position `i`, where the stream gets shorter after it.
    pub open spec fn at(self, i: int) -> Option<SpecToken> {
        if (self.rank)(i + 1) < (self.rank)(i) {
            (self.tok)(i)
        } else {
            None
        }
    }

    /// Less of the stream is left at `j` than at `i`.
    pub open spec fn beyond(self, i: int, j: int) -> bool {
        (self.rank)(j) < (self.rank)(i)
    }
}

/// The stream that consists of the tokens of `ts` and then ends.
pub open spec fn seq_stream(ts: Seq<SpecToken>) -> TokenStream {
    TokenStream {
        tok: |i: int| if 0 <= i < ts.len() { Some(ts[i]) } else { None },
        rank: |i: int| if 0 <= i <= ts.len() { (ts.len() - i) as nat } else { 0 },
    }
}

/// A parse error.
pub enum SpecErr {
    Unexpected { expected: SpecToken, found: SpecToken, msg: Seq<char> },
    UnexpectedToken(SpecToken),
    UnexpectedEof,
}

/// The result of a grammar function and the index of the token that is
/// current afterwards.
pub type Parsed<T> = (Result<T, SpecErr>, int);

/// The comparison operator that a token stands for.
pub open spec fn comparison_op(t: SpecToken) -> Option<BinOps> {
    match t {
        SpecToken::Lt => Some(BinOps::Lt),
        SpecToken::Gt => Some(BinOps::Gt),
        SpecToken::LtEq => Some(BinOps::LtEq),
        SpecToken::GtEq => Some(BinOps::GtEq),
        SpecToken::EqEq => Some(BinOps::EqEq),
        SpecToken::NotEq => Some(BinOps::NotEq),
        _ => None,
    }
}

/// The additive operator that a token stands for.
pub open spec fn additive_op(t: SpecToken) -> Option<BinOps> {
    match t {
        SpecToken::Plus => Some(BinOps::Add),
        SpecToken::Minus => Some(BinOps::Sub),
        _ => None,
    }
}

/// The multiplicative operator that a token stands for.
pub open spec fn multiplicative_op(t: SpecToken) -> Option<BinOps> {
    match t {
        SpecToken::Mul => Some(BinOps::Mul),
        SpecToken::Div => Some(BinOps::Div),
        _ => None,
    }
}

/// The operator that the token at `i` stands for, by `op_of`.
pub open spec fn op_at(s: TokenStream, i: int, op_of: spec_fn(SpecToken) -> Option<BinOps>) -> Option<BinOps> {
    match s.at(i) {
        Some(t) => op_of(t),
        None => None,
    }
}

/// A binary expression.
pub open spec fn bin(op: BinOps, lhs: SpecExpr, rhs: SpecExpr) -> SpecExpr {
    SpecExpr::BinOp { op, lhs: Box::new(lhs), rhs: Box::new(rhs) }
}

/// Takes the current token if it is `tk`; else an error that names `msg`.
#[verifier::opaque]
pub open spec fn expect_at(s: TokenStream, tk: SpecToken, msg: Seq<char>, i: int) -> Parsed<SpecToken> {
    match s.at(i) {
        Some(c) => if c == tk {
            (Ok(c), i + 1)
        } else {
            (Err(SpecErr::Unexpected { expected: tk, found: c, msg }), i)
        },
        None => (Err(SpecErr::UnexpectedEof), i),
    }
}

/// Takes the current token, which must be an identifier, and gives its name.
#[verifier::opaque]
pub open spec fn ident_at(s: TokenStream, i: int) -> Parsed<Seq<char>> {
    match s.at(i) {
        Some(SpecToken::Ident(n)) => (Ok(n), i + 1),
        Some(t) => (Err(SpecErr::UnexpectedToken(t)), i + 1),
        None => (Err(SpecErr::UnexpectedEof), i + 1),
    }
}

/// `('.' ident)*` applied to `e`.
pub open spec fn postfix_loop(s: TokenStream, e: SpecExpr, i: int) -> Parsed<SpecExpr>
    decreases (s.rank)(i),
{
    proof {
        reveal(expect_at);
        reveal(ident_at);
    }
    if s.at(i) == Some(SpecToken::Dot) {
        match ident_at(s, i + 1) {
            (Ok(field), j) => postfix_loop(
                s,
                SpecExpr::FieldAccess { receiver: Box::new(e), field },
                j,
            ),
            (Err(x), j) => (Err(x), j),
        }
    } else {
        (Ok(e), i)
    }
}

/// The parameters of a function declaration, after `acc`: names separated
/// by commas, up to the closing `)` (which is not taken).
pub open spec fn params_loop(s: TokenStream, acc: Seq<SpecExpr>, i: int) -> Parsed<Seq<SpecExpr>>
    decreases (s.rank)(i),
{
    proof {
        reveal(expect_at);
        reveal(ident_at);
    }
    match ident_at(s, i) {
        (Ok(name), j) => {
            let acc2 = acc.push(SpecExpr::Ident(name));
            if s.at(j) == Some(SpecToken::RParen) {
                (Ok(acc2), j)
            } else {
                match expect_at(s, SpecToken::Comma, "expected ','"@, j) {
                    (Ok(_), k) => params_loop(s, acc2, k),
                    (Err(x), k) => (Err(x), k),
                }
            }
        },
        (Err(x), j) => (Err(x), j),
    }
}

/// The parameters of a function declaration: none when the current token
/// is `)`.
pub open spec fn params_at(s: TokenStream, i: int) -> Parsed<Seq<SpecExpr>> {
    if s.at(i) == Some(SpecToken::RParen) {
        (Ok(seq![]), i)
    } else {
        params_loop(s, seq![], i)
    }
}

/// The fields of a struct declaration, after `acc`, up to the closing `}`
/// (which is not taken).
pub open spec fn struct_fields(s: TokenStream, acc: Seq<SpecField>, i: int) -> Parsed<Seq<SpecField>>
    decreases (s.rank)(i),
{
    proof {
        reveal(expect_at);
        reveal(ident_at);
    }
    if s.at(i) == Some(SpecToken::RCurl) {
        (Ok(acc), i)
    } else {
        match ident_at(s, i) {
            (Ok(name), j) => match expect_at(s, SpecToken::Colon, "expected ':' after field name"@, j) {
                (Ok(_), k) => match ident_at(s, k) {
                    (Ok(ty), l) => {
                        let acc2 = acc.push(SpecField { name, ty });
                        if s.at(l) == Some(SpecToken::RCurl) {
                            (Ok(acc2), l)
                        } else {
                            match expect_at(s, SpecToken::Comma, "expected ','"@, l) {
                                (Ok(_), m) => struct_fields(s, acc2, m),
                                (Err(x), m) => (Err(x), m),
                            }
                        }
                    },
                    (Err(x), l) => (Err(x), l),
                },
                (Err(x), k) => (Err(x), k),
            },
            (Err(x), j) => (Err(x), j),
        }
    }
}

/// The closing `}` of a struct declaration named `name`, after its fields.
pub open spec fn struct_close(s: TokenStream, name: Seq<char>, fields: Parsed<Seq<SpecField>>) -> Parsed<SpecStmt> {
    match fields {
        (Ok(fields), l) => match expect_at(s, SpecToken::RCurl, "expected '}'"@, l) {
            (Ok(_), m) => (Ok(SpecStmt::Struct { name, fields }), m),
            (Err(x), m) => (Err(x), m),
        },
        (Err(x), l) => (Err(x), l),
    }
}

/// `struct ident '{' fields '}'`; the current token is `struct`.
#[verifier::opaque]
pub open spec fn struct_at(s: TokenStream, i: int) -> Parsed<SpecStmt> {
    match ident_at(s, i + 1) {
        (Ok(name), j) => match expect_at(s, SpecToken::LCurl, "expected '{' after struct name"@, j) {
            (Ok(_), k) => struct_close(s, name, struct_fields(s, seq![], k)),
            (Err(x), k) => (Err(x), k),
        },
        (Err(x), j) => (Err(x), j),
    }
}

/// A statement.
pub open spec fn stmt_at(s: TokenStream, i: int) -> Parsed<SpecStmt>
    decreases (s.rank)(i), 5nat,
{
    match s.at(i) {
        Some(SpecToken::Let) => let_at(s, i),
        Some(SpecToken::Fn) => fn_decl_at(s, i),
        Some(SpecToken::Struct) => struct_at(s, i),
        _ => match expr_at(s, i) {
            (Ok(e), j) => (Ok(SpecStmt::Expr(e)), j),
            (Err(x), j) => (Err(x), j),
        },
    }
}

/// `let ident '=' expr`.
pub open spec fn let_at(s: TokenStream, i: int) -> Parsed<SpecStmt>
    decreases (s.rank)(i), 0nat,
{
    proof {
        reveal(expect_at);
        reveal(ident_at);
    }
    match expect_at(s, SpecToken::Let, "expected 'let'"@, i) {
        (Ok(_), j) => match ident_at(s, j) {
            (Ok(name), k) => match expect_at(s, SpecToken::Eq, "expected '=' after name"@, k) {
                (Ok(_), l) => match expr_at(s, l) {
                    (Ok(value), m) => (Ok(SpecStmt::Let { name, value }), m),
                    (Err(x), m) => (Err(x), m),
                },
                (Err(x), l) => (Err(x), l),
            },
            (Err(x), k) => (Err(x), k),
        },
        (Err(x), j) => (Err(x), j),
    }
}

/// `fn ident '(' params ')' block`.
pub open spec fn fn_decl_at(s: TokenStream, i: int) -> Parsed<SpecStmt>
    decreases (s.rank)(i), 0nat,
{
    proof {
        reveal(expect_at);
        reveal(ident_at);
    }
    match expect_at(s, SpecToken::Fn, "expected 'fn'"@, i) {
        (Ok(_), j) => match ident_at(s, j) {
            (Ok(name), k) => match expect_at(s, SpecToken::LParen, "expected '(' after name"@, k) {
                (Ok(_), l) => match params_at(s, l) {
                    (Ok(params), m) => match expect_at(s, SpecToken::RParen, "expected ')'"@, m) {
                        (Ok(_), n) => if s.beyond(i, n) {
                            match block_at(s, n) {
                                (Ok(body), o) => (Ok(SpecStmt::FnDecl { name, params, body }), o),
                                (Err(x), o) => (Err(x), o),
                            }
                        } else {
                            (Err(SpecErr::UnexpectedEof), n)
                        },
                        (Err(x), n) => (Err(x), n),
                    },
                    (Err(x), m) => (Err(x), m),
                },
                (Err(x), l) => (Err(x), l),
            },
            (Err(x), k) => (Err(x), k),
        },
        (Err(x), j) => (Err(x), j),
    }
}

/// An expression.
pub open spec fn expr_at(s: TokenStream, i: int) -> Parsed<SpecExpr>
    decreases (s.rank)(i), 4nat,
{
    comparison_at(s, i)
}

/// `additive (cmp_op term)*`.
pub open spec fn comparison_at(s: TokenStream, i: int) -> Parsed<SpecExpr>
    decreases (s.rank)(i), 3nat,
{
    match additive_at(s, i) {
        (Ok(lhs), j) => if s.beyond(i, j) {
            comparison_loop(s, lhs, j)
        } else {
            (Err(SpecErr::UnexpectedEof), j)
        },
        (Err(x), j) => (Err(x), j),
    }
}

/// `(cmp_op term)*` applied to `lhs`.
pub open spec fn comparison_loop(s: TokenStream, lhs: SpecExpr, i: int) -> Parsed<SpecExpr>
    decreases (s.rank)(i), 0nat,
{
    match op_at(s, i, |t: SpecToken| comparison_op(t)) {
        Some(op) => match term_at(s, i + 1) {
            (Ok(rhs), j) => if s.beyond(i, j) {
                comparison_loop(s, bin(op, lhs, rhs), j)
            } else {
                (Err(SpecErr::UnexpectedEof), j)
            },
            (Err(x), j) => (Err(x), j),
        },
        None => (Ok(lhs), i),
    }
}

/// `term ([+-] term)*`.
pub open spec fn additive_at(s: TokenStream, i: int) -> Parsed<SpecExpr>
    decreases (s.rank)(i), 2nat,
{
    match term_at(s, i) {
        (Ok(lhs), j) => if s.beyond(i, j) {
            additive_loop(s, lhs, j)
        } else {
            (Err(SpecErr::UnexpectedEof), j)
        },
        (Err(x), j) => (Err(x), j),
    }
}

/// `([+-] term)*` applied to `lhs`.
pub open spec fn additive_loop(s: TokenStream, lhs: SpecExpr, i: int) -> Parsed<SpecExpr>
    decreases (s.rank)(i), 0nat,
{
    match op_at(s, i, |t: SpecToken| additive_op(t)) {
        Some(op) => match term_at(s, i + 1) {
            (Ok(rhs), j) => if s.beyond(i, j) {
                additive_loop(s, bin(op, lhs, rhs), j)
            } else {
                (Err(SpecErr::UnexpectedEof), j)
            },
            (Err(x), j) => (Err(x), j),
        },
        None => (Ok(lhs), i),
    }
}

/// `postfix ([*/] postfix)*`.
pub open spec fn term_at(s: TokenStream, i: int) -> Parsed<SpecExpr>
    decreases (s.rank)(i), 1nat,
{
    match factor_at(s, i) {
        (Ok(primary), j) => match postfix_loop(s, primary, j) {
            (Ok(lhs), k) => if s.beyond(i, k) {
                term_loop(s, lhs, k)
            } else {
                (Err(SpecErr::UnexpectedEof), k)
            },
            (Err(x), k) => (Err(x), k),
        },
        (Err(x), j) => (Err(x), j),
    }
}

/// `([*/] postfix)*` applied to `lhs`.
pub open spec fn term_loop(s: TokenStream, lhs: SpecExpr, i: int) -> Parsed<SpecExpr>
    decreases (s.rank)(i), 0nat,
{
    match op_at(s, i, |t: SpecToken| multiplicative_op(t)) {
        Some(op) => match factor_at(s, i + 1) {
            (Ok(f), j) => match postfix_loop(s, f, j) {
                (Ok(rhs), k) => if s.beyond(i, k) {
                    term_loop(s, bin(op, lhs, rhs), k)
                } else {
                    (Err(SpecErr::UnexpectedEof), k)
                },
                (Err(x), k) => (Err(x), k),
            },
            (Err(x), j) => (Err(x), j),
        },
        None => (Ok(lhs), i),
    }
}

/// A factor: takes the current token and goes on by what it is.
pub open spec fn factor_at(s: TokenStream, i: int) -> Parsed<SpecExpr>
    decreases (s.rank)(i), 0nat,
{
    proof {
        reveal(expect_at);
        reveal(ident_at);
    }
    match s.at(i) {
        Some(SpecToken::Number(n)) => (Ok(SpecExpr::Number(n)), i + 1),
        Some(SpecToken::String(t)) => (Ok(SpecExpr::String(t)), i + 1),
        Some(SpecToken::LBrace) => list_at(s, i + 1),
        Some(SpecToken::If) => if_at(s, i + 1),
        Some(SpecToken::Ident(n)) => if s.at(i + 1) == Some(SpecToken::LParen) {
            call_at(s, n, i + 1)
        } else {
            (Ok(SpecExpr::Ident(n)), i + 1)
        },
        Some(SpecToken::LParen) => match expr_at(s, i + 1) {
            (Ok(e), j) => match expect_at(s, SpecToken::RParen, "expected ')'"@, j) {
                (Ok(_), k) => (Ok(e), k),
                (Err(x), k) => (Err(x), k),
            },
            (Err(x), j) => (Err(x), j),
        },
        Some(SpecToken::Fn) => lambda_at(s, i + 1),
        Some(t) => (Err(SpecErr::UnexpectedToken(t)), i + 1),
        None => (Err(SpecErr::UnexpectedEof), i + 1),
    }
}

/// An anonymous function after `fn`: `'(' (')' / exprs) ')' '{' expr '}'`.
pub open spec fn lambda_at(s: TokenStream, i: int) -> Parsed<SpecExpr>
    decreases (s.rank)(i), 0nat,
{
    proof {
        reveal(expect_at);
        reveal(ident_at);
    }
    match expect_at(s, SpecToken::LParen, "expected '(' after `fn` to create an anonymous function"@, i) {
        (Ok(_), j) => {
            let params: Parsed<Option<Seq<SpecExpr>>> = if s.at(j) == Some(SpecToken::RParen) {
                (Ok(None), j + 1)
            } else {
                match exprs_at(s, SpecToken::RParen, j) {
                    (Ok(ps), k) => (Ok(Some(ps)), k),
                    (Err(x), k) => (Err(x), k),
                }
            };
            match params {
                (Ok(params), k) => match expect_at(s, SpecToken::RParen, "expected ')' after params"@, k) {
                    (Ok(_), l) => match expect_at(s, SpecToken::LCurl, "expected '{' after function params"@, l) {
                        (Ok(_), m) => if s.beyond(i, m) {
                            match expr_at(s, m) {
                                (Ok(value), n) => match expect_at(s, SpecToken::RCurl, "expected '}' to close function body"@, n) {
                                    (Ok(_), o) => (Ok(SpecExpr::Lambda { params, value: Box::new(value) }), o),
                                    (Err(x), o) => (Err(x), o),
                                },
                                (Err(x), n) => (Err(x), n),
                            }
                        } else {
                            (Err(SpecErr::UnexpectedEof), m)
                        },
                        (Err(x), m) => (Err(x), m),
                    },
                    (Err(x), l) => (Err(x), l),
                },
                (Err(x), k) => (Err(x), k),
            }
        },
        (Err(x), j) => (Err(x), j),
    }
}

/// A call after its callee: `'(' exprs ')'`.
pub open spec fn call_at(s: TokenStream, callee: Seq<char>, i: int) -> Parsed<SpecExpr>
    decreases (s.rank)(i), 0nat,
{
    proof {
        reveal(expect_at);
        reveal(ident_at);
    }
    match expect_at(s, SpecToken::LParen, "expected '('"@, i) {
        (Ok(_), j) => match exprs_at(s, SpecToken::RParen, j) {
            (Ok(args), k) => match expect_at(s, SpecToken::RParen, "expected ')'"@, k) {
                (Ok(_), l) => (Ok(SpecExpr::Call { callee, args }), l),
                (Err(x), l) => (Err(x), l),
            },
            (Err(x), k) => (Err(x), k),
        },
        (Err(x), j) => (Err(x), j),
    }
}

/// A list after `[`: `exprs ']'`.
pub open spec fn list_at(s: TokenStream, i: int) -> Parsed<SpecExpr>
    decreases (s.rank)(i), 7nat,
{
    proof {
        reveal(expect_at);
        reveal(ident_at);
    }
    match exprs_at(s, SpecToken::RBrace, i) {
        (Ok(elements), j) => match expect_at(s, SpecToken::RBrace, "expected ']'"@, j) {
            (Ok(_), k) => (Ok(SpecExpr::List(elements)), k),
            (Err(x), k) => (Err(x), k),
        },
        (Err(x), j) => (Err(x), j),
    }
}

/// An `if` after `if`: `expr block ('else' block)?`.
pub open spec fn if_at(s: TokenStream, i: int) -> Parsed<SpecExpr>
    decreases (s.rank)(i), 5nat,
{
    match expr_at(s, i) {
        (Ok(cond), j) => if s.beyond(i, j) {
            match block_at(s, j) {
                (Ok(then), k) => if s.at(k) == Some(SpecToken::Else) {
                    if s.beyond(i, k) {
                        match block_at(s, k + 1) {
                            (Ok(els), l) => (Ok(SpecExpr::If { cond: Box::new(cond), then, else_: Some(els) }), l),
                            (Err(x), l) => (Err(x), l),
                        }
                    } else {
                        (Err(SpecErr::UnexpectedEof), k)
                    }
                } else {
                    (Ok(SpecExpr::If { cond: Box::new(cond), then, else_: None }), k)
                },
                (Err(x), k) => (Err(x), k),
            }
        } else {
            (Err(SpecErr::UnexpectedEof), j)
        },
        (Err(x), j) => (Err(x), j),
    }
}

/// Comma-separated expressions up to `delim` (which is not taken); none
/// when the current token is `delim`.
pub open spec fn exprs_at(s: TokenStream, delim: SpecToken, i: int) -> Parsed<Seq<SpecExpr>>
    decreases (s.rank)(i), 6nat,
{
    if s.at(i) == Some(delim) {
        (Ok(seq![]), i)
    } else {
        exprs_loop(s, delim, seq![], i)
    }
}

/// `expr (',' expr)*` after `acc`, up to `delim`.
pub open spec fn exprs_loop(s: TokenStream, delim: SpecToken, acc: Seq<SpecExpr>, i: int) -> Parsed<Seq<SpecExpr>>
    decreases (s.rank)(i), 5nat,
{
    proof {
        reveal(expect_at);
        reveal(ident_at);
    }
    match expr_at(s, i) {
        (Ok(e), j) => {
            let acc2 = acc.push(e);
            if s.at(j) == Some(delim) {
                (Ok(acc2), j)
            } else {
                match expect_at(s, SpecToken::Comma, "expected ','"@, j) {
                    (Ok(_), k) => if s.beyond(i, k) {
                        exprs_loop(s, delim, acc2, k)
                    } else {
                        (Err(SpecErr::UnexpectedEof), k)
                    },
                    (Err(x), k) => (Err(x), k),
                }
            }
        },
        (Err(x), j) => (Err(x), j),
    }
}

/// A block: `'{' stmt* '}'`.
pub open spec fn block_at(s: TokenStream, i: int) -> Parsed<Seq<SpecStmt>>
    decreases (s.rank)(i), 0nat,
{
    proof {
        reveal(expect_at);
        reveal(ident_at);
    }
    match expect_at(s, SpecToken::LCurl, "expected '{'"@, i) {
        (Ok(_), j) => block_loop(s, seq![], j),
        (Err(x), j) => (Err(x), j),
    }
}

/// The statements of a block after `acc`, and its closing `}`.
pub open spec fn block_loop(s: TokenStream, acc: Seq<SpecStmt>, i: int) -> Parsed<Seq<SpecStmt>>
    decreases (s.rank)(i), 6nat,
{
    match s.at(i) {
        Some(SpecToken::RCurl) => (Ok(acc), i + 1),
        None => (Err(SpecErr::UnexpectedEof), i),
        Some(_) => match stmt_at(s, i) {
            (Ok(st), j) => if s.beyond(i, j) {
                block_loop(s, acc.push(st), j)
            } else {
                (Err(SpecErr::UnexpectedEof), j)
            },
            (Err(x), j) => (Err(x), j),
        },
    }
}

/// Statements after `acc` up to the end of the stream.
pub open spec fn program_loop(s: TokenStream, acc: Seq<SpecStmt>, i: int) -> Parsed<Seq<SpecStmt>>
    decreases (s.rank)(i),
{
    if s.at(i) is None {
        (Ok(acc), i)
    } else {
        match stmt_at(s, i) {
            (Ok(st), j) => if s.beyond(i, j) {
                program_loop(s, acc.push(st), j)
            } else {
                (Err(SpecErr::UnexpectedEof), j)
            },
            (Err(x), j) => (Err(x), j),
        }
    }
}

/// A whole program from position `i`.
pub open spec fn program_at(s: TokenStream, i: int) -> Parsed<Seq<SpecStmt>> {
    program_loop(s, seq![], i)
}

// ---------------------------------------------------------------------------
// Progress: every grammar function leaves the current index where it was or
// further along, and on success leaves no more of the stream than it found
// (strictly less where it must take a token).
// ---------------------------------------------------------------------------

/// What `expect_at` gives: on success the expected token, one position on;
/// else the same position.
pub proof fn lemma_expect_at(s: TokenStream, tk: SpecToken, msg: Seq<char>, i: int)
    ensures
        match expect_at(s, tk, msg, i) {
            (Ok(t), j) => t == tk && j == i + 1 && s.at(i) == Some(tk) && s.beyond(i, i + 1),
            (Err(_), j) => j == i,
        },
{
    reveal(expect_at);
}

/// The index after `p` is at or after `i`; on success the stream is no
/// longer there than at `i`, and shorter when `strict`.
pub open spec fn progressed<T>(s: TokenStream, i: int, p: Parsed<T>, strict: bool) -> bool {
    &&& i <= p.1
    &&& p.0 is Ok ==> (s.rank)(p.1) <= (s.rank)(i)
    &&& (p.0 is Ok && strict) ==> s.beyond(i, p.1)
}

pub proof fn lemma_postfix_loop(s: TokenStream, e: SpecExpr, i: int)
    ensures
        progressed(s, i, postfix_loop(s, e, i), false),
    decreases (s.rank)(i),
{
    reveal(expect_at);
    reveal(ident_at);
    if s.at(i) == Some(SpecToken::Dot) {
        if let (Ok(field), j) = ident_at(s, i + 1) {
            lemma_postfix_loop(s, SpecExpr::FieldAccess { receiver: Box::new(e), field }, j);
        }
    }
}

pub proof fn lemma_params_loop(s: TokenStream, acc: Seq<SpecExpr>, i: int)
    ensures
        progressed(s, i, params_loop(s, acc, i), true),
    decreases (s.rank)(i),
{
    reveal(expect_at);
    reveal(ident_at);
    if let (Ok(name), j) = ident_at(s, i) {
        let acc2 = acc.push(SpecExpr::Ident(name));
        if s.at(j) != Some(SpecToken::RParen) {
            if let (Ok(_), k) = expect_at(s, SpecToken::Comma, "expected ','"@, j) {
                lemma_params_loop(s, acc2, k);
            }
        }
    }
}

pub proof fn lemma_params_at(s: TokenStream, i: int)
    ensures
        progressed(s, i, params_at(s, i), false),
{
    if s.at(i) != Some(SpecToken::RParen) {
        lemma_params_loop(s, seq![], i);
    }
}

pub proof fn lemma_struct_fields(s: TokenStream, acc: Seq<SpecField>, i: int)
    ensures
        progressed(s, i, struct_fields(s, acc, i), false),
    decreases (s.rank)(i),
{
    reveal(expect_at);
    reveal(ident_at);
    if s.at(i) != Some(SpecToken::RCurl) {
        if let (Ok(name), j) = ident_at(s, i) {
            if let (Ok(_), k) = expect_at(s, SpecToken::Colon, "expected ':' after field name"@, j) {
                if let (Ok(ty), l) = ident_at(s, k) {
                    let acc2 = acc.push(SpecField { name, ty });
                    if s.at(l) != Some(SpecToken::RCurl) {
                        if let (Ok(_), m) = expect_at(s, SpecToken::Comma, "expected ','"@, l) {
                            lemma_struct_fields(s, acc2, m);
                        }
                    }
                }
            }
        }
    }
}

pub proof fn lemma_struct_at(s: TokenStream, i: int)
    ensures
        i <= struct_at(s, i).1,
        s.at(i) is Some ==> progressed(s, i, struct_at(s, i), true),
{
    reveal(expect_at);
    reveal(ident_at);
    reveal(struct_at);
    if let (Ok(name), j) = ident_at(s, i + 1) {
        if let (Ok(_), k) = expect_at(s, SpecToken::LCurl, "expected '{' after struct name"@, j) {
            lemma_struct_fields(s, seq![], k);
        }
    }
}

pub proof fn lemma_stmt_at(s: TokenStream, i: int)
    ensures
        progressed(s, i, stmt_at(s, i), true),
    decreases (s.rank)(i), 5nat,
{
    reveal(expect_at);
    reveal(ident_at);
    match s.at(i) {
        Some(SpecToken::Let) => lemma_let_at(s, i),
        Some(SpecToken::Fn) => lemma_fn_decl_at(s, i),
        Some(SpecToken::Struct) => lemma_struct_at(s, i),
        _ => lemma_expr_at(s, i),
    }
}

pub proof fn lemma_let_at(s: TokenStream, i: int)
    ensures
        progressed(s, i, let_at(s, i), true),
    decreases (s.rank)(i), 0nat,
{
    reveal(expect_at);
    reveal(ident_at);
    if let (Ok(_), j) = expect_at(s, SpecToken::Let, "expected 'let'"@, i) {
        if let (Ok(name), k) = ident_at(s, j) {
            if let (Ok(_), l) = expect_at(s, SpecToken::Eq, "expected '=' after name"@, k) {
                lemma_expr_at(s, l);
            }
        }
    }
}

pub proof fn lemma_fn_decl_at(s: TokenStream, i: int)
    ensures
        progressed(s, i, fn_decl_at(s, i), true),
    decreases (s.rank)(i), 0nat,
{
    reveal(expect_at);
    reveal(ident_at);
    if let (Ok(_), j) = expect_at(s, SpecToken::Fn, "expected 'fn'"@, i) {
        if let (Ok(name), k) = ident_at(s, j) {
            if let (Ok(_), l) = expect_at(s, SpecToken::LParen, "expected '(' after name"@, k) {
                lemma_params_at(s, l);
                if let (Ok(params), m) = params_at(s, l) {
                    if let (Ok(_), n) = expect_at(s, SpecToken::RParen, "expected ')'"@, m) {
                        if s.beyond(i, n) {
                            lemma_block_at(s, n);
                        }
                    }
                }
            }
        }
    }
}

pub proof fn lemma_expr_at(s: TokenStream, i: int)
    ensures
        progressed(s, i, expr_at(s, i), true),
        i < expr_at(s, i).1,
    decreases (s.rank)(i), 4nat,
{
    reveal(expect_at);
    reveal(ident_at);
    lemma_comparison_at(s, i);
}

pub proof fn lemma_comparison_at(s: TokenStream, i: int)
    ensures
        progressed(s, i, comparison_at(s, i), true),
        i < comparison_at(s, i).1,
    decreases (s.rank)(i), 3nat,
{
    reveal(expect_at);
    reveal(ident_at);
    lemma_additive_at(s, i);
    if let (Ok(lhs), j) = additive_at(s, i) {
        if s.beyond(i, j) {
            lemma_comparison_loop(s, lhs, j);
        }
    }
}

pub proof fn lemma_comparison_loop(s: TokenStream, lhs: SpecExpr, i: int)
    ensures
        progressed(s, i, comparison_loop(s, lhs, i), false),
    decreases (s.rank)(i), 0nat,
{
    reveal(expect_at);
    reveal(ident_at);
    if let Some(op) = op_at(s, i, |t: SpecToken| comparison_op(t)) {
        lemma_term_at(s, i + 1);
        if let (Ok(rhs), j) = term_at(s, i + 1) {
            if s.beyond(i, j) {
                lemma_comparison_loop(s, bin(op, lhs, rhs), j);
            }
        }
    }
}

pub proof fn lemma_additive_at(s: TokenStream, i: int)
    ensures
        progressed(s, i, additive_at(s, i), true),
        i < additive_at(s, i).1,
    decreases (s.rank)(i), 2nat,
{
    reveal(expect_at);
    reveal(ident_at);
    lemma_term_at(s, i);
    if let (Ok(lhs), j) = term_at(s, i) {
        if s.beyond(i, j) {
            lemma_additive_loop(s, lhs, j);
        }
    }
}

pub proof fn lemma_additive_loop(s: TokenStream, lhs: SpecExpr, i: int)
    ensures
        progressed(s, i, additive_loop(s, lhs, i), false),
    decreases (s.rank)(i), 0nat,
{
    reveal(expect_at);
    reveal(ident_at);
    if let Some(op) = op_at(s, i, |t: SpecToken| additive_op(t)) {
        lemma_term_at(s, i + 1);
        if let (Ok(rhs), j) = term_at(s, i + 1) {
            if s.beyond(i, j) {
                lemma_additive_loop(s, bin(op, lhs, rhs), j);
            }
        }
    }
}

pub proof fn lemma_term_at(s: TokenStream, i: int)
    ensures
        progressed(s, i, term_at(s, i), true),
        i < term_at(s, i).1,
    decreases (s.rank)(i), 1nat,
{
    reveal(expect_at);
    reveal(ident_at);
    lemma_factor_at(s, i);
    if let (Ok(primary), j) = factor_at(s, i) {
        lemma_postfix_loop(s, primary, j);
        if let (Ok(lhs), k) = postfix_loop(s, primary, j) {
            if s.beyond(i, k) {
                lemma_term_loop(s, lhs, k);
            }
        }
    }
}

pub proof fn lemma_term_loop(s: TokenStream, lhs: SpecExpr, i: int)
    ensures
        progressed(s, i, term_loop(s, lhs, i), false),
    decreases (s.rank)(i), 0nat,
{
    reveal(expect_at);
    reveal(ident_at);
    if let Some(op) = op_at(s, i, |t: SpecToken| multiplicative_op(t)) {
        lemma_factor_at(s, i + 1);
        if let (Ok(f), j) = factor_at(s, i + 1) {
            lemma_postfix_loop(s, f, j);
            if let (Ok(rhs), k) = postfix_loop(s, f, j) {
                if s.beyond(i, k) {
                    lemma_term_loop(s, bin(op, lhs, rhs), k);
                }
            }
        }
    }
}

pub proof fn lemma_factor_at(s: TokenStream, i: int)
    ensures
        progressed(s, i, factor_at(s, i), true),
        i < factor_at(s, i).1,
    decreases (s.rank)(i), 0nat,
{
    reveal(expect_at);
    reveal(ident_at);
    match s.at(i) {
        Some(SpecToken::LBrace) => lemma_list_at(s, i + 1),
        Some(SpecToken::If) => lemma_if_at(s, i + 1),
        Some(SpecToken::Ident(n)) => if s.at(i + 1) == Some(SpecToken::LParen) {
            lemma_call_at(s, n, i + 1);
        },
        Some(SpecToken::LParen) => lemma_expr_at(s, i + 1),
        Some(SpecToken::Fn) => lemma_lambda_at(s, i + 1),
        _ => {},
    }
}

pub proof fn lemma_lambda_at(s: TokenStream, i: int)
    ensures
        progressed(s, i, lambda_at(s, i), true),
    decreases (s.rank)(i), 0nat,
{
    reveal(expect_at);
    reveal(ident_at);
    if let (Ok(_), j) = expect_at(s, SpecToken::LParen, "expected '(' after `fn` to create an anonymous function"@, i) {
        if s.at(j) != Some(SpecToken::RParen) {
            lemma_exprs_at(s, SpecToken::RParen, j);
        }
        let params: Parsed<Option<Seq<SpecExpr>>> = if s.at(j) == Some(SpecToken::RParen) {
            (Ok(None), j + 1)
        } else {
            match exprs_at(s, SpecToken::RParen, j) {
                (Ok(ps), k) => (Ok(Some(ps)), k),
                (Err(x), k) => (Err(x), k),
            }
        };
        if let (Ok(params), k) = params {
            if let (Ok(_), l) = expect_at(s, SpecToken::RParen, "expected ')' after params"@, k) {
                if let (Ok(_), m) = expect_at(s, SpecToken::LCurl, "expected '{' after function params"@, l) {
                    if s.beyond(i, m) {
                        lemma_expr_at(s, m);
                    }
                }
            }
        }
    }
}

pub proof fn lemma_call_at(s: TokenStream, callee: Seq<char>, i: int)
    ensures
        progressed(s, i, call_at(s, callee, i), true),
    decreases (s.rank)(i), 0nat,
{
    reveal(expect_at);
    reveal(ident_at);
    if let (Ok(_), j) = expect_at(s, SpecToken::LParen, "expected '('"@, i) {
        lemma_exprs_at(s, SpecToken::RParen, j);
    }
}

pub proof fn lemma_list_at(s: TokenStream, i: int)
    ensures
        progressed(s, i, list_at(s, i), true),
    decreases (s.rank)(i), 7nat,
{
    reveal(expect_at);
    reveal(ident_at);
    lemma_exprs_at(s, SpecToken::RBrace, i);
}

pub proof fn lemma_if_at(s: TokenStream, i: int)
    ensures
        progressed(s, i, if_at(s, i), true),
    decreases (s.rank)(i), 5nat,
{
    reveal(expect_at);
    reveal(ident_at);
    lemma_expr_at(s, i);
    if let (Ok(cond), j) = expr_at(s, i) {
        if s.beyond(i, j) {
            lemma_block_at(s, j);
            if let (Ok(then), k) = block_at(s, j) {
                if s.at(k) == Some(SpecToken::Else) && s.beyond(i, k) {
                    lemma_block_at(s, k + 1);
                }
            }
        }
    }
}

pub proof fn lemma_exprs_at(s: TokenStream, delim: SpecToken, i: int)
    ensures
        progressed(s, i, exprs_at(s, delim, i), false),
    decreases (s.rank)(i), 6nat,
{
    reveal(expect_at);
    reveal(ident_at);
    if s.at(i) != Some(delim) {
        lemma_exprs_loop(s, delim, seq![], i);
    }
}

pub proof fn lemma_exprs_loop(s: TokenStream, delim: SpecToken, acc: Seq<SpecExpr>, i: int)
    ensures
        progressed(s, i, exprs_loop(s, delim, acc, i), true),
    decreases (s.rank)(i), 5nat,
{
    reveal(expect_at);
    reveal(ident_at);
    lemma_expr_at(s, i);
    if let (Ok(e), j) = expr_at(s, i) {
        let acc2 = acc.push(e);
        if s.at(j) != Some(delim) {
            if let (Ok(_), k) = expect_at(s, SpecToken::Comma, "expected ','"@, j) {
                if s.beyond(i, k) {
                    lemma_exprs_loop(s, delim, acc2, k);
                }
            }
        }
    }
}

pub proof fn lemma_block_at(s: TokenStream, i: int)
    ensures
        progressed(s, i, block_at(s, i), true),
    decreases (s.rank)(i), 0nat,
{
    reveal(expect_at);
    reveal(ident_at);
    if let (Ok(_), j) = expect_at(s, SpecToken::LCurl, "expected '{'"@, i) {
        lemma_block_loop(s, seq![], j);
    }
}

pub proof fn lemma_block_loop(s: TokenStream, acc: Seq<SpecStmt>, i: int)
    ensures
        progressed(s, i, block_loop(s, acc, i), true),
    decreases (s.rank)(i), 6nat,
{
    reveal(expect_at);
    reveal(ident_at);
    match s.at(i) {
        Some(SpecToken::RCurl) => {},
        None => {},
        Some(_) => {
            lemma_stmt_at(s, i);
            if let (Ok(st), j) = stmt_at(s, i) {
                if s.beyond(i, j) {
                    lemma_block_loop(s, acc.push(st), j);
                }
            }
        },
    }
}

pub proof fn lemma_program_loop(s: TokenStream, acc: Seq<SpecStmt>, i: int)
    ensures
        progressed(s, i, program_loop(s, acc, i), false),
    decreases (s.rank)(i),
{
    reveal(expect_at);
    reveal(ident_at);
    if s.at(i) is Some {
        lemma_stmt_at(s, i);
        if let (Ok(st), j) = stmt_at(s, i) {
            if s.beyond(i, j) {
                lemma_program_loop(s, acc.push(st), j);
            }
        }
    }
}

} // verus!
