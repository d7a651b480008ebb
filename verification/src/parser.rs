//! The parser: a recursive-descent parser that pulls one token at a time
//! from the lexer and is proved to follow the grammar of `grammar`.

use vstd::prelude::*;
use vstd::string::StringSliceAdditionalSpecFns;
use crate::token::{Token, SpecToken, opt_token_view};
use crate::ast::{
    BinOps, Expr, Stmt, Field, Program, SpecExpr, SpecField, exprs_view, stmts_view, fields_view,
    lemma_exprs_view_push, lemma_stmts_view_push, lemma_fields_view_push,
};
use crate::grammar::{
    TokenStream, SpecErr, Parsed, comparison_op, additive_op, multiplicative_op, bin, expect_at,
    ident_at, postfix_loop, struct_fields, struct_close, struct_at, stmt_at, let_at, fn_decl_at,
    expr_at, comparison_at, comparison_loop, additive_at, additive_loop, term_at, term_loop,
    factor_at, lambda_at, call_at, list_at, if_at, exprs_at, exprs_loop, block_at, block_loop,
    program_loop, program_at, lemma_postfix_loop, lemma_struct_fields, lemma_struct_at,
    lemma_stmt_at, lemma_expr_at, lemma_comparison_loop, lemma_additive_at, lemma_additive_loop,
    lemma_term_at, lemma_term_loop, lemma_factor_at, lemma_lambda_at, lemma_exprs_at,
    lemma_exprs_loop, lemma_block_at, lemma_block_loop, lemma_program_loop, lemma_expect_at,
    params_at, params_loop, lemma_params_at, lemma_params_loop,
};
use crate::lexer::{
    Lexer, lexed_stream, lexes_safely_upto, lemma_lexes_safely_fewer, stream_step, pos_after,
    lemma_lexed_at, lemma_pos_after,
};

verus! {

broadcast use lemma_lexes_safely_fewer;

/// A parse error.
#[derive(Debug)]
pub enum ParseErr {
    /// The current token is not the one that the grammar calls for here.
    Unexpected { expected: Token, found: Token, msg: &'static str },
    /// A token that cannot start what the grammar calls for here.
    UnexpectedToken(Token),
    /// The tokens ran out.
    UnexpectedEof,
}

impl View for ParseErr {
    type V = SpecErr;

    open spec fn view(&self) -> SpecErr {
        match self {
            ParseErr::Unexpected { expected, found, msg } => SpecErr::Unexpected {
                expected: expected@,
                found: found@,
                msg: msg@,
            },
            ParseErr::UnexpectedToken(t) => SpecErr::UnexpectedToken(t@),
            ParseErr::UnexpectedEof => SpecErr::UnexpectedEof,
        }
    }
}

/// The model of a result, its value seen through `f`.
pub open spec fn result_view<T, V>(r: Result<T, ParseErr>, f: spec_fn(T) -> V) -> Result<V, SpecErr> {
    match r {
        Ok(v) => Ok(f(v)),
        Err(e) => Err(e@),
    }
}

/// The binary operator that a token stands for at the comparison level.
fn token_comparison_op(t: &Token) -> (r: Option<BinOps>)
    ensures
        r == comparison_op(t@),
{
    match t {
        Token::Lt => Some(BinOps::Lt),
        Token::Gt => Some(BinOps::Gt),
        Token::LtEq => Some(BinOps::LtEq),
        Token::GtEq => Some(BinOps::GtEq),
        Token::EqEq => Some(BinOps::EqEq),
        Token::NotEq => Some(BinOps::NotEq),
        _ => None,
    }
}

/// The binary operator that a token stands for at the additive level.
fn token_additive_op(t: &Token) -> (r: Option<BinOps>)
    ensures
        r == additive_op(t@),
{
    match t {
        Token::Plus => Some(BinOps::Add),
        Token::Minus => Some(BinOps::Sub),
        _ => None,
    }
}

/// The binary operator that a token stands for at the multiplicative level.
fn token_multiplicative_op(t: &Token) -> (r: Option<BinOps>)
    ensures
        r == multiplicative_op(t@),
{
    match t {
        Token::Mul => Some(BinOps::Mul),
        Token::Div => Some(BinOps::Div),
        _ => None,
    }
}

/// A parser over a source text. It holds the lexer and the current token,
/// and pulls the next token from the lexer whenever it takes one.
pub struct Parser<'a> {
    lexer: Lexer<'a>,
    current: Option<Token>,
    index: Ghost<int>,
}

impl<'a> Parser<'a> {
    /// The bytes of the source.
    pub closed spec fn bytes(&self) -> Seq<u8> {
        self.lexer.bytes()
    }

    /// The number of the current token in the lexed stream.
    pub closed spec fn index(&self) -> int {
        self.index@
    }

    /// The stream of tokens that the lexer gives.
    pub open spec fn stream(&self) -> TokenStream {
        lexed_stream(self.bytes())
    }

    /// The current token is call number `index` of the lexer's `next`, and
    /// the lexer stands where that call left it.
    pub closed spec fn wf(&self) -> bool {
        &&& self.lexer.wf()
        &&& self.index@ >= 0
        &&& self.lexer.position() == pos_after(self.lexer.bytes(), 0, (self.index@ + 1) as nat)
        &&& opt_token_view(self.current) == stream_step(self.lexer.bytes(), self.index@ as nat).token
    }

    /// Lexing does not panic before the token numbered `j` is current.
    pub open spec fn can_reach(&self, j: int) -> bool {
        lexes_safely_upto(self.bytes(), j + 1)
    }

    /// The parser went from `before` to where `p` says, over the same
    /// source, and `res` is what `p` says, its value seen through `f`.
    pub open spec fn advanced_to<T, V>(
        self,
        before: Self,
        res: Result<T, ParseErr>,
        f: spec_fn(T) -> V,
        p: Parsed<V>,
    ) -> bool {
        &&& self.wf()
        &&& self.bytes() == before.bytes()
        &&& self.index() == p.1
        &&& result_view(res, f) == p.0
    }

    /// A valid parser numbers its current token from 0 on.
    pub proof fn lemma_index_nonnegative(&self)
        requires
            self.wf(),
        ensures
            0 <= self.index(),
    {
    }

    proof fn lemma_current(&self)
        requires
            self.wf(),
        ensures
            opt_token_view(self.current) == self.stream().at(self.index()),
    {
        lemma_lexed_at(self.bytes(), self.index());
    }

    /// A parser at the first token of `source`.
    pub fn new(source: &'a str) -> (p: Self)
        requires
            lexes_safely_upto(source.spec_bytes(), 1),
        ensures
            p.wf(),
            p.bytes() == source.spec_bytes(),
            p.index() == 0,
    {
        let mut lexer = Lexer::new(source);
        proof {
            reveal(lexes_safely_upto);
            assert(!stream_step(source.spec_bytes(), 0).panics);
            lemma_pos_after(source.spec_bytes(), 0, 0);
        }
        let current = lexer.next();
        Parser { lexer, current, index: Ghost(0) }
    }

    /// Takes the current token and makes the next one current.
    fn consume(&mut self) -> (r: Option<Token>)
        requires
            old(self).wf(),
            old(self).can_reach(old(self).index() + 1),
        ensures
            final(self).wf(),
            final(self).bytes() == old(self).bytes(),
            final(self).index() == old(self).index() + 1,
            opt_token_view(r) == old(self).stream().at(old(self).index()),
    {
        proof {
            reveal(lexes_safely_upto);
            self.lemma_current();
            let src = self.bytes();
            let k = (self.index@ + 1) as nat;
            assert(!stream_step(src, k).panics);
            lemma_pos_after(src, 0, k);
        }
        let pr = self.current.take();
        self.current = self.lexer.next();
        self.index = Ghost(self.index@ + 1);
        proof {
            assert(((self.index@ + 1) as nat) == ((self.index@) as nat) + 1);
        }
        pr
    }

    /// The current token, if any.
    fn peek(&self) -> (r: Option<&Token>)
        requires
            self.wf(),
        ensures
            match r {
                Some(t) => self.stream().at(self.index()) == Some(t@),
                None => self.stream().at(self.index()) is None,
            },
    {
        proof {
            self.lemma_current();
        }
        self.current.as_ref()
    }

    /// Whether the current token is `t`.
    fn current_is(&self, t: &Token) -> (r: bool)
        requires
            self.wf(),
        ensures
            r == (self.stream().at(self.index()) == Some(t@)),
    {
        proof {
            self.lemma_current();
        }
        match &self.current {
            Some(c) => c.same_as(t),
            None => false,
        }
    }

    /// Takes the current token if it is `tk`; else an error naming `msg`.
    fn expect(&mut self, tk: Token, msg: &'static str) -> (res: Result<Token, ParseErr>)
        requires
            old(self).wf(),
            old(self).can_reach(expect_at(old(self).stream(), tk@, msg@, old(self).index()).1),
        ensures
            final(self).advanced_to(
                *old(self),
                res,
                |t: Token| t@,
                expect_at(old(self).stream(), tk@, msg@, old(self).index()),
            ),
            res is Ok ==> final(self).index() == old(self).index() + 1 && old(self).stream().beyond(
                old(self).index(),
                old(self).index() + 1,
            ),
            res is Err ==> final(self).index() == old(self).index(),
    {
        proof {
            reveal(expect_at);
            self.lemma_current();
        }
        match &self.current {
            Some(c) => {
                if c.same_as(&tk) {
                    let t = self.consume();
                    Ok(t.unwrap())
                } else {
                    Err(ParseErr::Unexpected { expected: tk, found: c.clone_token(), msg })
                }
            },
            None => Err(ParseErr::UnexpectedEof),
        }
    }

    /// Takes the current token, which must be an identifier.
    fn get_identifier_value(&mut self) -> (res: Result<String, ParseErr>)
        requires
            old(self).wf(),
            old(self).can_reach(ident_at(old(self).stream(), old(self).index()).1),
        ensures
            final(self).advanced_to(
                *old(self),
                res,
                |s: String| s@,
                ident_at(old(self).stream(), old(self).index()),
            ),
            final(self).index() == old(self).index() + 1,
            res is Ok ==> old(self).stream().beyond(old(self).index(), old(self).index() + 1),
    {
        proof {
            reveal(ident_at);
        }
        match self.consume() {
            Some(Token::Ident(s)) => Ok(s),
            Some(t) => Err(ParseErr::UnexpectedToken(t)),
            None => Err(ParseErr::UnexpectedEof),
        }
    }

    /// Parses all statements up to the end of the tokens.
    pub fn parse(&mut self) -> (res: Result<Program, ParseErr>)
        requires
            old(self).wf(),
            old(self).can_reach(program_at(old(self).stream(), old(self).index()).1),
        ensures
            final(self).advanced_to(
                *old(self),
                res,
                |p: Program| p@,
                program_at(old(self).stream(), old(self).index()),
            ),
    {
        let ghost src = self.bytes();
        let ghost ts = self.stream();
        let ghost target = program_at(ts, self.index());
        let mut stmts: Vec<Stmt> = Vec::new();
        while self.current.is_some()
            invariant
                self.wf(),
                self.bytes() == src,
                src == old(self).bytes(),
                target == program_at(ts, old(self).index()),
                ts == lexed_stream(src),
                program_loop(ts, stmts_view(stmts@), self.index()) == target,
                self.can_reach(target.1),
            decreases (ts.rank)(self.index()),
        {
            let ghost i = self.index();
            proof {
                self.lemma_current();
                lemma_stmt_at(ts, i);
                if let (Ok(st), j) = stmt_at(ts, i) {
                    lemma_program_loop(ts, stmts_view(stmts@).push(st), j);
                }
            }
            match self.parse_stmt() {
                Ok(st) => {
                    proof {
                        lemma_stmts_view_push(stmts@, st);
                    }
                    stmts.push(st);
                },
                Err(x) => return Err(x),
            }
        }
        proof {
            self.lemma_current();
        }
        Ok(Program { stmts })
    }

    /// A statement: `let`, `fn` or `struct` by the current token, else an
    /// expression.
    fn parse_stmt(&mut self) -> (res: Result<Stmt, ParseErr>)
        requires
            old(self).wf(),
            old(self).can_reach(stmt_at(old(self).stream(), old(self).index()).1),
        ensures
            final(self).advanced_to(
                *old(self),
                res,
                |st: Stmt| st@,
                stmt_at(old(self).stream(), old(self).index()),
            ),
        decreases (old(self).stream().rank)(old(self).index()), 5nat,
    {
        proof {
            self.lemma_current();
        }
        match &self.current {
            Some(Token::Let) => self.parse_let(),
            Some(Token::Fn) => self.parse_fn_decl(),
            Some(Token::Struct) => self.parse_struct(),
            _ => match self.parse_expr() {
                Ok(e) => Ok(Stmt::Expr(e)),
                Err(x) => Err(x),
            },
        }
    }

    /// An expression.
    fn parse_expr(&mut self) -> (res: Result<Expr, ParseErr>)
        requires
            old(self).wf(),
            old(self).can_reach(expr_at(old(self).stream(), old(self).index()).1),
        ensures
            final(self).advanced_to(
                *old(self),
                res,
                |e: Expr| e@,
                expr_at(old(self).stream(), old(self).index()),
            ),
        decreases (old(self).stream().rank)(old(self).index()), 4nat,
    {
        self.parse_comparison()
    }

    /// `additive (cmp_op term)*`, grouping to the left.
    fn parse_comparison(&mut self) -> (res: Result<Expr, ParseErr>)
        requires
            old(self).wf(),
            old(self).can_reach(comparison_at(old(self).stream(), old(self).index()).1),
        ensures
            final(self).advanced_to(
                *old(self),
                res,
                |e: Expr| e@,
                comparison_at(old(self).stream(), old(self).index()),
            ),
        decreases (old(self).stream().rank)(old(self).index()), 3nat,
    {
        let ghost src = self.bytes();
        let ghost ts = self.stream();
        let ghost i0 = self.index();
        let ghost target = comparison_at(ts, i0);
        proof {
            lemma_additive_at(ts, i0);
            if let (Ok(lhs), j) = additive_at(ts, i0) {
                lemma_comparison_loop(ts, lhs, j);
            }
        }
        let mut lhs = match self.parse_additive() {
            Ok(e) => e,
            Err(x) => return Err(x),
        };
        loop
            invariant
                self.wf(),
                self.bytes() == src,
                src == old(self).bytes(),
                target == comparison_at(ts, i0),
                ts == lexed_stream(src),
                comparison_loop(ts, lhs@, self.index()) == target,
                self.can_reach(target.1),
                (ts.rank)(self.index()) < (ts.rank)(i0),
                i0 == old(self).index(),
            decreases (ts.rank)(self.index()),
        {
            let ghost i = self.index();
            proof {
                self.lemma_current();
            }
            let op = match &self.current {
                Some(t) => token_comparison_op(t),
                None => None,
            };
            let op = match op {
                Some(op) => op,
                None => return Ok(lhs),
            };
            proof {
                lemma_term_at(ts, i + 1);
                if let (Ok(rhs), j) = term_at(ts, i + 1) {
                    lemma_comparison_loop(ts, bin(op, lhs@, rhs), j);
                }
            }
            self.consume();
            let rhs = match self.parse_term() {
                Ok(e) => e,
                Err(x) => return Err(x),
            };
            lhs = Expr::BinOp { op, lhs: Box::new(lhs), rhs: Box::new(rhs) };
        }
    }

    /// `term ([+-] term)*`, grouping to the left.
    fn parse_additive(&mut self) -> (res: Result<Expr, ParseErr>)
        requires
            old(self).wf(),
            old(self).can_reach(additive_at(old(self).stream(), old(self).index()).1),
        ensures
            final(self).advanced_to(
                *old(self),
                res,
                |e: Expr| e@,
                additive_at(old(self).stream(), old(self).index()),
            ),
        decreases (old(self).stream().rank)(old(self).index()), 2nat,
    {
        let ghost src = self.bytes();
        let ghost ts = self.stream();
        let ghost i0 = self.index();
        let ghost target = additive_at(ts, i0);
        proof {
            lemma_term_at(ts, i0);
            if let (Ok(lhs), j) = term_at(ts, i0) {
                lemma_additive_loop(ts, lhs, j);
            }
        }
        let mut lhs = match self.parse_term() {
            Ok(e) => e,
            Err(x) => return Err(x),
        };
        loop
            invariant
                self.wf(),
                self.bytes() == src,
                src == old(self).bytes(),
                target == additive_at(ts, i0),
                ts == lexed_stream(src),
                additive_loop(ts, lhs@, self.index()) == target,
                self.can_reach(target.1),
                (ts.rank)(self.index()) < (ts.rank)(i0),
                i0 == old(self).index(),
            decreases (ts.rank)(self.index()),
        {
            let ghost i = self.index();
            proof {
                self.lemma_current();
            }
            let op = match &self.current {
                Some(t) => token_additive_op(t),
                None => None,
            };
            let op = match op {
                Some(op) => op,
                None => return Ok(lhs),
            };
            proof {
                lemma_term_at(ts, i + 1);
                if let (Ok(rhs), j) = term_at(ts, i + 1) {
                    lemma_additive_loop(ts, bin(op, lhs@, rhs), j);
                }
            }
            self.consume();
            let rhs = match self.parse_term() {
                Ok(e) => e,
                Err(x) => return Err(x),
            };
            lhs = Expr::BinOp { op, lhs: Box::new(lhs), rhs: Box::new(rhs) };
        }
    }

    /// `postfix ([*/] postfix)*`, grouping to the left.
    fn parse_term(&mut self) -> (res: Result<Expr, ParseErr>)
        requires
            old(self).wf(),
            old(self).can_reach(term_at(old(self).stream(), old(self).index()).1),
        ensures
            final(self).advanced_to(
                *old(self),
                res,
                |e: Expr| e@,
                term_at(old(self).stream(), old(self).index()),
            ),
        decreases (old(self).stream().rank)(old(self).index()), 1nat,
    {
        let ghost src = self.bytes();
        let ghost ts = self.stream();
        let ghost i0 = self.index();
        let ghost target = term_at(ts, i0);
        proof {
            lemma_factor_at(ts, i0);
            if let (Ok(p), j) = factor_at(ts, i0) {
                lemma_postfix_loop(ts, p, j);
                if let (Ok(lhs), k) = postfix_loop(ts, p, j) {
                    lemma_term_loop(ts, lhs, k);
                }
            }
        }
        let primary = match self.parse_factor() {
            Ok(e) => e,
            Err(x) => return Err(x),
        };
        let mut lhs = match self.parse_postfix(primary) {
            Ok(e) => e,
            Err(x) => return Err(x),
        };
        loop
            invariant
                self.wf(),
                self.bytes() == src,
                src == old(self).bytes(),
                target == term_at(ts, i0),
                ts == lexed_stream(src),
                term_loop(ts, lhs@, self.index()) == target,
                self.can_reach(target.1),
                (ts.rank)(self.index()) < (ts.rank)(i0),
                i0 == old(self).index(),
            decreases (ts.rank)(self.index()),
        {
            let ghost i = self.index();
            proof {
                self.lemma_current();
            }
            let op = match &self.current {
                Some(t) => token_multiplicative_op(t),
                None => None,
            };
            let op = match op {
                Some(op) => op,
                None => return Ok(lhs),
            };
            proof {
                lemma_factor_at(ts, i + 1);
                if let (Ok(f), j) = factor_at(ts, i + 1) {
                    lemma_postfix_loop(ts, f, j);
                    if let (Ok(rhs), k) = postfix_loop(ts, f, j) {
                        lemma_term_loop(ts, bin(op, lhs@, rhs), k);
                    }
                }
            }
            self.consume();
            let factor = match self.parse_factor() {
                Ok(e) => e,
                Err(x) => return Err(x),
            };
            let rhs = match self.parse_postfix(factor) {
                Ok(e) => e,
                Err(x) => return Err(x),
            };
            lhs = Expr::BinOp { op, lhs: Box::new(lhs), rhs: Box::new(rhs) };
        }
    }

    /// A factor: takes the current token and goes on by what it is.
    fn parse_factor(&mut self) -> (res: Result<Expr, ParseErr>)
        requires
            old(self).wf(),
            old(self).can_reach(factor_at(old(self).stream(), old(self).index()).1),
        ensures
            final(self).advanced_to(
                *old(self),
                res,
                |e: Expr| e@,
                factor_at(old(self).stream(), old(self).index()),
            ),
        decreases (old(self).stream().rank)(old(self).index()), 0nat,
    {
        let ghost ts = self.stream();
        let ghost i0 = self.index();
        proof {
            self.lemma_current();
            lemma_factor_at(ts, i0);
        }
        match self.consume() {
            Some(Token::Number(n)) => Ok(Expr::Number(n)),
            Some(Token::String(s)) => Ok(Expr::String(s)),
            Some(Token::LBrace) => self.parse_list(),
            Some(Token::If) => self.parse_if(),
            Some(Token::Ident(s)) => {
                if matches!(self.peek(), Some(Token::LParen)) {
                    self.parse_call(s)
                } else {
                    Ok(Expr::Ident(s))
                }
            },
            Some(Token::LParen) => {
                proof {
                    lemma_expr_at(ts, i0 + 1);
                    lemma_expect_at(ts, SpecToken::RParen, "expected ')'"@, expr_at(ts, i0 + 1).1);
                }
                let expr = match self.parse_expr() {
                    Ok(e) => e,
                    Err(x) => return Err(x),
                };
                match self.expect(Token::RParen, "expected ')'") {
                    Ok(_) => Ok(expr),
                    Err(x) => Err(x),
                }
            },
            Some(Token::Fn) => self.parse_lambda(),
            Some(t) => Err(ParseErr::UnexpectedToken(t)),
            None => Err(ParseErr::UnexpectedEof),
        }
    }

    /// An anonymous function after `fn`: its parameters in parentheses
    /// (none when it opens with `()`), a further `)`, and a body of one
    /// expression in braces.
    #[verifier::rlimit(40)]
    #[verifier::spinoff_prover]
    fn parse_lambda(&mut self) -> (res: Result<Expr, ParseErr>)
        requires
            old(self).wf(),
            old(self).can_reach(lambda_at(old(self).stream(), old(self).index()).1),
        ensures
            final(self).advanced_to(
                *old(self),
                res,
                |e: Expr| e@,
                lambda_at(old(self).stream(), old(self).index()),
            ),
        decreases (old(self).stream().rank)(old(self).index()), 0nat,
    {
        let ghost ts = self.stream();
        let ghost i0 = self.index();
        proof {
            lemma_lambda_at(ts, i0);
            lemma_exprs_at(ts, SpecToken::RParen, i0 + 1);
            lemma_expect_at(ts, SpecToken::LParen, "expected '(' after `fn` to create an anonymous function"@, i0);
            let k1 = i0 + 2;
            let k2 = exprs_at(ts, SpecToken::RParen, i0 + 1).1;
            lemma_expect_at(ts, SpecToken::RParen, "expected ')' after params"@, k1);
            lemma_expect_at(ts, SpecToken::LCurl, "expected '{' after function params"@, k1 + 1);
            lemma_expr_at(ts, k1 + 2);
            lemma_expect_at(ts, SpecToken::RCurl, "expected '}' to close function body"@, expr_at(ts, k1 + 2).1);
            lemma_expect_at(ts, SpecToken::RParen, "expected ')' after params"@, k2);
            lemma_expect_at(ts, SpecToken::LCurl, "expected '{' after function params"@, k2 + 1);
            lemma_expr_at(ts, k2 + 2);
            lemma_expect_at(ts, SpecToken::RCurl, "expected '}' to close function body"@, expr_at(ts, k2 + 2).1);
        }
        match self.expect(Token::LParen, "expected '(' after `fn` to create an anonymous function") {
            Ok(_) => {},
            Err(x) => return Err(x),
        }
        let params = if matches!(self.peek(), Some(Token::RParen)) {
            self.consume();
            None
        } else {
            match self.parse_list_of_exprs(Token::RParen) {
                Ok(ps) => Some(ps),
                Err(x) => return Err(x),
            }
        };
        match self.expect(Token::RParen, "expected ')' after params") {
            Ok(_) => {},
            Err(x) => return Err(x),
        }
        match self.expect(Token::LCurl, "expected '{' after function params") {
            Ok(_) => {},
            Err(x) => return Err(x),
        }
        let value = match self.parse_expr() {
            Ok(e) => e,
            Err(x) => return Err(x),
        };
        match self.expect(Token::RCurl, "expected '}' to close function body") {
            Ok(_) => {},
            Err(x) => return Err(x),
        }
        Ok(Expr::Lambda { params, value: Box::new(value) })
    }

    /// `('.' ident)*` applied to `expr`, grouping to the left.
    fn parse_postfix(&mut self, expr: Expr) -> (res: Result<Expr, ParseErr>)
        requires
            old(self).wf(),
            old(self).can_reach(postfix_loop(old(self).stream(), expr@, old(self).index()).1),
        ensures
            final(self).advanced_to(
                *old(self),
                res,
                |e: Expr| e@,
                postfix_loop(old(self).stream(), expr@, old(self).index()),
            ),
    {
        let ghost src = self.bytes();
        let ghost ts = self.stream();
        let ghost target = postfix_loop(ts, expr@, self.index());
        let mut cur = expr;
        loop
            invariant
                self.wf(),
                self.bytes() == src,
                src == old(self).bytes(),
                target == postfix_loop(ts, expr@, old(self).index()),
                ts == lexed_stream(src),
                postfix_loop(ts, cur@, self.index()) == target,
                self.can_reach(target.1),
            decreases (ts.rank)(self.index()),
        {
            let ghost i = self.index();
            proof {
                reveal(ident_at);
            }
            if !matches!(self.peek(), Some(Token::Dot)) {
                return Ok(cur);
            }
            proof {
                if let (Ok(field), j) = ident_at(ts, i + 1) {
                    lemma_postfix_loop(ts, SpecExpr::FieldAccess { receiver: Box::new(cur@), field }, j);
                }
            }
            self.consume();
            let field = match self.get_identifier_value() {
                Ok(f) => f,
                Err(x) => return Err(x),
            };
            cur = Expr::FieldAccess { receiver: Box::new(cur), field };
        }
    }

    /// A call after its callee: `'(' exprs ')'`.
    fn parse_call(&mut self, callee: String) -> (res: Result<Expr, ParseErr>)
        requires
            old(self).wf(),
            old(self).can_reach(call_at(old(self).stream(), callee@, old(self).index()).1),
        ensures
            final(self).advanced_to(
                *old(self),
                res,
                |e: Expr| e@,
                call_at(old(self).stream(), callee@, old(self).index()),
            ),
        decreases (old(self).stream().rank)(old(self).index()), 0nat,
    {
        proof {
            reveal(expect_at);
            reveal(ident_at);
        }
        let ghost ts = self.stream();
        let ghost i0 = self.index();
        proof {
            lemma_exprs_at(ts, SpecToken::RParen, i0 + 1);
        }
        match self.expect(Token::LParen, "expected '('") {
            Ok(_) => {},
            Err(x) => return Err(x),
        }
        let args = match self.parse_list_of_exprs(Token::RParen) {
            Ok(a) => a,
            Err(x) => return Err(x),
        };
        match self.expect(Token::RParen, "expected ')'") {
            Ok(_) => {},
            Err(x) => return Err(x),
        }
        Ok(Expr::Call { callee, args })
    }

    /// A list after `[`: `exprs ']'`.
    fn parse_list(&mut self) -> (res: Result<Expr, ParseErr>)
        requires
            old(self).wf(),
            old(self).can_reach(list_at(old(self).stream(), old(self).index()).1),
        ensures
            final(self).advanced_to(
                *old(self),
                res,
                |e: Expr| e@,
                list_at(old(self).stream(), old(self).index()),
            ),
        decreases (old(self).stream().rank)(old(self).index()), 7nat,
    {
        proof {
            reveal(expect_at);
            reveal(ident_at);
        }
        let ghost ts = self.stream();
        let ghost i0 = self.index();
        proof {
            lemma_exprs_at(ts, SpecToken::RBrace, i0);
        }
        let elements = match self.parse_list_of_exprs(Token::RBrace) {
            Ok(a) => a,
            Err(x) => return Err(x),
        };
        match self.expect(Token::RBrace, "expected ']'") {
            Ok(_) => {},
            Err(x) => return Err(x),
        }
        Ok(Expr::List(elements))
    }

    /// An `if` after `if`: `expr block ('else' block)?`.
    fn parse_if(&mut self) -> (res: Result<Expr, ParseErr>)
        requires
            old(self).wf(),
            old(self).can_reach(if_at(old(self).stream(), old(self).index()).1),
        ensures
            final(self).advanced_to(
                *old(self),
                res,
                |e: Expr| e@,
                if_at(old(self).stream(), old(self).index()),
            ),
        decreases (old(self).stream().rank)(old(self).index()), 5nat,
    {
        proof {
            reveal(expect_at);
            reveal(ident_at);
        }
        let ghost ts = self.stream();
        let ghost i0 = self.index();
        proof {
            lemma_expr_at(ts, i0);
            if let (Ok(c), j) = expr_at(ts, i0) {
                lemma_block_at(ts, j);
                if let (Ok(t), k) = block_at(ts, j) {
                    lemma_block_at(ts, k + 1);
                }
            }
        }
        let cond = match self.parse_expr() {
            Ok(e) => e,
            Err(x) => return Err(x),
        };
        let then = match self.parse_block() {
            Ok(b) => b,
            Err(x) => return Err(x),
        };
        proof {
            self.lemma_current();
        }
        let else_ = if self.current_is(&Token::Else) {
            self.consume();
            match self.parse_block() {
                Ok(b) => Some(b),
                Err(x) => return Err(x),
            }
        } else {
            None
        };
        Ok(Expr::If { cond: Box::new(cond), then, else_ })
    }

    /// `let ident '=' expr`.
    fn parse_let(&mut self) -> (res: Result<Stmt, ParseErr>)
        requires
            old(self).wf(),
            old(self).can_reach(let_at(old(self).stream(), old(self).index()).1),
        ensures
            final(self).advanced_to(
                *old(self),
                res,
                |st: Stmt| st@,
                let_at(old(self).stream(), old(self).index()),
            ),
        decreases (old(self).stream().rank)(old(self).index()), 0nat,
    {
        proof {
            reveal(expect_at);
            reveal(ident_at);
        }
        let ghost ts = self.stream();
        let ghost i0 = self.index();
        proof {
            lemma_expr_at(ts, i0 + 3);
        }
        match self.expect(Token::Let, "expected 'let'") {
            Ok(_) => {},
            Err(x) => return Err(x),
        }
        let name = match self.get_identifier_value() {
            Ok(n) => n,
            Err(x) => return Err(x),
        };
        match self.expect(Token::Eq, "expected '=' after name") {
            Ok(_) => {},
            Err(x) => return Err(x),
        }
        let value = match self.parse_expr() {
            Ok(e) => e,
            Err(x) => return Err(x),
        };
        Ok(Stmt::Let { name, value })
    }

    /// `fn ident '(' params ')' block`, the parameters being names.
    fn parse_fn_decl(&mut self) -> (res: Result<Stmt, ParseErr>)
        requires
            old(self).wf(),
            old(self).can_reach(fn_decl_at(old(self).stream(), old(self).index()).1),
        ensures
            final(self).advanced_to(
                *old(self),
                res,
                |st: Stmt| st@,
                fn_decl_at(old(self).stream(), old(self).index()),
            ),
        decreases (old(self).stream().rank)(old(self).index()), 0nat,
    {
        proof {
            reveal(expect_at);
            reveal(ident_at);
        }
        let ghost ts = self.stream();
        let ghost i0 = self.index();
        proof {
            lemma_params_at(ts, i0 + 3);
            if let (Ok(ps), m) = params_at(ts, i0 + 3) {
                lemma_block_at(ts, m + 1);
            }
        }
        match self.expect(Token::Fn, "expected 'fn'") {
            Ok(_) => {},
            Err(x) => return Err(x),
        }
        let name = match self.get_identifier_value() {
            Ok(n) => n,
            Err(x) => return Err(x),
        };
        match self.expect(Token::LParen, "expected '(' after name") {
            Ok(_) => {},
            Err(x) => return Err(x),
        }
        let params = match self.parse_params() {
            Ok(ps) => ps,
            Err(x) => return Err(x),
        };
        match self.expect(Token::RParen, "expected ')'") {
            Ok(_) => {},
            Err(x) => return Err(x),
        }
        let body = match self.parse_block() {
            Ok(b) => b,
            Err(x) => return Err(x),
        };
        Ok(Stmt::FnDecl { name, params, body })
    }

    /// The parameters of a function declaration: names separated by commas,
    /// up to the `)`, which is left current; none when `)` is current at once.
    fn parse_params(&mut self) -> (res: Result<Vec<Expr>, ParseErr>)
        requires
            old(self).wf(),
            old(self).can_reach(params_at(old(self).stream(), old(self).index()).1),
        ensures
            final(self).advanced_to(
                *old(self),
                res,
                |v: Vec<Expr>| exprs_view(v@),
                params_at(old(self).stream(), old(self).index()),
            ),
    {
        let ghost src = self.bytes();
        let ghost ts = self.stream();
        let ghost i0 = self.index();
        let ghost target = params_at(ts, i0);
        let mut params: Vec<Expr> = Vec::new();
        if self.current_is(&Token::RParen) {
            return Ok(params);
        }
        loop
            invariant
                self.wf(),
                self.bytes() == src,
                src == old(self).bytes(),
                target == params_at(ts, i0),
                ts == lexed_stream(src),
                params_loop(ts, exprs_view(params@), self.index()) == target,
                self.can_reach(target.1),
                i0 == old(self).index(),
            decreases (ts.rank)(self.index()),
        {
            let ghost i = self.index();
            proof {
                reveal(expect_at);
                reveal(ident_at);
                lemma_params_loop(ts, exprs_view(params@), i);
                if let (Ok(name), j) = ident_at(ts, i) {
                    let acc2 = exprs_view(params@).push(SpecExpr::Ident(name));
                    if let (Ok(_), k) = expect_at(ts, SpecToken::Comma, "expected ','"@, j) {
                        lemma_params_loop(ts, acc2, k);
                    }
                }
            }
            let name = match self.get_identifier_value() {
                Ok(n) => n,
                Err(x) => return Err(x),
            };
            let param = Expr::Ident(name);
            proof {
                lemma_exprs_view_push(params@, param);
            }
            params.push(param);
            if self.current_is(&Token::RParen) {
                return Ok(params);
            }
            match self.expect(Token::Comma, "expected ','") {
                Ok(_) => {},
                Err(x) => return Err(x),
            }
        }
    }

    /// `struct ident '{' fields '}'`; the current token is `struct`.
    fn parse_struct(&mut self) -> (res: Result<Stmt, ParseErr>)
        requires
            old(self).wf(),
            old(self).can_reach(struct_at(old(self).stream(), old(self).index()).1),
        ensures
            final(self).advanced_to(
                *old(self),
                res,
                |st: Stmt| st@,
                struct_at(old(self).stream(), old(self).index()),
            ),
    {
        let ghost src = self.bytes();
        let ghost ts = self.stream();
        let ghost i0 = self.index();
        let ghost target = struct_at(ts, i0);
        proof {
            reveal(struct_at);
            reveal(ident_at);
            reveal(expect_at);
            lemma_struct_at(ts, i0);
            lemma_struct_fields(ts, seq![], i0 + 3);
        }
        self.consume();
        let name = match self.get_identifier_value() {
            Ok(n) => n,
            Err(x) => return Err(x),
        };
        match self.expect(Token::LCurl, "expected '{' after struct name") {
            Ok(_) => {},
            Err(x) => return Err(x),
        }
        let ghost k0 = self.index();
        let ghost fields_target = struct_fields(ts, seq![], k0);
        let mut fields: Vec<Field> = Vec::new();
        assert(fields_view(fields@) =~= seq![]);
        loop
            invariant_except_break
                struct_fields(ts, fields_view(fields@), self.index()) == fields_target,
            invariant
                self.wf(),
                self.bytes() == src,
                src == old(self).bytes(),
                target == struct_at(ts, old(self).index()),
                fields_target == struct_fields(ts, seq![], k0),
                target == struct_close(ts, name@, fields_target),
                ts == lexed_stream(src),
                self.can_reach(fields_target.1),
                fields_target.1 <= target.1,
            ensures
                fields_target == (Ok::<_, SpecErr>(fields_view(fields@)), self.index()),
            decreases (ts.rank)(self.index()),
        {
            let ghost i = self.index();
            proof {
                reveal(ident_at);
                reveal(expect_at);
                self.lemma_current();
                lemma_struct_fields(ts, fields_view(fields@), i);
                if let (Ok(n), j) = ident_at(ts, i) {
                    if let (Ok(_), k) = expect_at(ts, SpecToken::Colon, "expected ':' after field name"@, j) {
                        if let (Ok(t), l) = ident_at(ts, k) {
                            let acc2 = fields_view(fields@).push(SpecField { name: n, ty: t });
                            if let (Ok(_), m) = expect_at(ts, SpecToken::Comma, "expected ','"@, l) {
                                lemma_struct_fields(ts, acc2, m);
                            }
                        }
                    }
                }
            }
            if self.current_is(&Token::RCurl) {
                break;
            }
            let fname = match self.get_identifier_value() {
                Ok(n) => n,
                Err(x) => return Err(x),
            };
            match self.expect(Token::Colon, "expected ':' after field name") {
                Ok(_) => {},
                Err(x) => return Err(x),
            }
            let ty = match self.get_identifier_value() {
                Ok(t) => t,
                Err(x) => return Err(x),
            };
            let field = Field { name: fname, ty };
            proof {
                lemma_fields_view_push(fields@, field);
            }
            fields.push(field);
            if self.current_is(&Token::RCurl) {
                break;
            }
            match self.expect(Token::Comma, "expected ','") {
                Ok(_) => {},
                Err(x) => return Err(x),
            }
        }
        match self.expect(Token::RCurl, "expected '}'") {
            Ok(_) => {},
            Err(x) => return Err(x),
        }
        Ok(Stmt::Struct { name, fields })
    }

    /// Comma-separated expressions up to `delim`, which is left current;
    /// none when `delim` is current at once.
    fn parse_list_of_exprs(&mut self, delim: Token) -> (res: Result<Vec<Expr>, ParseErr>)
        requires
            old(self).wf(),
            old(self).can_reach(exprs_at(old(self).stream(), delim@, old(self).index()).1),
        ensures
            final(self).advanced_to(
                *old(self),
                res,
                |v: Vec<Expr>| exprs_view(v@),
                exprs_at(old(self).stream(), delim@, old(self).index()),
            ),
        decreases (old(self).stream().rank)(old(self).index()), 6nat,
    {
        proof {
            reveal(expect_at);
            reveal(ident_at);
        }
        let ghost src = self.bytes();
        let ghost ts = self.stream();
        let ghost i0 = self.index();
        let ghost target = exprs_at(ts, delim@, i0);
        let mut exprs: Vec<Expr> = Vec::new();
        if self.current_is(&delim) {
            return Ok(exprs);
        }
        loop
            invariant
                self.wf(),
                self.bytes() == src,
                src == old(self).bytes(),
                target == exprs_at(ts, delim@, i0),
                ts == lexed_stream(src),
                exprs_loop(ts, delim@, exprs_view(exprs@), self.index()) == target,
                self.can_reach(target.1),
                (ts.rank)(self.index()) <= (ts.rank)(i0),
                i0 == old(self).index(),
            decreases (ts.rank)(self.index()),
        {
            let ghost i = self.index();
            proof {
                reveal(expect_at);
                lemma_exprs_loop(ts, delim@, exprs_view(exprs@), i);
                lemma_expr_at(ts, i);
                if let (Ok(e), j) = expr_at(ts, i) {
                    let acc2 = exprs_view(exprs@).push(e);
                    if let (Ok(_), k) = expect_at(ts, SpecToken::Comma, "expected ','"@, j) {
                        lemma_exprs_loop(ts, delim@, acc2, k);
                    }
                }
            }
            let e = match self.parse_expr() {
                Ok(e) => e,
                Err(x) => return Err(x),
            };
            proof {
                lemma_exprs_view_push(exprs@, e);
            }
            exprs.push(e);
            if self.current_is(&delim) {
                return Ok(exprs);
            }
            match self.expect(Token::Comma, "expected ','") {
                Ok(_) => {},
                Err(x) => return Err(x),
            }
        }
    }

    /// A block: `'{' stmt* '}'`.
    fn parse_block(&mut self) -> (res: Result<Vec<Stmt>, ParseErr>)
        requires
            old(self).wf(),
            old(self).can_reach(block_at(old(self).stream(), old(self).index()).1),
        ensures
            final(self).advanced_to(
                *old(self),
                res,
                |v: Vec<Stmt>| stmts_view(v@),
                block_at(old(self).stream(), old(self).index()),
            ),
        decreases (old(self).stream().rank)(old(self).index()), 0nat,
    {
        proof {
            reveal(expect_at);
            reveal(ident_at);
        }
        let ghost src = self.bytes();
        let ghost ts = self.stream();
        let ghost i0 = self.index();
        let ghost target = block_at(ts, i0);
        proof {
            lemma_block_loop(ts, seq![], i0 + 1);
        }
        match self.expect(Token::LCurl, "expected '{'") {
            Ok(_) => {},
            Err(x) => return Err(x),
        }
        let mut stmts: Vec<Stmt> = Vec::new();
        loop
            invariant_except_break
                block_loop(ts, stmts_view(stmts@), self.index()) == target,
            invariant
                self.wf(),
                self.bytes() == src,
                src == old(self).bytes(),
                target == block_at(ts, i0),
                i0 == old(self).index(),
                ts == lexed_stream(src),
                self.can_reach(target.1),
                (ts.rank)(self.index()) < (ts.rank)(i0),
                i0 == old(self).index(),
            ensures
                block_loop(ts, stmts_view(stmts@), self.index()) == target,
                self.stream().at(self.index()) == Some(SpecToken::RCurl),
            decreases (ts.rank)(self.index()),
        {
            let ghost i = self.index();
            proof {
                self.lemma_current();
                lemma_block_loop(ts, stmts_view(stmts@), i);
            }
            if self.current_is(&Token::RCurl) {
                break;
            }
            if self.current.is_none() {
                return Err(ParseErr::UnexpectedEof);
            }
            proof {
                lemma_stmt_at(ts, i);
                if let (Ok(st), j) = stmt_at(ts, i) {
                    lemma_block_loop(ts, stmts_view(stmts@).push(st), j);
                }
            }
            match self.parse_stmt() {
                Ok(st) => {
                    proof {
                        lemma_stmts_view_push(stmts@, st);
                    }
                    stmts.push(st);
                },
                Err(x) => return Err(x),
            }
        }
        match self.expect(Token::RCurl, "expected '}'") {
            Ok(_) => {},
            Err(x) => return Err(x),
        }
        Ok(stmts)
    }
}

} // verus!
