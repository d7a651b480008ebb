//! The grammar reads a stream only through its tokens up to the first
//! position that holds none: two streams that agree there are parsed alike.

use vstd::prelude::*;
use crate::token::SpecToken;
use crate::ast::{SpecExpr, SpecStmt, SpecField};
use crate::grammar::{
    TokenStream, Parsed, bin, expect_at, ident_at, postfix_loop, struct_fields, struct_at,
    params_at, params_loop,
    stmt_at, let_at, fn_decl_at, expr_at, comparison_at, comparison_loop, additive_at,
    additive_loop, term_at, term_loop, factor_at, lambda_at, call_at, list_at, if_at, exprs_at,
    exprs_loop, block_at, block_loop, program_loop, comparison_op, additive_op,
    multiplicative_op, op_at,
};

verus! {

/// `s1` and `s2` hold the same tokens at the positions `0..=n`, `n` is where
/// `s1` holds none, and between those positions either stream is shorter
/// at one than at another exactly when the other is.
pub open spec fn same_upto(s1: TokenStream, s2: TokenStream, n: int) -> bool {
    &&& 0 <= n
    &&& s1.at(n) is None
    &&& forall|k: int| #![trigger s1.at(k)] #![trigger s2.at(k)] 0 <= k <= n ==> s1.at(k) == s2.at(k)
    &&& forall|i: int, j: int|
        #![trigger s1.beyond(i, j)]
        #![trigger s2.beyond(i, j)]
        0 <= i <= n && 0 <= j <= n ==> (s1.beyond(i, j) <==> s2.beyond(i, j))
}

/// Two results of one grammar function at `i` are equal, and a success
/// leaves the index between `i` and `n`.
pub open spec fn agree<T>(n: int, i: int, p: Parsed<T>, q: Parsed<T>) -> bool {
    &&& p == q
    &&& p.0 is Ok ==> i <= p.1 <= n
}

/// A stream that holds a token at each of the positions `0..n` is shorter
/// at `j` than at `i` exactly when `i < j`, on the positions `0..=n`.
pub proof fn lemma_shorter_further(s: TokenStream, n: int, i: int, j: int)
    requires
        0 <= i <= n,
        0 <= j <= n,
        forall|k: int| 0 <= k < n ==> #[trigger] s.at(k) is Some,
    ensures
        s.beyond(i, j) <==> i < j,
    decreases if i < j { j - i } else { i - j },
{
    if i < j {
        assert(s.at(j - 1) is Some);
        if i < j - 1 {
            lemma_shorter_further(s, n, i, j - 1);
        }
    } else if j < i {
        assert(s.at(i - 1) is Some);
        if j < i - 1 {
            lemma_shorter_further(s, n, j, i - 1);
        }
    }
}

// ---------------------------------------------------------------------------
// Each `local_` lemma: on two streams that are the same up to `n`, the
// grammar function of its name gives the same result from any position up
// to `n`, and a success stops at or before `n`.
// ---------------------------------------------------------------------------

pub proof fn local_postfix_loop(s1: TokenStream, s2: TokenStream, n: int, e: SpecExpr, i: int)
    requires
        same_upto(s1, s2, n),
        0 <= i <= n,
    ensures
        agree(n, i, postfix_loop(s1, e, i), postfix_loop(s2, e, i)),
    decreases (s1.rank)(i),
{
    reveal(expect_at);
    reveal(ident_at);
    if s1.at(i) == Some(SpecToken::Dot) {
        if let (Ok(field), j) = ident_at(s1, i + 1) {
            local_postfix_loop(s1, s2, n, SpecExpr::FieldAccess { receiver: Box::new(e), field }, j);
        }
    }
}

pub proof fn local_params_loop(s1: TokenStream, s2: TokenStream, n: int, acc: Seq<SpecExpr>, i: int)
    requires
        same_upto(s1, s2, n),
        0 <= i <= n,
    ensures
        agree(n, i, params_loop(s1, acc, i), params_loop(s2, acc, i)),
    decreases (s1.rank)(i),
{
    reveal(expect_at);
    reveal(ident_at);
    if let (Ok(name), j) = ident_at(s1, i) {
        let acc2 = acc.push(SpecExpr::Ident(name));
        assert(s1.at(j) == s2.at(j));
        if s1.at(j) != Some(SpecToken::RParen) {
            if let (Ok(_), k) = expect_at(s1, SpecToken::Comma, "expected ','"@, j) {
                local_params_loop(s1, s2, n, acc2, k);
            }
        }
    }
}

pub proof fn local_params_at(s1: TokenStream, s2: TokenStream, n: int, i: int)
    requires
        same_upto(s1, s2, n),
        0 <= i <= n,
    ensures
        agree(n, i, params_at(s1, i), params_at(s2, i)),
{
    assert(s1.at(i) == s2.at(i));
    if s1.at(i) != Some(SpecToken::RParen) {
        local_params_loop(s1, s2, n, seq![], i);
    }
}

pub proof fn local_struct_fields(s1: TokenStream, s2: TokenStream, n: int, acc: Seq<SpecField>, i: int)
    requires
        same_upto(s1, s2, n),
        0 <= i <= n,
    ensures
        agree(n, i, struct_fields(s1, acc, i), struct_fields(s2, acc, i)),
    decreases (s1.rank)(i),
{
    reveal(expect_at);
    reveal(ident_at);
    if s1.at(i) != Some(SpecToken::RCurl) {
        if let (Ok(name), j) = ident_at(s1, i) {
            if let (Ok(_), k) = expect_at(s1, SpecToken::Colon, "expected ':' after field name"@, j) {
                if let (Ok(ty), l) = ident_at(s1, k) {
                    let acc2 = acc.push(SpecField { name, ty });
                    if s1.at(l) != Some(SpecToken::RCurl) {
                        if let (Ok(_), m) = expect_at(s1, SpecToken::Comma, "expected ','"@, l) {
                            local_struct_fields(s1, s2, n, acc2, m);
                        }
                    }
                }
            }
        }
    }
}

pub proof fn local_struct_at(s1: TokenStream, s2: TokenStream, n: int, i: int)
    requires
        same_upto(s1, s2, n),
        0 <= i < n,
    ensures
        agree(n, i, struct_at(s1, i), struct_at(s2, i)),
{
    reveal(expect_at);
    reveal(ident_at);
    reveal(struct_at);
    if let (Ok(name), j) = ident_at(s1, i + 1) {
        if let (Ok(_), k) = expect_at(s1, SpecToken::LCurl, "expected '{' after struct name"@, j) {
            local_struct_fields(s1, s2, n, seq![], k);
        }
    }
}

pub proof fn local_stmt_at(s1: TokenStream, s2: TokenStream, n: int, i: int)
    requires
        same_upto(s1, s2, n),
        0 <= i <= n,
    ensures
        agree(n, i, stmt_at(s1, i), stmt_at(s2, i)),
    decreases (s1.rank)(i), 5nat,
{
    assert(s1.at(i) == s2.at(i));
    match s1.at(i) {
        Some(SpecToken::Let) => local_let_at(s1, s2, n, i),
        Some(SpecToken::Fn) => local_fn_decl_at(s1, s2, n, i),
        Some(SpecToken::Struct) => local_struct_at(s1, s2, n, i),
        _ => local_expr_at(s1, s2, n, i),
    }
}

pub proof fn local_let_at(s1: TokenStream, s2: TokenStream, n: int, i: int)
    requires
        same_upto(s1, s2, n),
        0 <= i <= n,
    ensures
        agree(n, i, let_at(s1, i), let_at(s2, i)),
    decreases (s1.rank)(i), 0nat,
{
    reveal(expect_at);
    reveal(ident_at);
    if let (Ok(_), j) = expect_at(s1, SpecToken::Let, "expected 'let'"@, i) {
        if let (Ok(name), k) = ident_at(s1, j) {
            if let (Ok(_), l) = expect_at(s1, SpecToken::Eq, "expected '=' after name"@, k) {
                local_expr_at(s1, s2, n, l);
            }
        }
    }
}

pub proof fn local_fn_decl_at(s1: TokenStream, s2: TokenStream, n: int, i: int)
    requires
        same_upto(s1, s2, n),
        0 <= i <= n,
    ensures
        agree(n, i, fn_decl_at(s1, i), fn_decl_at(s2, i)),
    decreases (s1.rank)(i), 0nat,
{
    reveal(expect_at);
    reveal(ident_at);
    if let (Ok(_), j) = expect_at(s1, SpecToken::Fn, "expected 'fn'"@, i) {
        if let (Ok(name), k) = ident_at(s1, j) {
            if let (Ok(_), l) = expect_at(s1, SpecToken::LParen, "expected '(' after name"@, k) {
                local_params_at(s1, s2, n, l);
                if let (Ok(params), m) = params_at(s1, l) {
                    if let (Ok(_), o) = expect_at(s1, SpecToken::RParen, "expected ')'"@, m) {
                        if s1.beyond(i, o) {
                            local_block_at(s1, s2, n, o);
                        }
                    }
                }
            }
        }
    }
}

pub proof fn local_expr_at(s1: TokenStream, s2: TokenStream, n: int, i: int)
    requires
        same_upto(s1, s2, n),
        0 <= i <= n,
    ensures
        agree(n, i, expr_at(s1, i), expr_at(s2, i)),
    decreases (s1.rank)(i), 4nat,
{
    local_comparison_at(s1, s2, n, i);
}

pub proof fn local_comparison_at(s1: TokenStream, s2: TokenStream, n: int, i: int)
    requires
        same_upto(s1, s2, n),
        0 <= i <= n,
    ensures
        agree(n, i, comparison_at(s1, i), comparison_at(s2, i)),
    decreases (s1.rank)(i), 3nat,
{
    local_additive_at(s1, s2, n, i);
    if let (Ok(lhs), j) = additive_at(s1, i) {
        if s1.beyond(i, j) {
            local_comparison_loop(s1, s2, n, lhs, j);
        }
    }
}

pub proof fn local_comparison_loop(s1: TokenStream, s2: TokenStream, n: int, lhs: SpecExpr, i: int)
    requires
        same_upto(s1, s2, n),
        0 <= i <= n,
    ensures
        agree(n, i, comparison_loop(s1, lhs, i), comparison_loop(s2, lhs, i)),
    decreases (s1.rank)(i), 0nat,
{
    assert(s1.at(i) == s2.at(i));
    if let Some(op) = op_at(s1, i, |t: SpecToken| comparison_op(t)) {
        local_term_at(s1, s2, n, i + 1);
        if let (Ok(rhs), j) = term_at(s1, i + 1) {
            if s1.beyond(i, j) {
                local_comparison_loop(s1, s2, n, bin(op, lhs, rhs), j);
            }
        }
    }
}

pub proof fn local_additive_at(s1: TokenStream, s2: TokenStream, n: int, i: int)
    requires
        same_upto(s1, s2, n),
        0 <= i <= n,
    ensures
        agree(n, i, additive_at(s1, i), additive_at(s2, i)),
    decreases (s1.rank)(i), 2nat,
{
    local_term_at(s1, s2, n, i);
    if let (Ok(lhs), j) = term_at(s1, i) {
        if s1.beyond(i, j) {
            local_additive_loop(s1, s2, n, lhs, j);
        }
    }
}

pub proof fn local_additive_loop(s1: TokenStream, s2: TokenStream, n: int, lhs: SpecExpr, i: int)
    requires
        same_upto(s1, s2, n),
        0 <= i <= n,
    ensures
        agree(n, i, additive_loop(s1, lhs, i), additive_loop(s2, lhs, i)),
    decreases (s1.rank)(i), 0nat,
{
    assert(s1.at(i) == s2.at(i));
    if let Some(op) = op_at(s1, i, |t: SpecToken| additive_op(t)) {
        local_term_at(s1, s2, n, i + 1);
        if let (Ok(rhs), j) = term_at(s1, i + 1) {
            if s1.beyond(i, j) {
                local_additive_loop(s1, s2, n, bin(op, lhs, rhs), j);
            }
        }
    }
}

pub proof fn local_term_at(s1: TokenStream, s2: TokenStream, n: int, i: int)
    requires
        same_upto(s1, s2, n),
        0 <= i <= n,
    ensures
        agree(n, i, term_at(s1, i), term_at(s2, i)),
    decreases (s1.rank)(i), 1nat,
{
    local_factor_at(s1, s2, n, i);
    if let (Ok(primary), j) = factor_at(s1, i) {
        local_postfix_loop(s1, s2, n, primary, j);
        if let (Ok(lhs), k) = postfix_loop(s1, primary, j) {
            if s1.beyond(i, k) {
                local_term_loop(s1, s2, n, lhs, k);
            }
        }
    }
}

pub proof fn local_term_loop(s1: TokenStream, s2: TokenStream, n: int, lhs: SpecExpr, i: int)
    requires
        same_upto(s1, s2, n),
        0 <= i <= n,
    ensures
        agree(n, i, term_loop(s1, lhs, i), term_loop(s2, lhs, i)),
    decreases (s1.rank)(i), 0nat,
{
    assert(s1.at(i) == s2.at(i));
    if let Some(op) = op_at(s1, i, |t: SpecToken| multiplicative_op(t)) {
        local_factor_at(s1, s2, n, i + 1);
        if let (Ok(f), j) = factor_at(s1, i + 1) {
            local_postfix_loop(s1, s2, n, f, j);
            if let (Ok(rhs), k) = postfix_loop(s1, f, j) {
                if s1.beyond(i, k) {
                    local_term_loop(s1, s2, n, bin(op, lhs, rhs), k);
                }
            }
        }
    }
}

pub proof fn local_factor_at(s1: TokenStream, s2: TokenStream, n: int, i: int)
    requires
        same_upto(s1, s2, n),
        0 <= i <= n,
    ensures
        agree(n, i, factor_at(s1, i), factor_at(s2, i)),
    decreases (s1.rank)(i), 0nat,
{
    reveal(expect_at);
    reveal(ident_at);
    assert(s1.at(i) == s2.at(i));
    match s1.at(i) {
        Some(SpecToken::LBrace) => local_list_at(s1, s2, n, i + 1),
        Some(SpecToken::If) => local_if_at(s1, s2, n, i + 1),
        Some(SpecToken::Ident(name)) => {
            assert(s1.at(i + 1) == s2.at(i + 1));
            if s1.at(i + 1) == Some(SpecToken::LParen) {
                local_call_at(s1, s2, n, name, i + 1);
            }
        },
        Some(SpecToken::LParen) => local_expr_at(s1, s2, n, i + 1),
        Some(SpecToken::Fn) => local_lambda_at(s1, s2, n, i + 1),
        _ => {},
    }
}

#[verifier::rlimit(40)]
pub proof fn local_lambda_at(s1: TokenStream, s2: TokenStream, n: int, i: int)
    requires
        same_upto(s1, s2, n),
        0 <= i <= n,
    ensures
        agree(n, i, lambda_at(s1, i), lambda_at(s2, i)),
    decreases (s1.rank)(i), 0nat,
{
    reveal(expect_at);
    reveal(ident_at);
    if let (Ok(_), j) = expect_at(s1, SpecToken::LParen, "expected '(' after `fn` to create an anonymous function"@, i) {
        assert(s1.at(j) == s2.at(j));
        if s1.at(j) != Some(SpecToken::RParen) {
            local_exprs_at(s1, s2, n, SpecToken::RParen, j);
        }
        let params: Parsed<Option<Seq<SpecExpr>>> = if s1.at(j) == Some(SpecToken::RParen) {
            (Ok(None), j + 1)
        } else {
            match exprs_at(s1, SpecToken::RParen, j) {
                (Ok(ps), k) => (Ok(Some(ps)), k),
                (Err(x), k) => (Err(x), k),
            }
        };
        if let (Ok(params), k) = params {
            if let (Ok(_), l) = expect_at(s1, SpecToken::RParen, "expected ')' after params"@, k) {
                if let (Ok(_), m) = expect_at(s1, SpecToken::LCurl, "expected '{' after function params"@, l) {
                    if s1.beyond(i, m) {
                        local_expr_at(s1, s2, n, m);
                    }
                }
            }
        }
    }
}

pub proof fn local_call_at(s1: TokenStream, s2: TokenStream, n: int, callee: Seq<char>, i: int)
    requires
        same_upto(s1, s2, n),
        0 <= i <= n,
    ensures
        agree(n, i, call_at(s1, callee, i), call_at(s2, callee, i)),
    decreases (s1.rank)(i), 0nat,
{
    reveal(expect_at);
    reveal(ident_at);
    if let (Ok(_), j) = expect_at(s1, SpecToken::LParen, "expected '('"@, i) {
        local_exprs_at(s1, s2, n, SpecToken::RParen, j);
    }
}

pub proof fn local_list_at(s1: TokenStream, s2: TokenStream, n: int, i: int)
    requires
        same_upto(s1, s2, n),
        0 <= i <= n,
    ensures
        agree(n, i, list_at(s1, i), list_at(s2, i)),
    decreases (s1.rank)(i), 7nat,
{
    reveal(expect_at);
    reveal(ident_at);
    local_exprs_at(s1, s2, n, SpecToken::RBrace, i);
}

pub proof fn local_if_at(s1: TokenStream, s2: TokenStream, n: int, i: int)
    requires
        same_upto(s1, s2, n),
        0 <= i <= n,
    ensures
        agree(n, i, if_at(s1, i), if_at(s2, i)),
    decreases (s1.rank)(i), 5nat,
{
    reveal(expect_at);
    reveal(ident_at);
    local_expr_at(s1, s2, n, i);
    if let (Ok(cond), j) = expr_at(s1, i) {
        if s1.beyond(i, j) {
            local_block_at(s1, s2, n, j);
            if let (Ok(then), k) = block_at(s1, j) {
                assert(s1.at(k) == s2.at(k));
                if s1.at(k) == Some(SpecToken::Else) && s1.beyond(i, k) {
                    local_block_at(s1, s2, n, k + 1);
                }
            }
        }
    }
}

pub proof fn local_exprs_at(s1: TokenStream, s2: TokenStream, n: int, delim: SpecToken, i: int)
    requires
        same_upto(s1, s2, n),
        0 <= i <= n,
    ensures
        agree(n, i, exprs_at(s1, delim, i), exprs_at(s2, delim, i)),
    decreases (s1.rank)(i), 6nat,
{
    assert(s1.at(i) == s2.at(i));
    if s1.at(i) != Some(delim) {
        local_exprs_loop(s1, s2, n, delim, seq![], i);
    }
}

pub proof fn local_exprs_loop(
    s1: TokenStream,
    s2: TokenStream,
    n: int,
    delim: SpecToken,
    acc: Seq<SpecExpr>,
    i: int,
)
    requires
        same_upto(s1, s2, n),
        0 <= i <= n,
    ensures
        agree(n, i, exprs_loop(s1, delim, acc, i), exprs_loop(s2, delim, acc, i)),
    decreases (s1.rank)(i), 5nat,
{
    reveal(expect_at);
    reveal(ident_at);
    local_expr_at(s1, s2, n, i);
    if let (Ok(e), j) = expr_at(s1, i) {
        let acc2 = acc.push(e);
        assert(s1.at(j) == s2.at(j));
        if s1.at(j) != Some(delim) {
            if let (Ok(_), k) = expect_at(s1, SpecToken::Comma, "expected ','"@, j) {
                if s1.beyond(i, k) {
                    local_exprs_loop(s1, s2, n, delim, acc2, k);
                }
            }
        }
    }
}

pub proof fn local_block_at(s1: TokenStream, s2: TokenStream, n: int, i: int)
    requires
        same_upto(s1, s2, n),
        0 <= i <= n,
    ensures
        agree(n, i, block_at(s1, i), block_at(s2, i)),
    decreases (s1.rank)(i), 0nat,
{
    reveal(expect_at);
    reveal(ident_at);
    if let (Ok(_), j) = expect_at(s1, SpecToken::LCurl, "expected '{'"@, i) {
        local_block_loop(s1, s2, n, seq![], j);
    }
}

pub proof fn local_block_loop(s1: TokenStream, s2: TokenStream, n: int, acc: Seq<SpecStmt>, i: int)
    requires
        same_upto(s1, s2, n),
        0 <= i <= n,
    ensures
        agree(n, i, block_loop(s1, acc, i), block_loop(s2, acc, i)),
    decreases (s1.rank)(i), 6nat,
{
    assert(s1.at(i) == s2.at(i));
    match s1.at(i) {
        Some(SpecToken::RCurl) => {},
        None => {},
        Some(_) => {
            local_stmt_at(s1, s2, n, i);
            if let (Ok(st), j) = stmt_at(s1, i) {
                if s1.beyond(i, j) {
                    local_block_loop(s1, s2, n, acc.push(st), j);
                }
            }
        },
    }
}

pub proof fn local_program_loop(s1: TokenStream, s2: TokenStream, n: int, acc: Seq<SpecStmt>, i: int)
    requires
        same_upto(s1, s2, n),
        0 <= i <= n,
    ensures
        agree(n, i, program_loop(s1, acc, i), program_loop(s2, acc, i)),
    decreases (s1.rank)(i),
{
    assert(s1.at(i) == s2.at(i));
    if s1.at(i) is Some {
        local_stmt_at(s1, s2, n, i);
        if let (Ok(st), j) = stmt_at(s1, i) {
            if s1.beyond(i, j) {
                local_program_loop(s1, s2, n, acc.push(st), j);
            }
        }
    }
}

} // verus!
