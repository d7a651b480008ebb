use lib::ast::{BinOps, Expr, Field, Program, Stmt};
use lib::parser::{ParseErr, Parser};
use lib::token::Token;

fn parse(src: &str) -> Program {
    Parser::new(src).parse().unwrap()
}

fn expr(src: &str) -> Expr {
    match parse(src).stmts.remove(0) {
        Stmt::Expr(e) => e,
        s => panic!("expected expr stmt, got {s:?}"),
    }
}

/// A number literal: its text, checked to read as `value`.
fn num(text: &str, value: f64) -> Expr {
    assert_eq!(text.parse::<f64>().unwrap(), value);
    Expr::Number(text.into())
}

fn bin(op: BinOps, lhs: Expr, rhs: Expr) -> Expr {
    Expr::BinOp { op, lhs: Box::new(lhs), rhs: Box::new(rhs) }
}

#[test]
fn parse_number() {
    assert_eq!(expr("1"), num("1", 1.0));
}

#[test]
fn parse_string() {
    assert_eq!(expr(r#""hi""#), Expr::String("hi".into()));
}

#[test]
fn parse_ident() {
    assert_eq!(expr("x"), Expr::Ident("x".into()));
}

#[test]
fn parse_binop_add() {
    assert_eq!(expr("1 + 2"), Expr::BinOp {
        op: BinOps::Add,
        lhs: Box::new(num("1", 1.0)),
        rhs: Box::new(num("2", 2.0)),
    });
}

#[test]
fn parse_binop_precedence() {
    assert_eq!(expr("1 + 2 * 3"), Expr::BinOp {
        op: BinOps::Add,
        lhs: Box::new(num("1", 1.0)),
        rhs: Box::new(Expr::BinOp {
            op: BinOps::Mul,
            lhs: Box::new(num("2", 2.0)),
            rhs: Box::new(num("3", 3.0)),
        }),
    });
}

#[test]
fn parse_grouped() {
    assert_eq!(expr("(1 + 2) * 3"), Expr::BinOp {
        op: BinOps::Mul,
        lhs: Box::new(Expr::BinOp {
            op: BinOps::Add,
            lhs: Box::new(num("1", 1.0)),
            rhs: Box::new(num("2", 2.0)),
        }),
        rhs: Box::new(num("3", 3.0)),
    });
}

#[test]
fn parse_comparison() {
    assert_eq!(expr("a == b"), Expr::BinOp {
        op: BinOps::EqEq,
        lhs: Box::new(Expr::Ident("a".into())),
        rhs: Box::new(Expr::Ident("b".into())),
    });
}

#[test]
fn parse_list() {
    assert_eq!(expr("[1, 2, 3]"), Expr::List(vec![
        num("1", 1.0), num("2", 2.0), num("3", 3.0),
    ]));
}

#[test]
fn parse_call_no_args() {
    assert_eq!(expr("foo()"), Expr::Call { callee: "foo".into(), args: vec![] });
}

#[test]
fn parse_call_args() {
    assert_eq!(expr("foo(1, 2)"), Expr::Call {
        callee: "foo".into(),
        args: vec![num("1", 1.0), num("2", 2.0)],
    });
}

#[test]
fn parse_field_access() {
    assert_eq!(expr("a.b"), Expr::FieldAccess {
        receiver: Box::new(Expr::Ident("a".into())),
        field: "b".into(),
    });
}

#[test]
fn parse_field_access_chain() {
    assert_eq!(expr("a.b.c"), Expr::FieldAccess {
        receiver: Box::new(Expr::FieldAccess {
            receiver: Box::new(Expr::Ident("a".into())),
            field: "b".into(),
        }),
        field: "c".into(),
    });
}

#[test]
fn parse_let() {
    assert_eq!(parse("let x = 1").stmts, vec![Stmt::Let {
        name: "x".into(),
        value: num("1", 1.0),
    }]);
}

#[test]
fn parse_fn_no_params() {
    assert_eq!(parse("fn f() {}").stmts, vec![Stmt::FnDecl {
        name: "f".into(),
        params: vec![],
        body: vec![],
    }]);
}

#[test]
fn parse_fn_with_body() {
    assert_eq!(parse("fn f() { let x = 1 }").stmts, vec![Stmt::FnDecl {
        name: "f".into(),
        params: vec![],
        body: vec![Stmt::Let { name: "x".into(), value: num("1", 1.0) }],
    }]);
}

#[test]
fn parse_struct_empty() {
    assert_eq!(parse("struct A {}").stmts, vec![Stmt::Struct {
        name: "A".into(),
        fields: vec![],
    }]);
}

#[test]
fn parse_struct_fields() {
    assert_eq!(parse("struct A { x: int, y: int }").stmts, vec![Stmt::Struct {
        name: "A".into(),
        fields: vec![
            Field { name: "x".into(), ty: "int".into() },
            Field { name: "y".into(), ty: "int".into() },
        ],
    }]);
}

#[test]
fn parse_if_no_else() {
    assert_eq!(expr("if x { let y = 1 }"), Expr::If {
        cond: Box::new(Expr::Ident("x".into())),
        then: vec![Stmt::Let { name: "y".into(), value: num("1", 1.0) }],
        else_: None,
    });
}

#[test]
fn parse_if_else() {
    assert_eq!(expr("if x { let y = 1 } else { let y = 2 }"), Expr::If {
        cond: Box::new(Expr::Ident("x".into())),
        then: vec![Stmt::Let { name: "y".into(), value: num("1", 1.0) }],
        else_: Some(vec![Stmt::Let { name: "y".into(), value: num("2", 2.0) }]),
    });
}

#[test]
fn parse_if_as_value() {
    assert_eq!(parse("let x = if a { let y = 1 } else { let y = 2 }").stmts, vec![
        Stmt::Let {
            name: "x".into(),
            value: Expr::If {
                cond: Box::new(Expr::Ident("a".into())),
                then: vec![Stmt::Let { name: "y".into(), value: num("1", 1.0) }],
                else_: Some(vec![Stmt::Let { name: "y".into(), value: num("2", 2.0) }]),
            },
        }
    ]);
}

#[test]
fn parse_struct_trailing_comma() {
    assert!(Parser::new("struct A { x: int, }").parse().is_ok());
}

#[test]
fn parse_unexpected_eof() {
    assert!(matches!(Parser::new("let x =").parse(), Err(ParseErr::UnexpectedEof)));
}

#[test]
fn parse_unexpected_token() {
    assert!(matches!(Parser::new("let 123").parse(), Err(ParseErr::UnexpectedToken(_))));
}

// ---------------------------------------------------------------------------
// Further cases
// ---------------------------------------------------------------------------

#[test]
fn additive_groups_to_the_left() {
    assert_eq!(expr("1 - 2 + 3"), bin(
        BinOps::Add,
        bin(BinOps::Sub, num("1", 1.0), num("2", 2.0)),
        num("3", 3.0),
    ));
}

#[test]
fn multiplicative_groups_to_the_left() {
    assert_eq!(expr("8 / 4 * 2"), bin(
        BinOps::Mul,
        bin(BinOps::Div, num("8", 8.0), num("4", 4.0)),
        num("2", 2.0),
    ));
}

#[test]
fn comparison_takes_additive_on_its_left() {
    assert_eq!(expr("a + b < c"), bin(
        BinOps::Lt,
        bin(BinOps::Add, Expr::Ident("a".into()), Expr::Ident("b".into())),
        Expr::Ident("c".into()),
    ));
}

#[test]
fn comparison_takes_a_term_on_its_right() {
    // The right operand of a comparison is a term, so `+ c` starts a new
    // statement, which cannot begin with `+`.
    match Parser::new("a < b + c").parse() {
        Err(ParseErr::UnexpectedToken(t)) => assert_eq!(t, Token::Plus),
        other => panic!("unexpected result {other:?}"),
    }
}

#[test]
fn all_comparison_operators() {
    for (src, op) in [
        ("a < b", BinOps::Lt),
        ("a > b", BinOps::Gt),
        ("a <= b", BinOps::LtEq),
        ("a >= b", BinOps::GtEq),
        ("a == b", BinOps::EqEq),
        ("a != b", BinOps::NotEq),
    ] {
        assert_eq!(expr(src), bin(op, Expr::Ident("a".into()), Expr::Ident("b".into())));
    }
}

#[test]
fn several_statements() {
    assert_eq!(parse("1 2 let z = x").stmts, vec![
        Stmt::Expr(num("1", 1.0)),
        Stmt::Expr(num("2", 2.0)),
        Stmt::Let { name: "z".into(), value: Expr::Ident("x".into()) },
    ]);
}

#[test]
fn empty_source_is_an_empty_program() {
    assert_eq!(parse("").stmts, vec![]);
    assert_eq!(parse("  \n ").stmts, vec![]);
}

#[test]
fn missing_close_paren() {
    match Parser::new("(1 2").parse() {
        Err(ParseErr::Unexpected { expected, found, msg }) => {
            assert_eq!(expected, Token::RParen);
            assert_eq!(found, Token::Number("2".into()));
            assert_eq!(msg, "expected ')'");
        }
        other => panic!("unexpected result {other:?}"),
    }
    assert!(matches!(Parser::new("(1").parse(), Err(ParseErr::UnexpectedEof)));
}

/// The value of the one `let` statement of `src`.
fn let_value(src: &str) -> Expr {
    match parse(src).stmts.remove(0) {
        Stmt::Let { value, .. } => value,
        s => panic!("expected let stmt, got {s:?}"),
    }
}

#[test]
fn lambda_with_params() {
    assert_eq!(let_value("let f = fn(a, b) { a + b }"), Expr::Lambda {
        params: Some(vec![Expr::Ident("a".into()), Expr::Ident("b".into())]),
        value: Box::new(bin(BinOps::Add, Expr::Ident("a".into()), Expr::Ident("b".into()))),
    });
}

#[test]
fn fn_at_the_start_of_a_statement_is_a_declaration() {
    assert!(matches!(Parser::new("fn(a) { a }").parse(), Err(ParseErr::UnexpectedToken(Token::LParen))));
}

#[test]
fn lambda_without_params_takes_a_second_close_paren() {
    assert_eq!(let_value("let f = fn()) { 1 }"), Expr::Lambda { params: None, value: Box::new(num("1", 1.0)) });
    match Parser::new("let f = fn() { 1 }").parse() {
        Err(ParseErr::Unexpected { expected, found, msg }) => {
            assert_eq!(expected, Token::RParen);
            assert_eq!(found, Token::LCurl);
            assert_eq!(msg, "expected ')' after params");
        }
        other => panic!("unexpected result {other:?}"),
    }
}

#[test]
fn lambda_in_let_with_if_body() {
    let program = parse("let x = fn(a) { if a == 1 { a } else { 2 } }");
    assert_eq!(program.stmts, vec![Stmt::Let {
        name: "x".into(),
        value: Expr::Lambda {
            params: Some(vec![Expr::Ident("a".into())]),
            value: Box::new(Expr::If {
                cond: Box::new(bin(BinOps::EqEq, Expr::Ident("a".into()), num("1", 1.0))),
                then: vec![Stmt::Expr(Expr::Ident("a".into()))],
                else_: Some(vec![Stmt::Expr(num("2", 2.0))]),
            }),
        },
    }]);
}

#[test]
fn fn_decl_with_params() {
    assert_eq!(parse("fn add(a, b) { a + b }").stmts, vec![Stmt::FnDecl {
        name: "add".into(),
        params: vec![Expr::Ident("a".into()), Expr::Ident("b".into())],
        body: vec![Stmt::Expr(bin(BinOps::Add, Expr::Ident("a".into()), Expr::Ident("b".into())))],
    }]);
}

#[test]
fn unclosed_block_is_eof() {
    assert!(matches!(Parser::new("fn f() { let x = 1").parse(), Err(ParseErr::UnexpectedEof)));
    assert!(matches!(Parser::new("if x {").parse(), Err(ParseErr::UnexpectedEof)));
}

#[test]
fn struct_field_errors() {
    match Parser::new("struct A { x int }").parse() {
        Err(ParseErr::Unexpected { expected, found, msg }) => {
            assert_eq!(expected, Token::Colon);
            assert_eq!(found, Token::Ident("int".into()));
            assert_eq!(msg, "expected ':' after field name");
        }
        other => panic!("unexpected result {other:?}"),
    }
    match Parser::new("struct A { x: int y: int }").parse() {
        Err(ParseErr::Unexpected { expected, found, msg }) => {
            assert_eq!(expected, Token::Comma);
            assert_eq!(found, Token::Ident("y".into()));
            assert_eq!(msg, "expected ','");
        }
        other => panic!("unexpected result {other:?}"),
    }
    assert!(matches!(Parser::new("struct 1").parse(), Err(ParseErr::UnexpectedToken(_))));
}

#[test]
fn list_needs_commas() {
    match Parser::new("[1 2]").parse() {
        Err(ParseErr::Unexpected { expected, found, msg }) => {
            assert_eq!(expected, Token::Comma);
            assert_eq!(found, Token::Number("2".into()));
            assert_eq!(msg, "expected ','");
        }
        other => panic!("unexpected result {other:?}"),
    }
}

#[test]
fn a_lone_bang_ends_the_program() {
    assert_eq!(parse("1 ! 2").stmts, vec![Stmt::Expr(num("1", 1.0))]);
    assert!(matches!(Parser::new("let x = ! 5").parse(), Err(ParseErr::UnexpectedEof)));
}

#[test]
fn field_access_binds_before_multiplication() {
    assert_eq!(expr("a.b * c"), bin(
        BinOps::Mul,
        Expr::FieldAccess { receiver: Box::new(Expr::Ident("a".into())), field: "b".into() },
        Expr::Ident("c".into()),
    ));
}

#[test]
fn field_access_needs_an_ident() {
    assert!(matches!(Parser::new("a.1").parse(), Err(ParseErr::UnexpectedToken(_))));
}

#[test]
fn nested_lists_and_calls() {
    assert_eq!(expr("f([1], g())"), Expr::Call {
        callee: "f".into(),
        args: vec![
            Expr::List(vec![num("1", 1.0)]),
            Expr::Call { callee: "g".into(), args: vec![] },
        ],
    });
}

fn parse_result(src: &str) -> String {
    format!("{:?}", Parser::new(src).parse())
}

#[test]
fn same_tokens_parse_alike() {
    assert_eq!(parse_result("let x = a+b"), parse_result("let   x=a + b"));
    assert_eq!(parse_result("let x ="), parse_result("let\nx\t="));
    assert_eq!(parse_result("1 @ 2"), parse_result("1 @ 3"));
    assert_eq!(parse("1 @ 2"), Program { stmts: vec![Stmt::Expr(num("1", 1.0))] });
}

#[test]
fn multiplicative_binds_tighter_for_any_operands() {
    let field = Expr::FieldAccess { receiver: Box::new(Expr::Ident("x".into())), field: "y".into() };
    let call = Expr::Call { callee: "f".into(), args: vec![num("1", 1.0)] };
    let list = Expr::List(vec![num("2", 2.0)]);
    assert_eq!(expr("x.y + f(1) * [2]"), bin(BinOps::Add, field, bin(BinOps::Mul, call, list)));
}

#[test]
fn additive_groups_left_for_any_terms() {
    let a = || Expr::Ident("a".into());
    assert_eq!(
        expr("a * a - (a) + a / a"),
        bin(
            BinOps::Add,
            bin(BinOps::Sub, bin(BinOps::Mul, a(), a()), a()),
            bin(BinOps::Div, a(), a()),
        ),
    );
}

#[test]
fn fn_decl_params_are_names() {
    assert!(matches!(
        Parser::new("fn f(1) {}").parse(),
        Err(ParseErr::UnexpectedToken(Token::Number(ref n))) if n == "1"
    ));
    assert!(matches!(
        Parser::new("fn f(a + b) {}").parse(),
        Err(ParseErr::Unexpected { expected: Token::Comma, found: Token::Plus, .. })
    ));
    assert!(matches!(Parser::new("fn f(a,) {}").parse(), Err(ParseErr::UnexpectedToken(Token::RParen))));
    assert!(matches!(Parser::new("fn f(a").parse(), Err(ParseErr::UnexpectedEof)));
}
