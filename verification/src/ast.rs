//! The syntax tree that the parser builds, and its mathematical model.

use vstd::prelude::*;

verus! {

/// A binary operator.
#[derive(Debug, PartialEq, Eq, Structural, Clone, Copy)]
pub enum BinOps {
    Add,
    Sub,
    Mul,
    Div,
    Lt,
    Gt,
    LtEq,
    GtEq,
    EqEq,
    NotEq,
}

/// An expression. A number literal keeps the text it was written with.
#[derive(Debug, PartialEq)]
pub enum Expr {
    Number(String),
    String(String),
    Ident(String),
    List(Vec<Expr>),
    BinOp { op: BinOps, lhs: Box<Expr>, rhs: Box<Expr> },
    Call { callee: String, args: Vec<Expr> },
    FieldAccess { receiver: Box<Expr>, field: String },
    If { cond: Box<Expr>, then: Vec<Stmt>, else_: Option<Vec<Stmt>> },
    Lambda { params: Option<Vec<Expr>>, value: Box<Expr> },
}

/// A field of a struct declaration: its name and the name of its type.
#[derive(Debug, PartialEq)]
pub struct Field {
    pub name: String,
    pub ty: String,
}

/// A statement.
#[derive(Debug, PartialEq)]
pub enum Stmt {
    Expr(Expr),
    Let { name: String, value: Expr },
    FnDecl { name: String, params: Vec<Expr>, body: Vec<Stmt> },
    Struct { name: String, fields: Vec<Field> },
}

/// A whole program: its statements in order.
#[derive(Debug, PartialEq)]
pub struct Program {
    pub stmts: Vec<Stmt>,
}

/// The model of an expression: text is a sequence of characters, lists are
/// sequences.
pub enum SpecExpr {
    Number(Seq<char>),
    String(Seq<char>),
    Ident(Seq<char>),
    List(Seq<SpecExpr>),
    BinOp { op: BinOps, lhs: Box<SpecExpr>, rhs: Box<SpecExpr> },
    Call { callee: Seq<char>, args: Seq<SpecExpr> },
    FieldAccess { receiver: Box<SpecExpr>, field: Seq<char> },
    If { cond: Box<SpecExpr>, then: Seq<SpecStmt>, else_: Option<Seq<SpecStmt>> },
    Lambda { params: Option<Seq<SpecExpr>>, value: Box<SpecExpr> },
}

/// The model of a struct field.
pub struct SpecField {
    pub name: Seq<char>,
    pub ty: Seq<char>,
}

/// The model of a statement.
pub enum SpecStmt {
    Expr(SpecExpr),
    Let { name: Seq<char>, value: SpecExpr },
    FnDecl { name: Seq<char>, params: Seq<SpecExpr>, body: Seq<SpecStmt> },
    Struct { name: Seq<char>, fields: Seq<SpecField> },
}

/// The model of an expression.
pub open spec fn expr_view(e: Expr) -> SpecExpr
    decreases e,
{
    match e {
        Expr::Number(s) => SpecExpr::Number(s@),
        Expr::String(s) => SpecExpr::String(s@),
        Expr::Ident(s) => SpecExpr::Ident(s@),
        Expr::List(v) => SpecExpr::List(exprs_view(v@)),
        Expr::BinOp { op, lhs, rhs } => SpecExpr::BinOp {
            op,
            lhs: Box::new(expr_view(*lhs)),
            rhs: Box::new(expr_view(*rhs)),
        },
        Expr::Call { callee, args } => SpecExpr::Call { callee: callee@, args: exprs_view(args@) },
        Expr::FieldAccess { receiver, field } => SpecExpr::FieldAccess {
            receiver: Box::new(expr_view(*receiver)),
            field: field@,
        },
        Expr::If { cond, then, else_ } => SpecExpr::If {
            cond: Box::new(expr_view(*cond)),
            then: stmts_view(then@),
            else_: match else_ {
                Some(v) => Some(stmts_view(v@)),
                None => None,
            },
        },
        Expr::Lambda { params, value } => SpecExpr::Lambda {
            params: match params {
                Some(v) => Some(exprs_view(v@)),
                None => None,
            },
            value: Box::new(expr_view(*value)),
        },
    }
}

/// The models of a sequence of expressions.
pub open spec fn exprs_view(s: Seq<Expr>) -> Seq<SpecExpr>
    decreases s,
{
    if s.len() == 0 {
        seq![]
    } else {
        exprs_view(s.drop_last()).push(expr_view(s.last()))
    }
}

/// The model of a statement.
pub open spec fn stmt_view(s: Stmt) -> SpecStmt
    decreases s,
{
    match s {
        Stmt::Expr(e) => SpecStmt::Expr(expr_view(e)),
        Stmt::Let { name, value } => SpecStmt::Let { name: name@, value: expr_view(value) },
        Stmt::FnDecl { name, params, body } => SpecStmt::FnDecl {
            name: name@,
            params: exprs_view(params@),
            body: stmts_view(body@),
        },
        Stmt::Struct { name, fields } => SpecStmt::Struct {
            name: name@,
            fields: fields_view(fields@),
        },
    }
}

/// The models of a sequence of statements.
pub open spec fn stmts_view(s: Seq<Stmt>) -> Seq<SpecStmt>
    decreases s,
{
    if s.len() == 0 {
        seq![]
    } else {
        stmts_view(s.drop_last()).push(stmt_view(s.last()))
    }
}

/// The models of a sequence of struct fields.
pub open spec fn fields_view(s: Seq<Field>) -> Seq<SpecField> {
    s.map_values(|f: Field| f@)
}

/// Viewing a sequence with one more element at the end.
pub proof fn lemma_exprs_view_push(s: Seq<Expr>, e: Expr)
    ensures
        exprs_view(s.push(e)) == exprs_view(s).push(expr_view(e)),
{
    assert(s.push(e).drop_last() =~= s);
}

/// Viewing a sequence with one more element at the end.
pub proof fn lemma_stmts_view_push(s: Seq<Stmt>, st: Stmt)
    ensures
        stmts_view(s.push(st)) == stmts_view(s).push(stmt_view(st)),
{
    assert(s.push(st).drop_last() =~= s);
}

/// Viewing a sequence with one more element at the end.
pub proof fn lemma_fields_view_push(s: Seq<Field>, f: Field)
    ensures
        fields_view(s.push(f)) == fields_view(s).push(f@),
{
    assert(fields_view(s.push(f)) =~= fields_view(s).push(f@));
}

impl View for Expr {
    type V = SpecExpr;

    open spec fn view(&self) -> SpecExpr {
        expr_view(*self)
    }
}

impl View for Stmt {
    type V = SpecStmt;

    open spec fn view(&self) -> SpecStmt {
        stmt_view(*self)
    }
}

impl View for Field {
    type V = SpecField;

    open spec fn view(&self) -> SpecField {
        SpecField { name: self.name@, ty: self.ty@ }
    }
}

impl View for Program {
    type V = Seq<SpecStmt>;

    open spec fn view(&self) -> Seq<SpecStmt> {
        stmts_view(self.stmts@)
    }
}

} // verus!
