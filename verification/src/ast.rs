use vstd::prelude::*;
use crate::ops::{BinOp, RelOp};
use crate::value::{Type, Value};

verus! {

/// An expression of the source language.
#[derive(Debug)]
pub enum Expr {
    Value(Value),
    Variable(usize),
    Assign(usize, Type, Box<Expr>),
    Binary(Box<Expr>, BinOp, Box<Expr>),
    Logical(Box<Expr>, RelOp, Box<Expr>),
    Grouping(Box<Expr>),
    CastAs(Box<Expr>, Type),
    Call(Box<Expr>, Vec<Expr>),
}

/// A statement of the source language.
#[derive(Debug)]
pub enum Stmt {
    Block(Vec<Stmt>),
    If(Box<Expr>, Box<Stmt>, Option<Box<Stmt>>),
    While(Box<Expr>, Box<Stmt>),
    Expression(Box<Expr>),
    Print(Vec<Expr>),
    Return(Option<Box<Expr>>),
    Function(usize, Vec<(usize, Type)>, Type, Vec<Stmt>),
}

/// An expression as a mathematical value.
pub enum ExprView {
    Value(Value),
    Variable(usize),
    Assign(usize, Type, Box<ExprView>),
    Binary(Box<ExprView>, BinOp, Box<ExprView>),
    Logical(Box<ExprView>, RelOp, Box<ExprView>),
    Grouping(Box<ExprView>),
    CastAs(Box<ExprView>, Type),
    Call(Box<ExprView>, Seq<ExprView>),
}

/// A statement as a mathematical value.
pub enum StmtView {
    Block(Seq<StmtView>),
    If(Box<ExprView>, Box<StmtView>, Option<Box<StmtView>>),
    While(Box<ExprView>, Box<StmtView>),
    Expression(Box<ExprView>),
    Print(Seq<ExprView>),
    Return(Option<Box<ExprView>>),
    Function(usize, Seq<(usize, Type)>, Type, Seq<StmtView>),
}

pub open spec fn expr_view(e: Expr) -> ExprView
    decreases e, 0nat,
{
    match e {
        Expr::Value(v) => ExprView::Value(v),
        Expr::Variable(n) => ExprView::Variable(n),
        Expr::Assign(n, t, b) => ExprView::Assign(n, t, Box::new(expr_view(*b))),
        Expr::Binary(l, o, r) => ExprView::Binary(Box::new(expr_view(*l)), o, Box::new(expr_view(*r))),
        Expr::Logical(l, o, r) => ExprView::Logical(Box::new(expr_view(*l)), o, Box::new(expr_view(*r))),
        Expr::Grouping(b) => ExprView::Grouping(Box::new(expr_view(*b))),
        Expr::CastAs(b, t) => ExprView::CastAs(Box::new(expr_view(*b)), t),
        Expr::Call(c, args) => ExprView::Call(Box::new(expr_view(*c)), exprs_view(args@)),
    }
}

pub open spec fn exprs_view(es: Seq<Expr>) -> Seq<ExprView>
    decreases es, 1nat,
{
    if es.len() == 0 {
        Seq::empty()
    } else {
        exprs_view(es.drop_last()).push(expr_view(es.last()))
    }
}

pub open spec fn stmt_view(s: Stmt) -> StmtView
    decreases s, 0nat,
{
    match s {
        Stmt::Block(ss) => StmtView::Block(stmts_view(ss@)),
        Stmt::If(c, b, o) => StmtView::If(Box::new(expr_view(*c)), Box::new(stmt_view(*b)), match o {
            Some(x) => Some(Box::new(stmt_view(*x))),
            None => None,
        }),
        Stmt::While(c, b) => StmtView::While(Box::new(expr_view(*c)), Box::new(stmt_view(*b))),
        Stmt::Expression(e) => StmtView::Expression(Box::new(expr_view(*e))),
        Stmt::Print(args) => StmtView::Print(exprs_view(args@)),
        Stmt::Return(o) => StmtView::Return(match o {
            Some(e) => Some(Box::new(expr_view(*e))),
            None => None,
        }),
        Stmt::Function(n, args, t, body) => StmtView::Function(n, args@, t, stmts_view(body@)),
    }
}

pub open spec fn stmts_view(ss: Seq<Stmt>) -> Seq<StmtView>
    decreases ss, 1nat,
{
    if ss.len() == 0 {
        Seq::empty()
    } else {
        stmts_view(ss.drop_last()).push(stmt_view(ss.last()))
    }
}

/// The views of a list after a push.
pub broadcast proof fn lemma_exprs_view_push(es: Seq<Expr>, e: Expr)
    ensures
        #[trigger] exprs_view(es.push(e)) == exprs_view(es).push(expr_view(e)),
{
    assert(es.push(e).drop_last() =~= es);
}

/// The views of a list after a push.
pub broadcast proof fn lemma_stmts_view_push(ss: Seq<Stmt>, s: Stmt)
    ensures
        #[trigger] stmts_view(ss.push(s)) == stmts_view(ss).push(stmt_view(s)),
{
    assert(ss.push(s).drop_last() =~= ss);
}

} // verus!
