use vstd::prelude::*;

verus! {

/// Binary combinators and comparisons of the expression language.
#[derive(Clone, Copy, Debug, PartialEq, Eq, Structural)]
pub enum BinOp {
    And,
    Or,
    Eq,
    Ne,
    Lt,
    Le,
    Gt,
    Ge,
}

/// A policy expression: a closed tree over literals and attribute names.
#[derive(Debug, PartialEq, Eq)]
pub enum Expr {
    Bool(bool),
    Int(i64),
    Str(String),
    Ident(String),
    Not(Box<Expr>),
    Binary(BinOp, Box<Expr>, Box<Expr>),
}

/// The mathematical value of an expression.
pub enum ExprV {
    Bool(bool),
    Int(int),
    Str(Seq<char>),
    Ident(Seq<char>),
    Not(Box<ExprV>),
    Binary(BinOp, Box<ExprV>, Box<ExprV>),
}

pub open spec fn expr_view(e: &Expr) -> ExprV
    decreases e,
{
    match e {
        Expr::Bool(b) => ExprV::Bool(*b),
        Expr::Int(n) => ExprV::Int(*n as int),
        Expr::Str(s) => ExprV::Str(s@),
        Expr::Ident(s) => ExprV::Ident(s@),
        Expr::Not(a) => ExprV::Not(Box::new(expr_view(a))),
        Expr::Binary(op, a, b) => ExprV::Binary(*op, Box::new(expr_view(a)), Box::new(expr_view(b))),
    }
}

impl View for Expr {
    type V = ExprV;

    open spec fn view(&self) -> ExprV {
        expr_view(self)
    }
}

/// Values that a machine expression can hold: integers within `i64`, texts
/// whose length fits a 64-bit count.
pub open spec fn fits(e: ExprV) -> bool
    decreases e,
{
    match e {
        ExprV::Bool(_) => true,
        ExprV::Int(n) => i64::MIN <= n <= i64::MAX,
        ExprV::Str(s) => s.len() <= u64::MAX,
        ExprV::Ident(s) => s.len() <= u64::MAX,
        ExprV::Not(a) => fits(*a),
        ExprV::Binary(_, a, b) => fits(*a) && fits(*b),
    }
}

} // verus!
