//! The syntax tree: five node shapes, each node owning its children.

use vstd::prelude::*;
use crate::literal::{Decimal, Numeral};

verus! {

/// The mathematical syntax tree, over numerals.
pub enum Ast {
    Number(Numeral),
    Add(Box<Ast>, Box<Ast>),
    Sub(Box<Ast>, Box<Ast>),
    Mul(Box<Ast>, Box<Ast>),
    Div(Box<Ast>, Box<Ast>),
    Neg(Box<Ast>),
}

impl Ast {
    /// Every numeral in the tree is canonical.
    pub open spec fn canonical(self) -> bool
        decreases self,
    {
        match self {
            Ast::Number(n) => n.canonical(),
            Ast::Add(l, r) | Ast::Sub(l, r) | Ast::Mul(l, r) | Ast::Div(l, r) => l.canonical()
                && r.canonical(),
            Ast::Neg(e) => e.canonical(),
        }
    }
}

/// Abstract syntax tree of an arithmetic expression.
#[derive(Debug, PartialEq, Eq)]
pub enum Expr {
    Number(Decimal),
    Add(Box<Expr>, Box<Expr>),
    Sub(Box<Expr>, Box<Expr>),
    Mul(Box<Expr>, Box<Expr>),
    Div(Box<Expr>, Box<Expr>),
    Neg(Box<Expr>),
}

impl Expr {
    /// The mathematical tree that this tree stands for.
    pub open spec fn ast(&self) -> Ast
        decreases self,
    {
        match self {
            Expr::Number(d) => Ast::Number(d@),
            Expr::Add(l, r) => Ast::Add(Box::new(l.ast()), Box::new(r.ast())),
            Expr::Sub(l, r) => Ast::Sub(Box::new(l.ast()), Box::new(r.ast())),
            Expr::Mul(l, r) => Ast::Mul(Box::new(l.ast()), Box::new(r.ast())),
            Expr::Div(l, r) => Ast::Div(Box::new(l.ast()), Box::new(r.ast())),
            Expr::Neg(e) => Ast::Neg(Box::new(e.ast())),
        }
    }
}

impl Clone for Expr {
    fn clone(&self) -> (copy: Expr)
        ensures
            copy@ == self@,
        decreases self,
    {
        match self {
            Expr::Number(d) => Expr::Number(d.clone()),
            Expr::Add(l, r) => Expr::Add(Box::new((**l).clone()), Box::new((**r).clone())),
            Expr::Sub(l, r) => Expr::Sub(Box::new((**l).clone()), Box::new((**r).clone())),
            Expr::Mul(l, r) => Expr::Mul(Box::new((**l).clone()), Box::new((**r).clone())),
            Expr::Div(l, r) => Expr::Div(Box::new((**l).clone()), Box::new((**r).clone())),
            Expr::Neg(e) => Expr::Neg(Box::new((**e).clone())),
        }
    }
}

impl View for Expr {
    type V = Ast;

    open spec fn view(&self) -> Ast {
        self.ast()
    }
}

} // verus!
