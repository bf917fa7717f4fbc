//! Expressions.  A node borrows its children and its tokens, so a tree is
//! never changed once built, and no node has two parents.

use crate::literal::Literal;
use crate::token::Token;
use vstd::prelude::*;

verus! {

pub enum Expr<'a> {
    Assign { name: &'a Token, value: &'a Expr<'a> },
    Binary { left: &'a Expr<'a>, operator: &'a Token, right: &'a Expr<'a> },
    Grouping { expression: &'a Expr<'a> },
    Literal(&'a Literal),
    Unary { operator: &'a Token, right: &'a Expr<'a> },
    Variable(&'a Token),
}

/// Something that walks expressions, handing back an `R` for each.  What
/// it promises of the `R` it hands back, it says in `visits`.
pub trait Visitor<R> {
    spec fn visits(&self, expr: Expr, result: R) -> bool;

    fn visit_expr(&mut self, expr: &Expr) -> (result: R)
        ensures
            old(self).visits(*expr, result),
    ;
}

} // verus!
