//! A printer that shows an expression in prefix notation, every operation
//! in its own parentheses, for inspection.
//!
//! The text comes in fragments: a numeral is handed over as it was written,
//! for the host to render as a number.

use crate::expr::{Expr, Visitor};
use crate::literal::{Fragment, FragmentModel};
use vstd::prelude::*;
use vstd::string::*;

verus! {

pub struct AstPrinter;

pub open spec fn text(text: Seq<char>) -> Seq<FragmentModel> {
    seq![FragmentModel::Text(text)]
}

/// The parts one after another, a space in front of each.
pub open spec fn spaced(parts: Seq<Seq<FragmentModel>>) -> Seq<FragmentModel>
    decreases parts.len(),
{
    if parts.len() == 0 {
        Seq::empty()
    } else {
        spaced(parts.drop_last()) + text(" "@) + parts.last()
    }
}

/// A name and parts in one pair of parentheses.
pub open spec fn parenthesized(name: Seq<char>, parts: Seq<Seq<FragmentModel>>) -> Seq<
    FragmentModel,
> {
    text("("@ + name) + spaced(parts) + text(")"@)
}

/// An expression in prefix notation.  An operation shows as its operator
/// and its operands, a group as `group` and what it holds, an assignment as
/// `=`, the name and the value; a variable shows as its name, and a literal
/// as it reads wherever a token or a tree is shown, the absent value as
/// `null`.
pub open spec fn rendered(expression: Expr) -> Seq<FragmentModel>
    decreases expression,
{
    match expression {
        Expr::Binary { left, operator, right } => parenthesized(
            operator.lexeme@,
            seq![rendered(*left), rendered(*right)],
        ),
        Expr::Grouping { expression } => parenthesized("group"@, seq![rendered(*expression)]),
        Expr::Literal(value) => seq![value@.fragment()],
        Expr::Unary { operator, right } => parenthesized(operator.lexeme@, seq![rendered(*right)]),
        Expr::Variable(name) => text(name.lexeme@),
        Expr::Assign { name, value } => parenthesized(
            "= "@ + name.lexeme@,
            seq![rendered(*value)],
        ),
    }
}

pub open spec fn fragment_models(fragments: Seq<Fragment>) -> Seq<FragmentModel> {
    fragments.map_values(|fragment: Fragment| fragment@)
}

pub open spec fn part_models(parts: Seq<Vec<Fragment>>) -> Seq<Seq<FragmentModel>> {
    parts.map_values(|part: Vec<Fragment>| fragment_models(part@))
}

impl AstPrinter {
    pub fn print(&mut self, expr: &Expr) -> (fragments: Vec<Fragment>)
        ensures
            fragment_models(fragments@) == rendered(*expr),
        decreases *expr,
    {
        match expr {
            Expr::Binary { left, operator, right } => {
                let mut parts: Vec<Vec<Fragment>> = Vec::new();
                parts.push(self.print(left));
                parts.push(self.print(right));
                assert(part_models(parts@) =~= seq![rendered(**left), rendered(**right)]);
                self.parenthesize(operator.lexeme.as_str(), parts)
            },
            Expr::Grouping { expression } => {
                let mut parts: Vec<Vec<Fragment>> = Vec::new();
                parts.push(self.print(expression));
                assert(part_models(parts@) =~= seq![rendered(**expression)]);
                self.parenthesize("group", parts)
            },
            Expr::Literal(value) => {
                let mut fragments: Vec<Fragment> = Vec::new();
                fragments.push(value.fragment());
                assert(fragment_models(fragments@) =~= rendered(*expr));
                fragments
            },
            Expr::Unary { operator, right } => {
                let mut parts: Vec<Vec<Fragment>> = Vec::new();
                parts.push(self.print(right));
                assert(part_models(parts@) =~= seq![rendered(**right)]);
                self.parenthesize(operator.lexeme.as_str(), parts)
            },
            Expr::Variable(name) => {
                let mut fragments: Vec<Fragment> = Vec::new();
                fragments.push(Fragment::Text(name.lexeme.clone()));
                assert(fragment_models(fragments@) =~= rendered(*expr));
                fragments
            },
            Expr::Assign { name, value } => {
                let mut parts: Vec<Vec<Fragment>> = Vec::new();
                parts.push(self.print(value));
                assert(part_models(parts@) =~= seq![rendered(**value)]);
                let mut head: String = String::from_str("= ");
                head.append(name.lexeme.as_str());
                self.parenthesize(head.as_str(), parts)
            },
        }
    }

    fn parenthesize(&mut self, name: &str, parts: Vec<Vec<Fragment>>) -> (fragments: Vec<Fragment>)
        ensures
            fragment_models(fragments@) == parenthesized(name@, part_models(parts@)),
    {
        let mut parts = parts;
        let ghost all: Seq<Seq<FragmentModel>> = part_models(parts@);
        let mut head: String = String::from_str("(");
        head.append(name);
        let mut fragments: Vec<Fragment> = Vec::new();
        fragments.push(Fragment::Text(head));
        assert(fragment_models(fragments@) =~= text("("@ + name@) + spaced(all.take(0)));
        let mut done: usize = 0;
        while done < parts.len()
            invariant
                done <= parts@.len(),
                parts@.len() == all.len(),
                forall|i: int| done <= i < parts@.len() ==> fragment_models(parts@[i]@) == all[i],
                fragment_models(fragments@) == text("("@ + name@) + spaced(all.take(done as int)),
            decreases parts@.len() - done,
        {
            let ghost before: Seq<FragmentModel> = fragment_models(fragments@);
            let ghost part: Seq<FragmentModel> = all[done as int];
            fragments.push(Fragment::Text(String::from_str(" ")));
            let mut taken: Vec<Fragment> = Vec::new();
            core::mem::swap(&mut taken, &mut parts[done]);
            assert(fragment_models(taken@) == part);
            fragments.append(&mut taken);
            done = done + 1;
            assert(all.take(done as int).drop_last() =~= all.take(done as int - 1));
            assert(fragment_models(fragments@) =~= before + text(" "@) + part);
            assert(before + text(" "@) + part =~= text("("@ + name@) + (spaced(
                all.take(done as int - 1),
            ) + text(" "@) + part));
        }
        assert(all.take(done as int) =~= all);
        let ghost before: Seq<FragmentModel> = fragment_models(fragments@);
        fragments.push(Fragment::Text(String::from_str(")")));
        assert(fragment_models(fragments@) =~= before + text(")"@));
        fragments
    }
}

impl Visitor<Vec<Fragment>> for AstPrinter {
    /// A visit hands back the expression in prefix notation.
    open spec fn visits(&self, expr: Expr, result: Vec<Fragment>) -> bool {
        fragment_models(result@) == rendered(expr)
    }

    fn visit_expr(&mut self, expr: &Expr) -> (result: Vec<Fragment>) {
        self.print(expr)
    }
}

} // verus!
