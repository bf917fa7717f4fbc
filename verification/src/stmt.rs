//! Statements.  A block owns its statements; every other statement borrows
//! its expressions from the arena that the parser filled.

use crate::expr::Expr;
use crate::token::Token;
use vstd::prelude::*;

verus! {

pub enum Stmt<'a> {
    Block { statements: Vec<Stmt<'a>> },
    Expression(&'a Expr<'a>),
    Print(&'a Expr<'a>),
    Var { name: &'a Token, initializer: Option<&'a Expr<'a>> },
}

/// A statement as a mathematical value: a block is the sequence of its
/// statements.
pub enum StmtModel<'a> {
    Block(Seq<StmtModel<'a>>),
    Expression(Expr<'a>),
    Print(Expr<'a>),
    Var { name: Token, initializer: Option<Expr<'a>> },
}

impl<'a> Stmt<'a> {
    pub open spec fn model(self) -> StmtModel<'a>
        decreases self,
    {
        match self {
            Stmt::Block { statements } => StmtModel::Block(
                Seq::new(
                    statements@.len(),
                    |i: int|
                        if 0 <= i < statements@.len() {
                            statements@[i].model()
                        } else {
                            StmtModel::Block(Seq::empty())
                        },
                ),
            ),
            Stmt::Expression(expression) => StmtModel::Expression(*expression),
            Stmt::Print(expression) => StmtModel::Print(*expression),
            Stmt::Var { name, initializer } => StmtModel::Var {
                name: *name,
                initializer: match initializer {
                    Some(expression) => Some(*expression),
                    None => None,
                },
            },
        }
    }
}

impl<'a> View for Stmt<'a> {
    type V = StmtModel<'a>;

    open spec fn view(&self) -> StmtModel<'a> {
        self.model()
    }
}

/// The models of a sequence of statements, in order.
pub open spec fn models<'a>(statements: Seq<Stmt<'a>>) -> Seq<StmtModel<'a>> {
    Seq::new(statements.len(), |i: int| statements[i]@)
}

/// A block's model is the sequence of the models of its statements.
pub proof fn lemma_block_model<'a>(statements: Vec<Stmt<'a>>)
    ensures
        (Stmt::Block { statements })@ == StmtModel::Block(models(statements@)),
{
    let built = Stmt::Block { statements };
    let inner = built@->Block_0;
    assert(inner.len() == statements@.len());
    assert forall|i: int| 0 <= i < inner.len() implies inner[i] == models(statements@)[i] by {
        assert(inner[i] == statements@[i]@);
    }
    assert(inner =~= models(statements@));
}

/// Something that walks statements, handing back an `R` for each.
pub trait Visitor<R> {
    fn visit_stmt(&mut self, stmt: &Stmt) -> R;
}

} // verus!
