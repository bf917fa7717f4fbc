//! Literal values as the source text denotes them.

use vstd::prelude::*;
use vstd::string::*;

verus! {

/// A value written out in the source.  A number is kept as its numeral, the
/// digits as they were written, since only the host can turn it into a
/// binary64 value.
#[derive(Debug)]
pub enum Literal {
    Bool(bool),
    Number(String),
    String(String),
    Nil,
}

pub enum LiteralModel {
    Bool(bool),
    Number(Seq<char>),
    String(Seq<char>),
    Nil,
}

/// A piece of output text.  A `Number` piece holds a numeral that the host
/// renders in the inspection format of binary64 values, which keeps a
/// trailing fractional part on whole numbers.
#[derive(Debug)]
pub enum Fragment {
    Text(String),
    Number(String),
}

pub enum FragmentModel {
    Text(Seq<char>),
    Number(Seq<char>),
}

impl View for Fragment {
    type V = FragmentModel;

    open spec fn view(&self) -> FragmentModel {
        match self {
            Fragment::Text(text) => FragmentModel::Text(text@),
            Fragment::Number(numeral) => FragmentModel::Number(numeral@),
        }
    }
}

impl View for Literal {
    type V = LiteralModel;

    open spec fn view(&self) -> LiteralModel {
        match self {
            Literal::Bool(b) => LiteralModel::Bool(*b),
            Literal::Number(numeral) => LiteralModel::Number(numeral@),
            Literal::String(text) => LiteralModel::String(text@),
            Literal::Nil => LiteralModel::Nil,
        }
    }
}

impl LiteralModel {
    /// How a literal reads when a token or a syntax tree is shown: booleans
    /// as `true` and `false`, text as it is, the absent value as `null`.
    pub open spec fn fragment(self) -> FragmentModel {
        match self {
            LiteralModel::Bool(b) => FragmentModel::Text(if b { "true"@ } else { "false"@ }),
            LiteralModel::Number(numeral) => FragmentModel::Number(numeral),
            LiteralModel::String(text) => FragmentModel::Text(text),
            LiteralModel::Nil => FragmentModel::Text("null"@),
        }
    }
}

impl Literal {
    pub fn fragment(&self) -> (piece: Fragment)
        ensures
            piece@ == self@.fragment(),
    {
        match self {
            Literal::Bool(b) => Fragment::Text(String::from_str(if *b { "true" } else { "false" })),
            Literal::Number(numeral) => Fragment::Number(numeral.clone()),
            Literal::String(text) => Fragment::Text(text.clone()),
            Literal::Nil => Fragment::Text(String::from_str("null")),
        }
    }
}

} // verus!
