//! Tokens: classified lexemes with their source line.

use crate::literal::{Fragment, FragmentModel, Literal, LiteralModel};
use crate::token_type::TokenType;
use vstd::prelude::*;
use vstd::string::*;

verus! {

#[derive(Debug)]
pub struct Token {
    pub kind: TokenType,
    pub lexeme: String,
    pub literal: Literal,
    pub line: usize,
}

pub struct TokenModel {
    pub kind: TokenType,
    pub lexeme: Seq<char>,
    pub literal: LiteralModel,
    pub line: nat,
}

impl View for Token {
    type V = TokenModel;

    open spec fn view(&self) -> TokenModel {
        TokenModel {
            kind: self.kind,
            lexeme: self.lexeme@,
            literal: self.literal@,
            line: self.line as nat,
        }
    }
}

impl TokenModel {
    /// A token shown as its kind, its lexeme and its literal, one space
    /// between each.
    pub open spec fn fragments(self) -> Seq<FragmentModel> {
        seq![
            FragmentModel::Text(self.kind.display() + " "@ + self.lexeme + " "@),
            self.literal.fragment(),
        ]
    }
}

impl Token {
    pub fn fragments(&self) -> (pieces: Vec<Fragment>)
        ensures
            pieces@.map_values(|p: Fragment| p@) == self@.fragments(),
    {
        let mut head: String = self.kind.to_string();
        head.append(" ");
        head.append(self.lexeme.as_str());
        head.append(" ");
        let mut pieces: Vec<Fragment> = Vec::new();
        pieces.push(Fragment::Text(head));
        pieces.push(self.literal.fragment());
        assert(pieces@.map_values(|p: Fragment| p@) =~= self@.fragments());
        pieces
    }
}

} // verus!
