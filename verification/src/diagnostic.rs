//! What is reported of a lexical or a syntax error: the line, where on it,
//! and what is wrong.

use crate::grammar::SyntaxError;
use crate::scanner::ScanError;
use crate::token_type::TokenType;
use vstd::prelude::*;
use vstd::string::*;

verus! {

#[derive(Debug)]
pub struct Diagnostic {
    pub line: usize,
    /// Empty, or a space and the place: ` at end`, or ` at ` and the
    /// offending lexeme in single quotes.
    pub location: String,
    pub message: String,
}

pub struct DiagnosticModel {
    pub line: nat,
    pub location: Seq<char>,
    pub message: Seq<char>,
}

impl View for Diagnostic {
    type V = DiagnosticModel;

    open spec fn view(&self) -> DiagnosticModel {
        DiagnosticModel {
            line: self.line as nat,
            location: self.location@,
            message: self.message@,
        }
    }
}

impl ScanError {
    /// A lexical error is reported with its line and no place on it.
    pub open spec fn report(self) -> DiagnosticModel {
        DiagnosticModel {
            line: self.line as nat,
            location: Seq::empty(),
            message: self.kind.message(),
        }
    }

    pub fn diagnostic(&self) -> (diagnostic: Diagnostic)
        ensures
            diagnostic@ == self.report(),
    {
        Diagnostic { line: self.line, location: String::new(), message: self.kind.to_string() }
    }
}

impl<'a> SyntaxError<'a> {
    /// A syntax error is reported on the line of its token, at the end
    /// where the token is the end of the file, and at the token's lexeme
    /// otherwise.
    pub open spec fn report(self) -> DiagnosticModel {
        DiagnosticModel {
            line: self.token.line as nat,
            location: if self.token.kind == TokenType::Eof {
                " at end"@
            } else {
                " at '"@ + self.token.lexeme@ + "'"@
            },
            message: self.message.text(),
        }
    }

    pub fn diagnostic(&self) -> (diagnostic: Diagnostic)
        ensures
            diagnostic@ == self.report(),
    {
        let location: String = if self.token.kind == TokenType::Eof {
            String::from_str(" at end")
        } else {
            let mut place: String = String::from_str(" at '");
            place.append(self.token.lexeme.as_str());
            place.append("'");
            place
        };
        Diagnostic { line: self.token.line, location, message: self.message.to_string() }
    }
}

} // verus!
