//! Runtime values and runtime errors.

use crate::token::Token;
use vstd::prelude::*;
use vstd::string::*;

verus! {

/// What an expression evaluates to.  A number is the bit pattern of a
/// binary64 value.
#[derive(Debug)]
pub enum Value {
    Bool(bool),
    Number(u64),
    String(String),
    Nil,
}

pub enum ValueModel {
    Bool(bool),
    Number(u64),
    String(Seq<char>),
    Nil,
}

impl View for Value {
    type V = ValueModel;

    open spec fn view(&self) -> ValueModel {
        match self {
            Value::Bool(b) => ValueModel::Bool(*b),
            Value::Number(bits) => ValueModel::Number(*bits),
            Value::String(text) => ValueModel::String(text@),
            Value::Nil => ValueModel::Nil,
        }
    }
}

/// An error raised while a statement runs: what went wrong, and the line of
/// the token at which it did.
#[derive(Debug)]
pub struct RuntimeError {
    pub token_line: usize,
    pub message: String,
}

pub struct RuntimeErrorModel {
    pub token_line: nat,
    pub message: Seq<char>,
}

impl View for RuntimeError {
    type V = RuntimeErrorModel;

    open spec fn view(&self) -> RuntimeErrorModel {
        RuntimeErrorModel { token_line: self.token_line as nat, message: self.message@ }
    }
}

/// What is said of a variable that no scope binds.
pub open spec fn undefined_variable(name: Seq<char>) -> Seq<char> {
    "Undefined variable '"@ + name + "'."@
}

/// The error of reading or assigning the variable that `name` names where
/// no scope binds it.
pub open spec fn undefined(name: Token) -> RuntimeErrorModel {
    RuntimeErrorModel { token_line: name.line as nat, message: undefined_variable(name.lexeme@) }
}

impl RuntimeError {
    pub fn new(token: &Token, message: String) -> (error: RuntimeError)
        ensures
            error@ == (RuntimeErrorModel { token_line: token.line as nat, message: message@ }),
    {
        RuntimeError { token_line: token.line, message }
    }

    /// The error for a variable that no scope binds.
    pub fn undefined(name: &Token) -> (error: RuntimeError)
        ensures
            error@ == undefined(*name),
    {
        let mut message: String = String::from_str("Undefined variable '");
        message.append(name.lexeme.as_str());
        message.append("'.");
        RuntimeError::new(name, message)
    }
}

} // verus!
