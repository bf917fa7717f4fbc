//! A scanner, parser, environment and evaluator for a small dynamically typed
//! scripting language, with every stage's behaviour stated as a contract and
//! proved.
//!
//! Source bytes become tokens ([`scanner`]); tokens become statements
//! ([`parser`], which builds what [`grammar`] defines); statements run on a
//! machine that takes one step at a time ([`interpreter`], which takes the
//! steps that [`semantics`] defines) over a store of lexical scopes
//! ([`environment`]).  [`meaning`] says what a program does as a whole and
//! proves that the machine does it; [`scoping`] proves what a block can and
//! cannot change in the scopes around it; [`syntax`] proves what holds of
//! every parse.
//!
//! Numbers are carried as IEEE 754 binary64 bit patterns.  Their order and
//! equality are read off the patterns ([`number`]); a numeral's value, the
//! four operations and a number's text are the host's to supply, and the
//! machine asks for them as it goes.

pub mod arena;
pub mod ast_printer;
pub mod diagnostic;
pub mod environment;
pub mod expr;
pub mod grammar;
pub mod interpreter;
pub mod literal;
pub mod meaning;
pub mod number;
pub mod parser;
pub mod scanner;
pub mod scoping;
pub mod semantics;
pub mod stmt;
pub mod syntax;
pub mod text;
pub mod token;
pub mod token_type;
pub mod value;
