//! The grammar, as functions from a token sequence and a position to what
//! stands there.
//!
//! ```text
//! program     -> declaration* EOF
//! declaration -> "var" IDENTIFIER ( "=" expression )? ";" | statement
//! statement   -> "print" expression ";" | "{" declaration* "}" | expression ";"
//! expression  -> assignment
//! assignment  -> IDENTIFIER "=" assignment | equality
//! equality    -> comparison ( ( "!=" | "==" ) comparison )*
//! comparison  -> term ( ( ">" | ">=" | "<" | "<=" ) term )*
//! term        -> factor ( ( "-" | "+" ) factor )*
//! factor      -> unary ( ( "/" | "*" ) unary )*
//! unary       -> ( "!" | "-" ) unary | primary
//! primary     -> NUMBER | STRING | "true" | "false" | "nil" | IDENTIFIER
//!              | "(" expression ")"
//! ```
//!
//! Each function reads from `pos` and says what it found and how many tokens
//! it took.  A statement that fails to parse is dropped: its error is kept,
//! and tokens are discarded up to the next statement boundary.

use crate::expr::Expr;
use crate::literal::Literal;
use crate::stmt::StmtModel;
use crate::token::Token;
use crate::token_type::TokenType;
use vstd::prelude::*;
use vstd::string::*;

verus! {

/// What a syntax error says.
#[derive(Debug, Clone, Copy, PartialEq, Eq, Structural)]
pub enum Message {
    ExpectExpression,
    ExpectRightParen,
    ExpectSemicolonAfterValue,
    ExpectVariableName,
    ExpectSemicolonAfterDeclaration,
    ExpectRightBrace,
    InvalidAssignmentTarget,
}

impl Message {
    pub open spec fn text(self) -> Seq<char> {
        match self {
            Message::ExpectExpression => "Expect expression."@,
            Message::ExpectRightParen => "Expect ')' after expression."@,
            Message::ExpectSemicolonAfterValue => "Expect ';' after value."@,
            Message::ExpectVariableName => "Expect variable name."@,
            Message::ExpectSemicolonAfterDeclaration => "Expect ';' after variable declaration."@,
            Message::ExpectRightBrace => "Expect '}' after block."@,
            Message::InvalidAssignmentTarget => "Invalid assignment target."@,
        }
    }

    pub fn to_string(&self) -> (text: String)
        ensures
            text@ == self.text(),
    {
        match self {
            Message::ExpectExpression => String::from_str("Expect expression."),
            Message::ExpectRightParen => String::from_str("Expect ')' after expression."),
            Message::ExpectSemicolonAfterValue => String::from_str("Expect ';' after value."),
            Message::ExpectVariableName => String::from_str("Expect variable name."),
            Message::ExpectSemicolonAfterDeclaration => String::from_str(
                "Expect ';' after variable declaration.",
            ),
            Message::ExpectRightBrace => String::from_str("Expect '}' after block."),
            Message::InvalidAssignmentTarget => String::from_str("Invalid assignment target."),
        }
    }
}

/// A syntax error: the offending token and what was wrong at it.
pub struct SyntaxError<'a> {
    pub token: &'a Token,
    pub message: Message,
}

/// The four levels of left-associative binary operators, loosest first.
#[derive(Debug, Clone, Copy, PartialEq, Eq, Structural)]
pub enum Level {
    Equality,
    Comparison,
    Term,
    Factor,
}

impl Level {
    /// Whether a token of this kind is an operator of the level.
    pub open spec fn has(self, kind: TokenType) -> bool {
        match self {
            Level::Equality => kind == TokenType::BangEqual || kind == TokenType::EqualEqual,
            Level::Comparison => kind == TokenType::Greater || kind == TokenType::GreaterEqual
                || kind == TokenType::Less || kind == TokenType::LessEqual,
            Level::Term => kind == TokenType::Minus || kind == TokenType::Plus,
            Level::Factor => kind == TokenType::Slash || kind == TokenType::Star,
        }
    }

    pub open spec fn rank(self) -> nat {
        match self {
            Level::Equality => 3,
            Level::Comparison => 2,
            Level::Term => 1,
            Level::Factor => 0,
        }
    }
}

/// An expression, or the error that stopped its parse, and the tokens taken
/// either way.
pub struct ExprParse<'a> {
    pub outcome: Result<Expr<'a>, SyntaxError<'a>>,
    pub consumed: nat,
}

/// A statement, or the error that stopped its parse; the errors of the
/// statements dropped inside it; and the tokens taken.
pub struct StmtParse<'a> {
    pub outcome: Result<StmtModel<'a>, SyntaxError<'a>>,
    pub dropped: Seq<SyntaxError<'a>>,
    pub consumed: nat,
}

/// The statements that parsed, every error on the way, and the tokens taken.
pub struct Parse<'a> {
    pub statements: Seq<StmtModel<'a>>,
    pub errors: Seq<SyntaxError<'a>>,
    pub consumed: nat,
}

/// The number of tokens from `pos` on.
pub open spec fn remaining(tokens: Seq<Token>, pos: nat) -> nat {
    if pos < tokens.len() {
        (tokens.len() - pos) as nat
    } else {
        0
    }
}

/// Whether nothing is left to parse at `pos`.
pub open spec fn at_end(tokens: Seq<Token>, pos: nat) -> bool {
    pos >= tokens.len() || tokens[pos as int].kind == TokenType::Eof
}

/// Whether the token at `pos` is of the given kind, the end excepted.
pub open spec fn check(tokens: Seq<Token>, pos: nat, kind: TokenType) -> bool {
    !at_end(tokens, pos) && tokens[pos as int].kind == kind
}

pub open spec fn failure<'a>(tokens: Seq<Token>, at: nat, message: Message, consumed: nat) -> ExprParse<
    'a,
> {
    ExprParse { outcome: Err(SyntaxError { token: &tokens[at as int], message }), consumed }
}

pub open spec fn primary<'a>(tokens: Seq<Token>, pos: nat) -> ExprParse<'a>
    decreases remaining(tokens, pos), 0nat,
{
    if at_end(tokens, pos) {
        failure(tokens, pos, Message::ExpectExpression, 0)
    } else {
        match tokens[pos as int].kind {
            TokenType::False => ExprParse {
                outcome: Ok(Expr::Literal(&Literal::Bool(false))),
                consumed: 1,
            },
            TokenType::True => ExprParse {
                outcome: Ok(Expr::Literal(&Literal::Bool(true))),
                consumed: 1,
            },
            TokenType::Nil => ExprParse { outcome: Ok(Expr::Literal(&Literal::Nil)), consumed: 1 },
            TokenType::Number | TokenType::String => ExprParse {
                outcome: Ok(Expr::Literal(&tokens[pos as int].literal)),
                consumed: 1,
            },
            TokenType::Identifier => ExprParse {
                outcome: Ok(Expr::Variable(&tokens[pos as int])),
                consumed: 1,
            },
            TokenType::LeftParen => {
                let inner = expression(tokens, pos + 1);
                let after: nat = pos + 1 + inner.consumed;
                match inner.outcome {
                    Err(error) => ExprParse { outcome: Err(error), consumed: 1 + inner.consumed },
                    Ok(expression) => if check(tokens, after, TokenType::RightParen) {
                        ExprParse {
                            outcome: Ok(Expr::Grouping { expression: &expression }),
                            consumed: 2 + inner.consumed,
                        }
                    } else {
                        failure(tokens, after, Message::ExpectRightParen, 1 + inner.consumed)
                    },
                }
            },
            _ => failure(tokens, pos, Message::ExpectExpression, 0),
        }
    }
}

pub open spec fn unary<'a>(tokens: Seq<Token>, pos: nat) -> ExprParse<'a>
    decreases remaining(tokens, pos), 1nat,
{
    if check(tokens, pos, TokenType::Bang) || check(tokens, pos, TokenType::Minus) {
        let right = unary(tokens, pos + 1);
        ExprParse {
            outcome: match right.outcome {
                Ok(operand) => Ok(Expr::Unary { operator: &tokens[pos as int], right: &operand }),
                Err(error) => Err(error),
            },
            consumed: 1 + right.consumed,
        }
    } else {
        primary(tokens, pos)
    }
}

/// An operand of a binary operator of the given level: an expression of the
/// next tighter level.
pub open spec fn operand<'a>(tokens: Seq<Token>, pos: nat, level: Level) -> ExprParse<'a>
    decreases remaining(tokens, pos), 4 * level.rank() + 2,
{
    match level {
        Level::Equality => binary(tokens, pos, Level::Comparison),
        Level::Comparison => binary(tokens, pos, Level::Term),
        Level::Term => binary(tokens, pos, Level::Factor),
        Level::Factor => unary(tokens, pos),
    }
}

/// What follows a left operand: as long as an operator of the level stands
/// there, another operand, folded in from the left.
pub open spec fn binary_tail<'a>(tokens: Seq<Token>, pos: nat, level: Level, left: Expr<'a>) -> ExprParse<
    'a,
>
    decreases remaining(tokens, pos), 4 * level.rank() + 3,
{
    if !at_end(tokens, pos) && level.has(tokens[pos as int].kind) {
        let right = operand(tokens, pos + 1, level);
        match right.outcome {
            Err(error) => ExprParse { outcome: Err(error), consumed: 1 + right.consumed },
            Ok(operand) => {
                let rest = binary_tail(
                    tokens,
                    pos + 1 + right.consumed,
                    level,
                    Expr::Binary { left: &left, operator: &tokens[pos as int], right: &operand },
                );
                ExprParse { outcome: rest.outcome, consumed: 1 + right.consumed + rest.consumed }
            },
        }
    } else {
        ExprParse { outcome: Ok(left), consumed: 0 }
    }
}

pub open spec fn binary<'a>(tokens: Seq<Token>, pos: nat, level: Level) -> ExprParse<'a>
    decreases remaining(tokens, pos), 4 * level.rank() + 4,
{
    let first = operand(tokens, pos, level);
    match first.outcome {
        Err(_) => first,
        Ok(left) => {
            let rest = binary_tail(tokens, pos + first.consumed, level, left);
            ExprParse { outcome: rest.outcome, consumed: first.consumed + rest.consumed }
        },
    }
}

pub open spec fn assignment<'a>(tokens: Seq<Token>, pos: nat) -> ExprParse<'a>
    decreases remaining(tokens, pos), 30nat,
{
    let target = binary(tokens, pos, Level::Equality);
    let equals: nat = pos + target.consumed;
    match target.outcome {
        Err(_) => target,
        Ok(left) => if check(tokens, equals, TokenType::Equal) {
            let value = assignment(tokens, equals + 1);
            let consumed: nat = target.consumed + 1 + value.consumed;
            match value.outcome {
                Err(error) => ExprParse { outcome: Err(error), consumed },
                Ok(assigned) => match left {
                    Expr::Variable(name) => ExprParse {
                        outcome: Ok(Expr::Assign { name, value: &assigned }),
                        consumed,
                    },
                    _ => failure(tokens, equals, Message::InvalidAssignmentTarget, consumed),
                },
            }
        } else {
            target
        },
    }
}

pub open spec fn expression<'a>(tokens: Seq<Token>, pos: nat) -> ExprParse<'a>
    decreases remaining(tokens, pos), 31nat,
{
    assignment(tokens, pos)
}

/// An expression and the semicolon that must close it.
pub open spec fn terminated<'a>(tokens: Seq<Token>, pos: nat, message: Message) -> ExprParse<'a>
    decreases remaining(tokens, pos), 32nat,
{
    let value = expression(tokens, pos);
    let after: nat = pos + value.consumed;
    match value.outcome {
        Err(_) => value,
        Ok(expression) => if check(tokens, after, TokenType::Semicolon) {
            ExprParse { outcome: Ok(expression), consumed: value.consumed + 1 }
        } else {
            failure(tokens, after, message, value.consumed)
        },
    }
}

/// The rest of a print statement, after `print`.
pub open spec fn print_statement<'a>(tokens: Seq<Token>, pos: nat) -> StmtParse<'a>
    decreases remaining(tokens, pos), 33nat,
{
    let value = terminated(tokens, pos, Message::ExpectSemicolonAfterValue);
    StmtParse {
        outcome: match value.outcome {
            Ok(expression) => Ok(StmtModel::Print(expression)),
            Err(error) => Err(error),
        },
        dropped: Seq::empty(),
        consumed: value.consumed,
    }
}

pub open spec fn expression_statement<'a>(tokens: Seq<Token>, pos: nat) -> StmtParse<'a>
    decreases remaining(tokens, pos), 33nat,
{
    let value = terminated(tokens, pos, Message::ExpectSemicolonAfterValue);
    StmtParse {
        outcome: match value.outcome {
            Ok(expression) => Ok(StmtModel::Expression(expression)),
            Err(error) => Err(error),
        },
        dropped: Seq::empty(),
        consumed: value.consumed,
    }
}

/// The rest of a variable declaration, after `var`.
pub open spec fn var_declaration<'a>(tokens: Seq<Token>, pos: nat) -> StmtParse<'a>
    decreases remaining(tokens, pos), 33nat,
{
    if !check(tokens, pos, TokenType::Identifier) {
        StmtParse {
            outcome: Err(SyntaxError { token: &tokens[pos as int], message: Message::ExpectVariableName }),
            dropped: Seq::empty(),
            consumed: 0,
        }
    } else if check(tokens, pos + 1, TokenType::Equal) {
        let value = terminated(tokens, pos + 2, Message::ExpectSemicolonAfterDeclaration);
        StmtParse {
            outcome: match value.outcome {
                Ok(expression) => Ok(
                    StmtModel::Var { name: tokens[pos as int], initializer: Some(expression) },
                ),
                Err(error) => Err(error),
            },
            dropped: Seq::empty(),
            consumed: 2 + value.consumed,
        }
    } else if check(tokens, pos + 1, TokenType::Semicolon) {
        StmtParse {
            outcome: Ok(StmtModel::Var { name: tokens[pos as int], initializer: None }),
            dropped: Seq::empty(),
            consumed: 2,
        }
    } else {
        StmtParse {
            outcome: Err(
                SyntaxError {
                    token: &tokens[(pos + 1) as int],
                    message: Message::ExpectSemicolonAfterDeclaration,
                },
            ),
            dropped: Seq::empty(),
            consumed: 1,
        }
    }
}

/// Whether a statement starts with a token of this kind, so that recovery
/// stops in front of it.
pub open spec fn starts_statement(kind: TokenType) -> bool {
    kind == TokenType::Class || kind == TokenType::Fun || kind == TokenType::Var || kind
        == TokenType::For || kind == TokenType::If || kind == TokenType::While || kind
        == TokenType::Print || kind == TokenType::Return
}

/// The tokens that recovery discards from `pos` on, given that the token
/// before `pos` has been discarded: up to and including the next semicolon,
/// or up to the next token that starts a statement, or to the end.
pub open spec fn skipped(tokens: Seq<Token>, pos: nat) -> nat
    decreases remaining(tokens, pos),
{
    if at_end(tokens, pos) || pos < 1 || tokens[pos - 1].kind == TokenType::Semicolon
        || starts_statement(tokens[pos as int].kind) {
        0
    } else {
        1 + skipped(tokens, pos + 1)
    }
}

/// The tokens that recovery discards after an error at `pos`: the token at
/// `pos`, unless it is the end, and what `skipped` says after it.
pub open spec fn synchronize(tokens: Seq<Token>, pos: nat) -> nat {
    if at_end(tokens, pos) {
        0
    } else {
        1 + skipped(tokens, pos + 1)
    }
}

/// The declarations from `pos` up to a closing brace or the end.
pub open spec fn block_items<'a>(tokens: Seq<Token>, pos: nat) -> Parse<'a>
    decreases remaining(tokens, pos), 50nat,
{
    if at_end(tokens, pos) || tokens[pos as int].kind == TokenType::RightBrace {
        Parse { statements: Seq::empty(), errors: Seq::empty(), consumed: 0 }
    } else {
        let first = declaration(tokens, pos);
        if first.consumed == 0 {
            // Never taken: a declaration that is not at the end takes a token,
            // as `crate::syntax::lemma_declaration_advances` shows.
            Parse { statements: Seq::empty(), errors: Seq::empty(), consumed: 0 }
        } else {
            let rest = block_items(tokens, pos + first.consumed);
            Parse {
                statements: first.statements + rest.statements,
                errors: first.errors + rest.errors,
                consumed: first.consumed + rest.consumed,
            }
        }
    }
}

/// The rest of a block, after its opening brace.
pub open spec fn block<'a>(tokens: Seq<Token>, pos: nat) -> StmtParse<'a>
    decreases remaining(tokens, pos), 51nat,
{
    let items = block_items(tokens, pos);
    let after: nat = pos + items.consumed;
    if check(tokens, after, TokenType::RightBrace) {
        StmtParse {
            outcome: Ok(StmtModel::Block(items.statements)),
            dropped: items.errors,
            consumed: items.consumed + 1,
        }
    } else {
        StmtParse {
            outcome: Err(SyntaxError { token: &tokens[after as int], message: Message::ExpectRightBrace }),
            dropped: items.errors,
            consumed: items.consumed,
        }
    }
}

pub open spec fn statement<'a>(tokens: Seq<Token>, pos: nat) -> StmtParse<'a>
    decreases remaining(tokens, pos), 40nat,
{
    if check(tokens, pos, TokenType::Print) {
        let rest = print_statement(tokens, pos + 1);
        StmtParse { outcome: rest.outcome, dropped: rest.dropped, consumed: 1 + rest.consumed }
    } else if check(tokens, pos, TokenType::LeftBrace) {
        let rest = block(tokens, pos + 1);
        StmtParse { outcome: rest.outcome, dropped: rest.dropped, consumed: 1 + rest.consumed }
    } else {
        expression_statement(tokens, pos)
    }
}

/// One declaration: its statement if it parsed; if not, its error after
/// those of the statements dropped inside it, and the tokens discarded in
/// recovery counted among those taken.
pub open spec fn declaration<'a>(tokens: Seq<Token>, pos: nat) -> Parse<'a>
    decreases remaining(tokens, pos), 41nat,
{
    let parsed = if check(tokens, pos, TokenType::Var) {
        let rest = var_declaration(tokens, pos + 1);
        StmtParse { outcome: rest.outcome, dropped: rest.dropped, consumed: 1 + rest.consumed }
    } else {
        statement(tokens, pos)
    };
    match parsed.outcome {
        Ok(statement) => Parse {
            statements: seq![statement],
            errors: parsed.dropped,
            consumed: parsed.consumed,
        },
        Err(error) => Parse {
            statements: Seq::empty(),
            errors: parsed.dropped.push(error),
            consumed: parsed.consumed + synchronize(tokens, pos + parsed.consumed),
        },
    }
}

/// The declarations from `pos` to the end: the program, where `pos` is 0.
pub open spec fn program<'a>(tokens: Seq<Token>, pos: nat) -> Parse<'a>
    decreases remaining(tokens, pos), 50nat,
{
    if at_end(tokens, pos) {
        Parse { statements: Seq::empty(), errors: Seq::empty(), consumed: 0 }
    } else {
        let first = declaration(tokens, pos);
        if first.consumed == 0 {
            // Never taken: a declaration that is not at the end takes a token,
            // as `crate::syntax::lemma_declaration_advances` shows.
            Parse { statements: Seq::empty(), errors: Seq::empty(), consumed: 0 }
        } else {
            let rest = program(tokens, pos + first.consumed);
            Parse {
                statements: first.statements + rest.statements,
                errors: first.errors + rest.errors,
                consumed: first.consumed + rest.consumed,
            }
        }
    }
}

} // verus!
