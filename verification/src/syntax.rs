//! What holds of everything the grammar accepts, and of how the parser
//! recovers from what it does not.

use crate::expr::Expr;
use crate::literal::Literal;
use crate::grammar::{
    assignment, at_end, binary, binary_tail, block, block_items, check, declaration, expression,
    operand, primary, program, remaining, skipped, starts_statement, statement, terminated, unary,
    var_declaration, ExprParse, Level, Message, StmtParse, SyntaxError,
};
use crate::semantics::{well_formed, well_formed_statement, well_formed_statements};
use crate::stmt::{models, Stmt, StmtModel};
use crate::token::Token;
use crate::token_type::TokenType;
use vstd::prelude::*;

verus! {

/// Whether the `count` tokens from `pos` on are tokens of the sequence that
/// neither end a statement nor the file.
pub open spec fn inside_statement(tokens: Seq<Token>, pos: nat, count: nat) -> bool {
    forall|i: int|
        pos <= i < pos + count ==> i < tokens.len() && (#[trigger] tokens[i]).kind
            != TokenType::Semicolon && tokens[i].kind != TokenType::Eof
}

/// Whether the token is one of the sequence.
pub open spec fn is_token(tokens: Seq<Token>, token: Token) -> bool {
    exists|i: int| 0 <= i < tokens.len() && #[trigger] tokens[i] == token
}

/// Whether everything in the expression comes from the tokens: each name
/// and each operator is one of the tokens, and each literal is the literal
/// of one of them, or one of `true`, `false` and `nil`.
pub open spec fn drawn_from(tokens: Seq<Token>, expression: Expr) -> bool
    decreases expression,
{
    match expression {
        Expr::Assign { name, value } => is_token(tokens, *name) && drawn_from(tokens, *value),
        Expr::Binary { left, operator, right } => is_token(tokens, *operator) && drawn_from(
            tokens,
            *left,
        ) && drawn_from(tokens, *right),
        Expr::Grouping { expression } => drawn_from(tokens, *expression),
        Expr::Literal(literal) => *literal == Literal::Bool(true) || *literal == Literal::Bool(
            false,
        ) || *literal == Literal::Nil || exists|i: int|
            0 <= i < tokens.len() && (#[trigger] tokens[i]).literal == *literal,
        Expr::Unary { operator, right } => is_token(tokens, *operator) && drawn_from(
            tokens,
            *right,
        ),
        Expr::Variable(name) => is_token(tokens, *name),
    }
}

/// What holds of the parse of an expression: the tokens it takes stay
/// inside the statement; and what it builds is well formed, and made of
/// nothing but the tokens.
pub open spec fn sound(tokens: Seq<Token>, pos: nat, parse: ExprParse) -> bool {
    &&& inside_statement(tokens, pos, parse.consumed)
    &&& parse.outcome matches Ok(built) ==> well_formed(built) && drawn_from(tokens, built)
}

pub proof fn lemma_primary(tokens: Seq<Token>, pos: nat)
    ensures
        sound(tokens, pos, primary(tokens, pos)),
    decreases remaining(tokens, pos), 0nat,
{
    if !at_end(tokens, pos) && tokens[pos as int].kind == TokenType::LeftParen {
        lemma_expression(tokens, pos + 1);
    }
}

pub proof fn lemma_unary(tokens: Seq<Token>, pos: nat)
    ensures
        sound(tokens, pos, unary(tokens, pos)),
    decreases remaining(tokens, pos), 1nat,
{
    if check(tokens, pos, TokenType::Bang) || check(tokens, pos, TokenType::Minus) {
        lemma_unary(tokens, pos + 1);
    } else {
        lemma_primary(tokens, pos);
    }
}

pub proof fn lemma_operand(tokens: Seq<Token>, pos: nat, level: Level)
    ensures
        sound(tokens, pos, operand(tokens, pos, level)),
    decreases remaining(tokens, pos), 4 * level.rank() + 2,
{
    match level {
        Level::Equality => lemma_binary(tokens, pos, Level::Comparison),
        Level::Comparison => lemma_binary(tokens, pos, Level::Term),
        Level::Term => lemma_binary(tokens, pos, Level::Factor),
        Level::Factor => lemma_unary(tokens, pos),
    }
}

pub proof fn lemma_binary_tail<'a>(tokens: Seq<Token>, pos: nat, level: Level, left: Expr<'a>)
    requires
        well_formed(left),
        drawn_from(tokens, left),
    ensures
        sound(tokens, pos, binary_tail(tokens, pos, level, left)),
    decreases remaining(tokens, pos), 4 * level.rank() + 3,
{
    if !at_end(tokens, pos) && level.has(tokens[pos as int].kind) {
        lemma_operand(tokens, pos + 1, level);
        let right = operand(tokens, pos + 1, level);
        match right.outcome {
            Err(_) => {},
            Ok(found) => {
                lemma_binary_tail(
                    tokens,
                    pos + 1 + right.consumed,
                    level,
                    Expr::Binary { left: &left, operator: &tokens[pos as int], right: &found },
                );
            },
        }
    }
}

pub proof fn lemma_binary(tokens: Seq<Token>, pos: nat, level: Level)
    ensures
        sound(tokens, pos, binary(tokens, pos, level)),
    decreases remaining(tokens, pos), 4 * level.rank() + 4,
{
    lemma_operand(tokens, pos, level);
    let first = operand(tokens, pos, level);
    match first.outcome {
        Err(_) => {},
        Ok(left) => {
            lemma_binary_tail(tokens, pos + first.consumed, level, left);
        },
    }
}

pub proof fn lemma_assignment(tokens: Seq<Token>, pos: nat)
    ensures
        sound(tokens, pos, assignment(tokens, pos)),
    decreases remaining(tokens, pos), 30nat,
{
    lemma_binary(tokens, pos, Level::Equality);
    let target = binary(tokens, pos, Level::Equality);
    let equals: nat = pos + target.consumed;
    if target.outcome is Ok && check(tokens, equals, TokenType::Equal) {
        lemma_assignment(tokens, equals + 1);
    }
}

/// An expression takes no semicolon and does not run past the end of the
/// file, whether it parses or not; and where it parses, every operator in
/// it is one that its place allows.
pub proof fn lemma_expression(tokens: Seq<Token>, pos: nat)
    ensures
        sound(tokens, pos, expression(tokens, pos)),
    decreases remaining(tokens, pos), 31nat,
{
    lemma_assignment(tokens, pos);
}

/// Whether every expression in the statement is well formed.
pub open spec fn well_formed_model(statement: StmtModel) -> bool
    decreases statement,
{
    match statement {
        StmtModel::Block(statements) => forall|i: int|
            0 <= i < statements.len() ==> well_formed_model(#[trigger] statements[i]),
        StmtModel::Expression(expression) => well_formed(expression),
        StmtModel::Print(expression) => well_formed(expression),
        StmtModel::Var { name, initializer } => match initializer {
            Some(expression) => well_formed(expression),
            None => true,
        },
    }
}

pub open spec fn well_formed_models(statements: Seq<StmtModel>) -> bool {
    forall|i: int| 0 <= i < statements.len() ==> well_formed_model(#[trigger] statements[i])
}

/// A statement is well formed exactly when its model is.
pub proof fn lemma_model_well_formed(statement: Stmt)
    ensures
        well_formed_statement(statement) == well_formed_model(statement@),
    decreases statement,
{
    match statement {
        Stmt::Block { statements } => {
            let inner = statement@->Block_0;
            assert(inner.len() == statements@.len());
            assert forall|i: int| 0 <= i < statements@.len() implies well_formed_statement(
                statements@[i],
            ) == well_formed_model(#[trigger] inner[i]) by {
                assert(inner[i] == statements@[i]@);
                lemma_model_well_formed(statements@[i]);
            }
            if well_formed_statement(statement) {
                assert forall|i: int| 0 <= i < inner.len() implies well_formed_model(
                    #[trigger] inner[i],
                ) by {
                    assert(well_formed_statement(statements@[i]));
                }
            }
            if well_formed_model(statement@) {
                assert forall|i: int| 0 <= i < statements@.len() implies well_formed_statement(
                    #[trigger] statements@[i],
                ) by {
                    assert(well_formed_model(inner[i]));
                }
            }
        },
        _ => {},
    }
}

/// Statements are well formed exactly when their models are.
pub proof fn lemma_models_well_formed(statements: Seq<Stmt>)
    ensures
        well_formed_statements(statements) == well_formed_models(models(statements)),
{
    assert forall|i: int| 0 <= i < statements.len() implies well_formed_statement(statements[i])
        == well_formed_model(#[trigger] models(statements)[i]) by {
        lemma_model_well_formed(statements[i]);
    }
    if well_formed_statements(statements) {
        assert forall|i: int| 0 <= i < statements.len() implies well_formed_model(
            #[trigger] models(statements)[i],
        ) by {
            assert(well_formed_statement(statements[i]));
        }
    }
    if well_formed_models(models(statements)) {
        assert forall|i: int| 0 <= i < statements.len() implies well_formed_statement(
            #[trigger] statements[i],
        ) by {
            assert(well_formed_model(models(statements)[i]));
        }
    }
}

/// Whether everything in the statement comes from the tokens.
pub open spec fn statement_drawn_from(tokens: Seq<Token>, statement: StmtModel) -> bool
    decreases statement,
{
    match statement {
        StmtModel::Block(statements) => forall|i: int|
            0 <= i < statements.len() ==> statement_drawn_from(tokens, #[trigger] statements[i]),
        StmtModel::Expression(expression) => drawn_from(tokens, expression),
        StmtModel::Print(expression) => drawn_from(tokens, expression),
        StmtModel::Var { name, initializer } => is_token(tokens, name) && match initializer {
            Some(expression) => drawn_from(tokens, expression),
            None => true,
        },
    }
}

/// Whether the statements are well formed and made of nothing but the
/// tokens.
pub open spec fn faithful(tokens: Seq<Token>, statements: Seq<StmtModel>) -> bool {
    &&& well_formed_models(statements)
    &&& forall|i: int|
        0 <= i < statements.len() ==> statement_drawn_from(tokens, #[trigger] statements[i])
}

/// What holds of the parse of a statement: where it parses, it is well
/// formed and made of nothing but the tokens.
pub open spec fn sound_statement(tokens: Seq<Token>, parse: StmtParse) -> bool {
    parse.outcome matches Ok(built) ==> well_formed_model(built) && statement_drawn_from(
        tokens,
        built,
    )
}

pub proof fn lemma_terminated(tokens: Seq<Token>, pos: nat, message: Message)
    ensures
        inside_statement(
            tokens,
            pos,
            if terminated(tokens, pos, message).outcome is Ok {
                (terminated(tokens, pos, message).consumed - 1) as nat
            } else {
                terminated(tokens, pos, message).consumed
            },
        ),
        terminated(tokens, pos, message).outcome matches Ok(built) ==> well_formed(built)
            && drawn_from(tokens, built) && terminated(tokens, pos, message).consumed >= 1,
{
    lemma_expression(tokens, pos);
}

pub proof fn lemma_block_items(tokens: Seq<Token>, pos: nat)
    ensures
        faithful(tokens, block_items(tokens, pos).statements),
    decreases remaining(tokens, pos), 50nat,
{
    if !(at_end(tokens, pos) || tokens[pos as int].kind == TokenType::RightBrace) {
        lemma_declaration(tokens, pos);
        let first = declaration(tokens, pos);
        if first.consumed != 0 {
            lemma_block_items(tokens, pos + first.consumed);
        }
    }
}

pub proof fn lemma_block(tokens: Seq<Token>, pos: nat)
    ensures
        sound_statement(tokens, block(tokens, pos)),
    decreases remaining(tokens, pos), 51nat,
{
    lemma_block_items(tokens, pos);
}

pub proof fn lemma_statement(tokens: Seq<Token>, pos: nat)
    ensures
        sound_statement(tokens, statement(tokens, pos)),
    decreases remaining(tokens, pos), 40nat,
{
    if check(tokens, pos, TokenType::Print) {
        lemma_terminated(tokens, pos + 1, Message::ExpectSemicolonAfterValue);
    } else if check(tokens, pos, TokenType::LeftBrace) {
        lemma_block(tokens, pos + 1);
    } else {
        lemma_terminated(tokens, pos, Message::ExpectSemicolonAfterValue);
    }
}

pub proof fn lemma_declaration(tokens: Seq<Token>, pos: nat)
    ensures
        faithful(tokens, declaration(tokens, pos).statements),
    decreases remaining(tokens, pos), 41nat,
{
    if check(tokens, pos, TokenType::Var) {
        if check(tokens, pos + 1, TokenType::Identifier) && check(
            tokens,
            pos + 2,
            TokenType::Equal,
        ) {
            lemma_terminated(tokens, pos + 3, Message::ExpectSemicolonAfterDeclaration);
        }
    } else {
        lemma_statement(tokens, pos);
    }
}

/// A declaration that is not at the end of the file takes at least one
/// token, so that parsing always moves on.
pub proof fn lemma_declaration_advances(tokens: Seq<Token>, pos: nat)
    requires
        !at_end(tokens, pos),
    ensures
        declaration(tokens, pos).consumed >= 1,
{
    if !check(tokens, pos, TokenType::Var) && !check(tokens, pos, TokenType::Print) && !check(
        tokens,
        pos,
        TokenType::LeftBrace,
    ) {
        lemma_terminated(tokens, pos, Message::ExpectSemicolonAfterValue);
    }
}

/// The parser never builds a malformed tree, and never makes a token up:
/// in every statement of a program, each unary operator is `!` or `-`, each
/// binary operator is one of the ten that the grammar has, and each name,
/// operator and literal comes from the tokens.
pub proof fn lemma_program(tokens: Seq<Token>, pos: nat)
    ensures
        faithful(tokens, program(tokens, pos).statements),
    decreases remaining(tokens, pos), 50nat,
{
    if !at_end(tokens, pos) {
        lemma_declaration(tokens, pos);
        let first = declaration(tokens, pos);
        if first.consumed != 0 {
            lemma_program(tokens, pos + first.consumed);
        }
    }
}

/// Whether the tokens from `start` up to `end` read as one statement to the
/// eye: they end with a semicolon, the only one; none of them is the end of
/// the file; the first does not open a block; and none but the first is a
/// keyword that starts a statement.
pub open spec fn one_statement(tokens: Seq<Token>, start: nat, end: nat) -> bool {
    &&& start < end <= tokens.len()
    &&& tokens[end - 1].kind == TokenType::Semicolon
    &&& forall|i: int| start <= i < end - 1 ==> (#[trigger] tokens[i]).kind != TokenType::Semicolon
    &&& forall|i: int| start <= i < end ==> (#[trigger] tokens[i]).kind != TokenType::Eof
    &&& tokens[start as int].kind != TokenType::LeftBrace
    &&& forall|i: int| start < i < end ==> !starts_statement((#[trigger] tokens[i]).kind)
}

/// Whether no statement parses at `start`.
pub open spec fn invalid(tokens: Seq<Token>, start: nat) -> bool {
    declaration(tokens, start).statements.len() == 0
}

/// Recovery that begins after an error inside a statement runs to the end
/// of that statement.
pub proof fn lemma_skipped(tokens: Seq<Token>, error: nat, from: nat, end: nat)
    requires
        error < from <= end <= tokens.len(),
        tokens[end - 1].kind == TokenType::Semicolon,
        forall|i: int| error <= i < end - 1 ==> (#[trigger] tokens[i]).kind != TokenType::Semicolon,
        forall|i: int| error <= i < end ==> (#[trigger] tokens[i]).kind != TokenType::Eof,
        forall|i: int| error < i < end ==> !starts_statement((#[trigger] tokens[i]).kind),
    ensures
        skipped(tokens, from) == end - from,
    decreases end - from,
{
    if from < end {
        assert(tokens[from as int].kind != TokenType::Eof);
        assert(tokens[from - 1].kind != TokenType::Semicolon);
        assert(!starts_statement(tokens[from as int].kind));
        lemma_skipped(tokens, error, from + 1, end);
    }
}

/// An invalid statement costs exactly one error and exactly its own
/// tokens.
#[verifier::rlimit(80)]
pub proof fn lemma_invalid_statement(tokens: Seq<Token>, start: nat, end: nat)
    requires
        one_statement(tokens, start, end),
        invalid(tokens, start),
    ensures
        declaration(tokens, start).statements.len() == 0,
        declaration(tokens, start).errors.len() == 1,
        declaration(tokens, start).consumed == end - start,
{
    let parsed: StmtParse = if check(tokens, start, TokenType::Var) {
        let rest = var_declaration(tokens, start + 1);
        StmtParse { outcome: rest.outcome, dropped: rest.dropped, consumed: 1 + rest.consumed }
    } else {
        statement(tokens, start)
    };
    assert(tokens[start as int].kind != TokenType::Eof);
    assert(parsed.outcome is Err);
    assert(parsed.dropped =~= Seq::<SyntaxError>::empty());
    assert(inside_statement(tokens, start, parsed.consumed)) by {
        if check(tokens, start, TokenType::Var) {
            if check(tokens, start + 1, TokenType::Identifier) {
                if check(tokens, start + 2, TokenType::Equal) {
                    lemma_terminated(tokens, start + 3, Message::ExpectSemicolonAfterDeclaration);
                }
            }
        } else if check(tokens, start, TokenType::Print) {
            lemma_terminated(tokens, start + 1, Message::ExpectSemicolonAfterValue);
        } else {
            lemma_terminated(tokens, start, Message::ExpectSemicolonAfterValue);
        }
    }
    let error: nat = start + parsed.consumed;
    assert(error <= end - 1) by {
        if error > end - 1 {
            assert(tokens[end - 1].kind != TokenType::Semicolon);
        }
    }
    assert(tokens[error as int].kind != TokenType::Eof);
    lemma_skipped(tokens, error, error + 1, end);
    assert(declaration(tokens, start).errors =~= parsed.dropped.push(parsed.outcome->Err_0));
}

/// A program of invalid statements reports one syntax error for each and
/// yields no statement.  The statements are given by where each starts:
/// `starts` lists those places in order, and last the place of the end of
/// the file.
#[verifier::rlimit(80)]
pub proof fn lemma_one_error_for_each_invalid_statement(tokens: Seq<Token>, starts: Seq<nat>)
    requires
        starts.len() >= 1,
        forall|k: int|
            0 <= k < starts.len() - 1 ==> one_statement(tokens, #[trigger] starts[k], starts[k + 1])
                && invalid(tokens, starts[k]),
        at_end(tokens, starts.last()),
    ensures
        program(tokens, starts[0]).statements.len() == 0,
        program(tokens, starts[0]).errors.len() == starts.len() - 1,
    decreases starts.len(),
{
    if starts.len() > 1 {
        let start = starts[0];
        let end = starts[1];
        assert(one_statement(tokens, start, end) && invalid(tokens, start));
        assert(tokens[start as int].kind != TokenType::Eof);
        lemma_invalid_statement(tokens, start, end);
        let rest = starts.drop_first();
        assert forall|k: int| 0 <= k < rest.len() - 1 implies one_statement(
            tokens,
            #[trigger] rest[k],
            rest[k + 1],
        ) && invalid(tokens, rest[k]) by {
            assert(rest[k] == starts[k + 1]);
            assert(rest[k + 1] == starts[k + 2]);
            assert(one_statement(tokens, starts[k + 1], starts[k + 2]));
        }
        assert(rest.last() == starts.last());
        lemma_one_error_for_each_invalid_statement(tokens, rest);
        assert(rest[0] == end);
    }
}

/// Whether a statement parses at `start`, without an error, from exactly
/// the tokens up to `end`.
pub open spec fn valid(tokens: Seq<Token>, start: nat, end: nat) -> bool {
    &&& start < end
    &&& !at_end(tokens, start)
    &&& declaration(tokens, start).statements.len() == 1
    &&& declaration(tokens, start).errors.len() == 0
    &&& declaration(tokens, start).consumed == end - start
}

/// The statements that parse at the places that `starts` lists, in order.
/// The last place is where the program ends, and no statement starts
/// there.
pub open spec fn statements_at<'a>(tokens: Seq<Token>, starts: Seq<nat>) -> Seq<StmtModel<'a>>
    decreases starts.len(),
{
    if starts.len() <= 1 {
        Seq::empty()
    } else {
        declaration(tokens, starts[0]).statements + statements_at(tokens, starts.drop_first())
    }
}

/// How many of the places that `starts` lists, but the last, are places
/// where no statement parses.
pub open spec fn invalid_among(tokens: Seq<Token>, starts: Seq<nat>) -> nat
    decreases starts.len(),
{
    if starts.len() <= 1 {
        0
    } else {
        invalid_among(tokens, starts.drop_first()) + if invalid(tokens, starts[0]) {
            1nat
        } else {
            0nat
        }
    }
}

/// A program of statements, some of them invalid, yields the valid ones in
/// their order and reports one syntax error for each invalid one.  Each
/// error costs its own statement and no other.
#[verifier::rlimit(80)]
pub proof fn lemma_invalid_statements_among_valid(tokens: Seq<Token>, starts: Seq<nat>)
    requires
        starts.len() >= 1,
        forall|k: int|
            0 <= k < starts.len() - 1 ==> valid(tokens, #[trigger] starts[k], starts[k + 1]) || (
            one_statement(tokens, starts[k], starts[k + 1]) && invalid(tokens, starts[k])),
        at_end(tokens, starts.last()),
    ensures
        program(tokens, starts[0]).statements == statements_at(tokens, starts),
        program(tokens, starts[0]).errors.len() == invalid_among(tokens, starts),
        program(tokens, starts[0]).statements.len() + invalid_among(tokens, starts) == starts.len()
            - 1,
    decreases starts.len(),
{
    if starts.len() > 1 {
        let start = starts[0];
        let end = starts[1];
        assert(valid(tokens, start, end) || (one_statement(tokens, start, end) && invalid(
            tokens,
            start,
        )));
        if !valid(tokens, start, end) {
            assert(tokens[start as int].kind != TokenType::Eof);
            lemma_invalid_statement(tokens, start, end);
        }
        let rest = starts.drop_first();
        assert forall|k: int| 0 <= k < rest.len() - 1 implies valid(
            tokens,
            #[trigger] rest[k],
            rest[k + 1],
        ) || (one_statement(tokens, rest[k], rest[k + 1]) && invalid(tokens, rest[k])) by {
            assert(rest[k] == starts[k + 1]);
            assert(rest[k + 1] == starts[k + 2]);
            assert(valid(tokens, starts[k + 1], starts[k + 2]) || (one_statement(
                tokens,
                starts[k + 1],
                starts[k + 2],
            ) && invalid(tokens, starts[k + 1])));
        }
        assert(rest.last() == starts.last());
        lemma_invalid_statements_among_valid(tokens, rest);
        assert(rest[0] == end);
    }
}

} // verus!
