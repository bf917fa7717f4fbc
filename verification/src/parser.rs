//! The parser: a recursive descent over the token sequence, proved to build
//! what [`crate::grammar`] says stands there.

use crate::arena::allocate;
use crate::expr::Expr;
use crate::grammar::{
    assignment, at_end, binary, binary_tail, block, block_items, check, declaration, expression,
    expression_statement, operand, primary, print_statement, program, remaining, skipped,
    statement, synchronize, terminated, unary, var_declaration, ExprParse, Level, Message, Parse,
    StmtParse, SyntaxError,
};
use crate::literal::Literal;
use crate::semantics::well_formed_statements;
use crate::stmt::{lemma_block_model, models, Stmt, StmtModel};
use crate::syntax::{lemma_models_well_formed, lemma_program};
use crate::token::Token;
use crate::token_type::TokenType;
use typed_arena::Arena;
use vstd::prelude::*;

verus! {

pub struct Parser<'a> {
    tokens: &'a Vec<Token>,
    current: usize,
    errors: Vec<SyntaxError<'a>>,
}

/// Whether the parser's answer is the one the grammar gives.
pub open spec fn agrees<'a>(
    answer: Result<&'a Expr<'a>, SyntaxError<'a>>,
    parse: ExprParse<'a>,
) -> bool {
    match parse.outcome {
        Ok(expression) => answer matches Ok(built) && *built == expression,
        Err(error) => answer == Err::<&'a Expr<'a>, SyntaxError<'a>>(error),
    }
}

/// Whether the parser's statement is the one the grammar gives.
pub open spec fn agrees_on_statement<'a>(
    answer: Result<Stmt<'a>, SyntaxError<'a>>,
    parse: StmtParse<'a>,
) -> bool {
    match parse.outcome {
        Ok(statement) => answer matches Ok(built) && built@ == statement,
        Err(error) => answer matches Err(raised) && raised == error,
    }
}

impl<'a> Parser<'a> {
    /// The tokens being parsed.
    pub closed spec fn tokens(&self) -> Seq<Token> {
        self.tokens@
    }

    /// The index of the next token to read.
    pub closed spec fn position(&self) -> nat {
        self.current as nat
    }

    /// The syntax errors met so far, in the order met.
    pub closed spec fn reported(&self) -> Seq<SyntaxError<'a>> {
        self.errors@
    }

    /// The tokens end with the end-of-file token, and the cursor is on a
    /// token.
    pub closed spec fn wf(&self) -> bool {
        &&& self.tokens@.len() > 0
        &&& self.tokens@.last().kind == TokenType::Eof
        &&& self.current < self.tokens@.len()
    }

    /// A parser at the first of `tokens`, which must end with the end-of-file
    /// token, as every scan does.
    pub fn new(tokens: &'a Vec<Token>) -> (parser: Parser<'a>)
        requires
            tokens@.len() > 0,
            tokens@.last().kind == TokenType::Eof,
        ensures
            parser.wf(),
            parser.tokens() == tokens@,
            parser.position() == 0,
            parser.reported() == Seq::<SyntaxError<'a>>::empty(),
    {
        Parser { tokens, current: 0, errors: Vec::new() }
    }

    /// Parses the declarations from the cursor to the end.  The statements
    /// handed back are those of the grammar's `program`, the cursor ends on
    /// the end-of-file token, and the errors of `program` are added to those
    /// reported.  Every statement handed back is well formed, as the
    /// interpreter asks of what it runs.
    pub fn parse(&mut self, arena: &'a Arena<Expr<'a>>) -> (out: Option<Vec<Stmt<'a>>>)
        requires
            old(self).wf(),
        ensures
            final(self).wf(),
            final(self).tokens() == old(self).tokens(),
            out matches Some(statements) && models(statements@) == program(
                old(self).tokens(),
                old(self).position(),
            ).statements,
            final(self).reported() == old(self).reported() + program(
                old(self).tokens(),
                old(self).position(),
            ).errors,
            final(self).position() == old(self).position() + program(
                old(self).tokens(),
                old(self).position(),
            ).consumed,
            at_end(final(self).tokens(), final(self).position()),
            out matches Some(statements) && well_formed_statements(statements@),
    {
        let mut statements: Vec<Stmt<'a>> = Vec::new();
        let ghost whole: Parse<'a> = program(self.tokens@, self.current as nat);
        assert(models(statements@) =~= Seq::<StmtModel<'a>>::empty());
        while !self.is_at_end()
            invariant
                self.wf(),
                self.tokens == old(self).tokens,
                self.current >= old(self).current,
                models(statements@) + program(self.tokens@, self.current as nat).statements
                    == whole.statements,
                self.errors@ + program(self.tokens@, self.current as nat).errors == old(
                    self,
                ).errors@ + whole.errors,
                (self.current - old(self).current) + program(
                    self.tokens@,
                    self.current as nat,
                ).consumed == whole.consumed,
            decreases remaining(self.tokens@, self.current as nat),
        {
            let ghost before: Seq<StmtModel<'a>> = models(statements@);
            let ghost reported: Seq<SyntaxError<'a>> = self.errors@;
            let ghost first: Parse<'a> = declaration(self.tokens@, self.current as nat);
            let ghost rest: Parse<'a> = program(
                self.tokens@,
                (self.current + first.consumed) as nat,
            );
            let statement = self.declaration(arena);
            match statement {
                Some(statement) => {
                    assert(models(statements@.push(statement)) =~= before + seq![statement@]);
                    statements.push(statement);
                },
                None => {
                    assert(before + Seq::<StmtModel<'a>>::empty() =~= before);
                },
            }
            assert(models(statements@) == before + first.statements);
            assert((before + first.statements) + rest.statements =~= before + (first.statements
                + rest.statements));
            assert((reported + first.errors) + rest.errors =~= reported + (first.errors
                + rest.errors));
        }
        assert(models(statements@) + Seq::<StmtModel<'a>>::empty() =~= models(statements@));
        assert(self.errors@ + Seq::<SyntaxError<'a>>::empty() =~= self.errors@);
        proof {
            lemma_program(old(self).tokens@, old(self).current as nat);
            lemma_models_well_formed(statements@);
        }
        Some(statements)
    }

    /// The errors reported, handed over.
    pub fn into_errors(self) -> (errors: Vec<SyntaxError<'a>>)
        ensures
            errors@ == self.reported(),
    {
        self.errors
    }

    fn expression(&mut self, arena: &'a Arena<Expr<'a>>) -> (answer: Result<
        &'a Expr<'a>,
        SyntaxError<'a>,
    >)
        requires
            old(self).wf(),
        ensures
            final(self).stepped(
                old(self),
                expression(old(self).tokens@, old(self).current as nat).consumed,
            ),
            agrees(answer, expression(old(self).tokens@, old(self).current as nat)),
        decreases remaining(old(self).tokens@, old(self).current as nat), 31nat,
    {
        self.assignment(arena)
    }

    fn declaration(&mut self, arena: &'a Arena<Expr<'a>>) -> (out: Option<Stmt<'a>>)
        requires
            old(self).wf(),
            !at_end(old(self).tokens@, old(self).current as nat),
        ensures
            final(self).wf(),
            final(self).tokens == old(self).tokens,
            ({
                let parse = declaration(old(self).tokens@, old(self).current as nat);
                &&& parse.consumed >= 1
                &&& final(self).current == old(self).current + parse.consumed
                &&& final(self).errors@ == old(self).errors@ + parse.errors
                &&& match out {
                    Some(statement) => parse.statements == seq![statement@],
                    None => parse.statements == Seq::<StmtModel<'a>>::empty(),
                }
            }),
        decreases remaining(old(self).tokens@, old(self).current as nat), 41nat,
    {
        let parsed = if self.match_one(TokenType::Var) {
            self.var_declaration(arena)
        } else {
            self.statement(arena)
        };
        match parsed {
            Ok(statement) => Some(statement),
            Err(error) => {
                self.errors.push(error);
                self.synchronize();
                None
            },
        }
    }

    fn statement(&mut self, arena: &'a Arena<Expr<'a>>) -> (answer: Result<Stmt<'a>, SyntaxError<'a>>)
        requires
            old(self).wf(),
            !at_end(old(self).tokens@, old(self).current as nat),
        ensures
            final(self).stepped_over(old(self), statement(old(self).tokens@, old(self).current as nat)),
            agrees_on_statement(answer, statement(old(self).tokens@, old(self).current as nat)),
            answer is Ok ==> statement(old(self).tokens@, old(self).current as nat).consumed >= 1,
        decreases remaining(old(self).tokens@, old(self).current as nat), 40nat,
    {
        if self.match_one(TokenType::Print) {
            return self.print_statement(arena);
        }
        if self.match_one(TokenType::LeftBrace) {
            return match self.block(arena) {
                Ok(statements) => {
                    proof {
                        lemma_block_model(statements);
                    }
                    Ok(Stmt::Block { statements })
                },
                Err(error) => Err(error),
            };
        }
        self.expression_statement(arena)
    }

    fn print_statement(&mut self, arena: &'a Arena<Expr<'a>>) -> (answer: Result<
        Stmt<'a>,
        SyntaxError<'a>,
    >)
        requires
            old(self).wf(),
        ensures
            final(self).stepped_over(
                old(self),
                print_statement(old(self).tokens@, old(self).current as nat),
            ),
            agrees_on_statement(
                answer,
                print_statement(old(self).tokens@, old(self).current as nat),
            ),
            answer is Ok ==> print_statement(
                old(self).tokens@,
                old(self).current as nat,
            ).consumed >= 1,
        decreases remaining(old(self).tokens@, old(self).current as nat), 33nat,
    {
        let value = match self.terminated(arena, Message::ExpectSemicolonAfterValue) {
            Ok(value) => value,
            Err(error) => {
                assert(self.errors@ + Seq::<SyntaxError<'a>>::empty() =~= self.errors@);
                return Err(error);
            },
        };
        assert(self.errors@ + Seq::<SyntaxError<'a>>::empty() =~= self.errors@);
        Ok(Stmt::Print(value))
    }

    fn var_declaration(&mut self, arena: &'a Arena<Expr<'a>>) -> (answer: Result<
        Stmt<'a>,
        SyntaxError<'a>,
    >)
        requires
            old(self).wf(),
        ensures
            final(self).stepped_over(
                old(self),
                var_declaration(old(self).tokens@, old(self).current as nat),
            ),
            agrees_on_statement(
                answer,
                var_declaration(old(self).tokens@, old(self).current as nat),
            ),
        decreases remaining(old(self).tokens@, old(self).current as nat), 33nat,
    {
        assert(self.errors@ + Seq::<SyntaxError<'a>>::empty() =~= self.errors@);
        let name = match self.consume(TokenType::Identifier, Message::ExpectVariableName) {
            Ok(name) => name,
            Err(error) => {
                return Err(error);
            },
        };
        let mut initializer: Option<&'a Expr<'a>> = None;
        if self.match_one(TokenType::Equal) {
            return match self.terminated(arena, Message::ExpectSemicolonAfterDeclaration) {
                Ok(value) => Ok(Stmt::Var { name, initializer: Some(value) }),
                Err(error) => Err(error),
            };
        }
        match self.consume(TokenType::Semicolon, Message::ExpectSemicolonAfterDeclaration) {
            Ok(_) => Ok(Stmt::Var { name, initializer }),
            Err(error) => Err(error),
        }
    }

    fn expression_statement(&mut self, arena: &'a Arena<Expr<'a>>) -> (answer: Result<
        Stmt<'a>,
        SyntaxError<'a>,
    >)
        requires
            old(self).wf(),
        ensures
            final(self).stepped_over(
                old(self),
                expression_statement(old(self).tokens@, old(self).current as nat),
            ),
            agrees_on_statement(
                answer,
                expression_statement(old(self).tokens@, old(self).current as nat),
            ),
            answer is Ok ==> expression_statement(
                old(self).tokens@,
                old(self).current as nat,
            ).consumed >= 1,
        decreases remaining(old(self).tokens@, old(self).current as nat), 33nat,
    {
        let value = match self.terminated(arena, Message::ExpectSemicolonAfterValue) {
            Ok(value) => value,
            Err(error) => {
                assert(self.errors@ + Seq::<SyntaxError<'a>>::empty() =~= self.errors@);
                return Err(error);
            },
        };
        assert(self.errors@ + Seq::<SyntaxError<'a>>::empty() =~= self.errors@);
        Ok(Stmt::Expression(value))
    }

    /// An expression and the semicolon after it.
    fn terminated(&mut self, arena: &'a Arena<Expr<'a>>, message: Message) -> (answer: Result<
        &'a Expr<'a>,
        SyntaxError<'a>,
    >)
        requires
            old(self).wf(),
        ensures
            final(self).stepped(
                old(self),
                terminated(old(self).tokens@, old(self).current as nat, message).consumed,
            ),
            agrees(answer, terminated(old(self).tokens@, old(self).current as nat, message)),
            answer is Ok ==> terminated(
                old(self).tokens@,
                old(self).current as nat,
                message,
            ).consumed >= 1,
        decreases remaining(old(self).tokens@, old(self).current as nat), 32nat,
    {
        let value = match self.expression(arena) {
            Ok(value) => value,
            Err(error) => {
                return Err(error);
            },
        };
        match self.consume(TokenType::Semicolon, message) {
            Ok(_) => Ok(value),
            Err(error) => Err(error),
        }
    }

    fn block(&mut self, arena: &'a Arena<Expr<'a>>) -> (answer: Result<
        Vec<Stmt<'a>>,
        SyntaxError<'a>,
    >)
        requires
            old(self).wf(),
        ensures
            final(self).stepped_over(old(self), block(old(self).tokens@, old(self).current as nat)),
            match block(old(self).tokens@, old(self).current as nat).outcome {
                Ok(statement) => answer matches Ok(built) && StmtModel::Block(models(built@))
                    == statement,
                Err(error) => answer matches Err(raised) && raised == error,
            },
            answer is Ok ==> block(old(self).tokens@, old(self).current as nat).consumed >= 1,
        decreases remaining(old(self).tokens@, old(self).current as nat), 51nat,
    {
        let mut statements: Vec<Stmt<'a>> = Vec::new();
        let ghost whole: Parse<'a> = block_items(self.tokens@, self.current as nat);
        assert(models(statements@) =~= Seq::<StmtModel<'a>>::empty());
        while !self.check(TokenType::RightBrace) && !self.is_at_end()
            invariant
                self.wf(),
                self.tokens == old(self).tokens,
                self.current >= old(self).current,
                models(statements@) + block_items(self.tokens@, self.current as nat).statements
                    == whole.statements,
                self.errors@ + block_items(self.tokens@, self.current as nat).errors == old(
                    self,
                ).errors@ + whole.errors,
                (self.current - old(self).current) + block_items(
                    self.tokens@,
                    self.current as nat,
                ).consumed == whole.consumed,
            decreases remaining(self.tokens@, self.current as nat),
        {
            let ghost before: Seq<StmtModel<'a>> = models(statements@);
            let ghost reported: Seq<SyntaxError<'a>> = self.errors@;
            let ghost first: Parse<'a> = declaration(self.tokens@, self.current as nat);
            let ghost rest: Parse<'a> = block_items(
                self.tokens@,
                (self.current + first.consumed) as nat,
            );
            if let Some(statement) = self.declaration(arena) {
                assert(models(statements@.push(statement)) =~= before + seq![statement@]);
                statements.push(statement);
            } else {
                assert(before + Seq::<StmtModel<'a>>::empty() =~= before);
            }
            assert(models(statements@) == before + first.statements);
            assert((before + first.statements) + rest.statements =~= before + (first.statements
                + rest.statements));
            assert((reported + first.errors) + rest.errors =~= reported + (first.errors
                + rest.errors));
        }
        assert(models(statements@) + Seq::<StmtModel<'a>>::empty() =~= models(statements@));
        assert(self.errors@ + Seq::<SyntaxError<'a>>::empty() =~= self.errors@);
        match self.consume(TokenType::RightBrace, Message::ExpectRightBrace) {
            Ok(_) => Ok(statements),
            Err(error) => Err(error),
        }
    }

    fn assignment(&mut self, arena: &'a Arena<Expr<'a>>) -> (answer: Result<
        &'a Expr<'a>,
        SyntaxError<'a>,
    >)
        requires
            old(self).wf(),
        ensures
            final(self).stepped(
                old(self),
                assignment(old(self).tokens@, old(self).current as nat).consumed,
            ),
            agrees(answer, assignment(old(self).tokens@, old(self).current as nat)),
        decreases remaining(old(self).tokens@, old(self).current as nat), 30nat,
    {
        let expr = match self.equality(arena) {
            Ok(expr) => expr,
            Err(error) => {
                return Err(error);
            },
        };
        if self.match_one(TokenType::Equal) {
            let equals: usize = self.previous();
            let value = match self.assignment(arena) {
                Ok(value) => value,
                Err(error) => {
                    return Err(error);
                },
            };
            if let Expr::Variable(name) = expr {
                return Ok(allocate(arena, Expr::Assign { name, value }));
            }
            return Err(
                self.error(self.get_token_at_index(equals), Message::InvalidAssignmentTarget),
            );
        }
        Ok(expr)
    }

    fn equality(&mut self, arena: &'a Arena<Expr<'a>>) -> (answer: Result<
        &'a Expr<'a>,
        SyntaxError<'a>,
    >)
        requires
            old(self).wf(),
        ensures
            final(self).stepped(
                old(self),
                binary(old(self).tokens@, old(self).current as nat, Level::Equality).consumed,
            ),
            agrees(answer, binary(old(self).tokens@, old(self).current as nat, Level::Equality)),
        decreases remaining(old(self).tokens@, old(self).current as nat), 17nat,
    {
        self.binary(arena, Level::Equality)
    }

    fn comparison(&mut self, arena: &'a Arena<Expr<'a>>) -> (answer: Result<
        &'a Expr<'a>,
        SyntaxError<'a>,
    >)
        requires
            old(self).wf(),
        ensures
            final(self).stepped(
                old(self),
                binary(old(self).tokens@, old(self).current as nat, Level::Comparison).consumed,
            ),
            agrees(
                answer,
                binary(old(self).tokens@, old(self).current as nat, Level::Comparison),
            ),
        decreases remaining(old(self).tokens@, old(self).current as nat), 13nat,
    {
        self.binary(arena, Level::Comparison)
    }

    fn term(&mut self, arena: &'a Arena<Expr<'a>>) -> (answer: Result<&'a Expr<'a>, SyntaxError<'a>>)
        requires
            old(self).wf(),
        ensures
            final(self).stepped(
                old(self),
                binary(old(self).tokens@, old(self).current as nat, Level::Term).consumed,
            ),
            agrees(answer, binary(old(self).tokens@, old(self).current as nat, Level::Term)),
        decreases remaining(old(self).tokens@, old(self).current as nat), 9nat,
    {
        self.binary(arena, Level::Term)
    }

    fn factor(&mut self, arena: &'a Arena<Expr<'a>>) -> (answer: Result<
        &'a Expr<'a>,
        SyntaxError<'a>,
    >)
        requires
            old(self).wf(),
        ensures
            final(self).stepped(
                old(self),
                binary(old(self).tokens@, old(self).current as nat, Level::Factor).consumed,
            ),
            agrees(answer, binary(old(self).tokens@, old(self).current as nat, Level::Factor)),
        decreases remaining(old(self).tokens@, old(self).current as nat), 5nat,
    {
        self.binary(arena, Level::Factor)
    }

    /// An operand of the level: an expression of the next tighter level.
    fn operand(&mut self, arena: &'a Arena<Expr<'a>>, level: Level) -> (answer: Result<
        &'a Expr<'a>,
        SyntaxError<'a>,
    >)
        requires
            old(self).wf(),
        ensures
            final(self).stepped(
                old(self),
                operand(old(self).tokens@, old(self).current as nat, level).consumed,
            ),
            agrees(answer, operand(old(self).tokens@, old(self).current as nat, level)),
        decreases remaining(old(self).tokens@, old(self).current as nat), 4 * level.rank() + 2,
    {
        match level {
            Level::Equality => self.comparison(arena),
            Level::Comparison => self.term(arena),
            Level::Term => self.factor(arena),
            Level::Factor => self.unary(arena),
        }
    }

    /// A chain of operands of the level, folded from the left.
    fn binary(&mut self, arena: &'a Arena<Expr<'a>>, level: Level) -> (answer: Result<
        &'a Expr<'a>,
        SyntaxError<'a>,
    >)
        requires
            old(self).wf(),
        ensures
            final(self).stepped(
                old(self),
                binary(old(self).tokens@, old(self).current as nat, level).consumed,
            ),
            agrees(answer, binary(old(self).tokens@, old(self).current as nat, level)),
        decreases remaining(old(self).tokens@, old(self).current as nat), 4 * level.rank() + 4,
    {
        let ghost whole: ExprParse<'a> = binary(self.tokens@, self.current as nat, level);
        let mut expr: &'a Expr<'a> = match self.operand(arena, level) {
            Ok(expr) => expr,
            Err(error) => {
                return Err(error);
            },
        };
        loop
            invariant_except_break
                self.wf(),
                self.tokens == old(self).tokens,
                self.errors == old(self).errors,
                self.current >= old(self).current,
                whole == binary(old(self).tokens@, old(self).current as nat, level),
                whole.outcome == binary_tail(
                    self.tokens@,
                    self.current as nat,
                    level,
                    *expr,
                ).outcome,
                whole.consumed == (self.current - old(self).current) + binary_tail(
                    self.tokens@,
                    self.current as nat,
                    level,
                    *expr,
                ).consumed,
            ensures
                self.stepped(old(self), whole.consumed),
                whole.outcome == Ok::<Expr<'a>, SyntaxError<'a>>(*expr),
            decreases remaining(self.tokens@, self.current as nat),
        {
            if !self.match_level(level) {
                break ;
            }
            let operator: usize = self.previous();
            let right = match self.operand(arena, level) {
                Ok(right) => right,
                Err(error) => {
                    return Err(error);
                },
            };
            expr =
            allocate(
                arena,
                Expr::Binary { left: expr, operator: self.get_token_at_index(operator), right },
            );
        }
        Ok(expr)
    }

    fn unary(&mut self, arena: &'a Arena<Expr<'a>>) -> (answer: Result<
        &'a Expr<'a>,
        SyntaxError<'a>,
    >)
        requires
            old(self).wf(),
        ensures
            final(self).stepped(old(self), unary(old(self).tokens@, old(self).current as nat).consumed),
            agrees(answer, unary(old(self).tokens@, old(self).current as nat)),
        decreases remaining(old(self).tokens@, old(self).current as nat), 1nat,
    {
        if self.match_one(TokenType::Bang) || self.match_one(TokenType::Minus) {
            let operator: usize = self.previous();
            let right = match self.unary(arena) {
                Ok(right) => right,
                Err(error) => {
                    return Err(error);
                },
            };
            return Ok(
                allocate(
                    arena,
                    Expr::Unary { operator: self.get_token_at_index(operator), right },
                ),
            );
        }
        self.primary(arena)
    }

    fn primary(&mut self, arena: &'a Arena<Expr<'a>>) -> (answer: Result<
        &'a Expr<'a>,
        SyntaxError<'a>,
    >)
        requires
            old(self).wf(),
        ensures
            final(self).stepped(
                old(self),
                primary(old(self).tokens@, old(self).current as nat).consumed,
            ),
            agrees(answer, primary(old(self).tokens@, old(self).current as nat)),
        decreases remaining(old(self).tokens@, old(self).current as nat), 0nat,
    {
        if self.match_one(TokenType::False) {
            return Ok(allocate(arena, Expr::Literal(&Literal::Bool(false))));
        }
        if self.match_one(TokenType::True) {
            return Ok(allocate(arena, Expr::Literal(&Literal::Bool(true))));
        }
        if self.match_one(TokenType::Nil) {
            return Ok(allocate(arena, Expr::Literal(&Literal::Nil)));
        }
        if self.match_one(TokenType::Number) || self.match_one(TokenType::String) {
            return Ok(
                allocate(
                    arena,
                    Expr::Literal(&self.get_token_at_index(self.previous()).literal),
                ),
            );
        }
        if self.match_one(TokenType::Identifier) {
            return Ok(
                allocate(arena, Expr::Variable(self.get_token_at_index(self.previous()))),
            );
        }
        if self.match_one(TokenType::LeftParen) {
            let expr = match self.expression(arena) {
                Ok(expr) => expr,
                Err(error) => {
                    return Err(error);
                },
            };
            return match self.consume(TokenType::RightParen, Message::ExpectRightParen) {
                Ok(_) => Ok(allocate(arena, Expr::Grouping { expression: expr })),
                Err(error) => Err(error),
            };
        }
        Err(self.error(self.peek(), Message::ExpectExpression))
    }

    /// What a call that only reads tokens leaves behind: the same tokens and
    /// errors, and the cursor `consumed` tokens on.
    spec fn stepped(&self, before: &Parser<'a>, consumed: nat) -> bool {
        &&& self.wf()
        &&& self.tokens == before.tokens
        &&& self.errors == before.errors
        &&& self.current == before.current + consumed
    }

    /// What parsing a statement leaves behind: the errors of the statements
    /// dropped inside it added, and the cursor on by what it took.
    spec fn stepped_over(&self, before: &Parser<'a>, parse: StmtParse<'a>) -> bool {
        &&& self.wf()
        &&& self.tokens == before.tokens
        &&& self.errors@ == before.errors@ + parse.dropped
        &&& self.current == before.current + parse.consumed
    }

    /// Takes the next token if it is of the given kind.
    fn match_one(&mut self, kind: TokenType) -> (matched: bool)
        requires
            old(self).wf(),
        ensures
            matched == check(old(self).tokens@, old(self).current as nat, kind),
            final(self).stepped(
                old(self),
                if matched {
                    1nat
                } else {
                    0nat
                },
            ),
    {
        if self.check(kind) {
            self.advance();
            return true;
        }
        false
    }

    /// Takes the next token if it is an operator of the level.
    fn match_level(&mut self, level: Level) -> (matched: bool)
        requires
            old(self).wf(),
        ensures
            matched == (!at_end(old(self).tokens@, old(self).current as nat) && level.has(
                old(self).tokens@[old(self).current as int].kind,
            )),
            final(self).stepped(
                old(self),
                if matched {
                    1nat
                } else {
                    0nat
                },
            ),
    {
        match level {
            Level::Equality => self.match_one(TokenType::BangEqual) || self.match_one(
                TokenType::EqualEqual,
            ),
            Level::Comparison => self.match_one(TokenType::Greater) || self.match_one(
                TokenType::GreaterEqual,
            ) || self.match_one(TokenType::Less) || self.match_one(TokenType::LessEqual),
            Level::Term => self.match_one(TokenType::Minus) || self.match_one(TokenType::Plus),
            Level::Factor => self.match_one(TokenType::Slash) || self.match_one(TokenType::Star),
        }
    }

    /// Takes the next token if it is of the given kind, and fails at it with
    /// `message` if it is not.
    fn consume(&mut self, kind: TokenType, message: Message) -> (answer: Result<
        &'a Token,
        SyntaxError<'a>,
    >)
        requires
            old(self).wf(),
        ensures
            check(old(self).tokens@, old(self).current as nat, kind) ==> final(self).stepped(old(self), 1)
                && answer == Ok::<&'a Token, SyntaxError<'a>>(
                &old(self).tokens@[old(self).current as int],
            ),
            !check(old(self).tokens@, old(self).current as nat, kind) ==> final(self).stepped(
                old(self),
                0,
            ) && answer == Err::<&'a Token, SyntaxError<'a>>(
                SyntaxError { token: &old(self).tokens@[old(self).current as int], message },
            ),
    {
        if self.check(kind) {
            let token = self.peek();
            self.advance();
            return Ok(token);
        }
        Err(self.error(self.peek(), message))
    }

    fn error(&self, token: &'a Token, message: Message) -> (error: SyntaxError<'a>)
        ensures
            error == (SyntaxError { token, message }),
    {
        SyntaxError { token, message }
    }

    /// Discards tokens up to the next statement boundary.
    fn synchronize(&mut self)
        requires
            old(self).wf(),
        ensures
            final(self).stepped(old(self), synchronize(old(self).tokens@, old(self).current as nat)),
            !at_end(old(self).tokens@, old(self).current as nat) ==> synchronize(
                old(self).tokens@,
                old(self).current as nat,
            ) >= 1,
    {
        if self.is_at_end() {
            return ;
        }
        self.advance();
        while !self.is_at_end()
            invariant
                self.wf(),
                self.tokens == old(self).tokens,
                self.errors == old(self).errors,
                self.current >= old(self).current + 1,
                synchronize(old(self).tokens@, old(self).current as nat) == (self.current - old(
                    self,
                ).current) + skipped(self.tokens@, self.current as nat),
            ensures
                self.stepped(old(self), synchronize(old(self).tokens@, old(self).current as nat)),
            decreases remaining(self.tokens@, self.current as nat),
        {
            if self.get_token_at_index(self.previous()).kind == TokenType::Semicolon {
                return ;
            }
            match self.peek().kind {
                TokenType::Class
                | TokenType::Fun
                | TokenType::Var
                | TokenType::For
                | TokenType::If
                | TokenType::While
                | TokenType::Print
                | TokenType::Return => {
                    break ;
                },
                _ => {
                    self.advance();
                },
            }
        }
    }

    fn check(&self, kind: TokenType) -> (same: bool)
        requires
            self.wf(),
        ensures
            same == check(self.tokens@, self.current as nat, kind),
    {
        if self.is_at_end() {
            false
        } else {
            self.peek().kind == kind
        }
    }

    /// Moves past the next token, unless it is the end.
    fn advance(&mut self)
        requires
            old(self).wf(),
        ensures
            final(self).stepped(
                old(self),
                if at_end(old(self).tokens@, old(self).current as nat) {
                    0nat
                } else {
                    1nat
                },
            ),
    {
        if !self.is_at_end() {
            let count: usize = self.tokens.len();
            assert(self.tokens@.last() == self.tokens@[count - 1]);
            self.current = self.current + 1;
        }
    }

    fn is_at_end(&self) -> (ended: bool)
        requires
            self.wf(),
        ensures
            ended == at_end(self.tokens@, self.current as nat),
    {
        self.peek().kind == TokenType::Eof
    }

    fn peek(&self) -> (token: &'a Token)
        requires
            self.wf(),
        ensures
            *token == self.tokens@[self.current as int],
    {
        &self.tokens[self.current]
    }

    fn previous(&self) -> (index: usize)
        requires
            self.current >= 1,
        ensures
            index == self.current - 1,
    {
        self.current - 1
    }

    fn get_token_at_index(&self, index: usize) -> (token: &'a Token)
        requires
            index < self.tokens@.len(),
        ensures
            *token == self.tokens@[index as int],
    {
        &self.tokens[index]
    }
}

} // verus!
