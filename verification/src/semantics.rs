//! What running a program means, as a machine that takes one step at a
//! time.
//!
//! The machine keeps the work still to do as a stack of tasks and the values
//! worked out so far as a stack of operands.  A step takes the topmost task
//! and does it.  Most steps need nothing from outside; a step that needs a
//! number worked out, a line printed or an error reported says so in the
//! action it hands back.

use crate::environment::{assigned, lookup, resolve, with_binding, with_scope, ScopeModel};
use crate::expr::Expr;
use crate::literal::Literal;
use crate::number::{equal, less, less_or_equal, negated};
use crate::stmt::Stmt;
use crate::token::Token;
use crate::token_type::TokenType;
use crate::value::{undefined, RuntimeErrorModel, ValueModel};
use vstd::prelude::*;

verus! {

/// The arithmetic that only the host can do.
#[derive(Debug, Clone, Copy, PartialEq, Eq, Structural)]
pub enum Operation {
    Add,
    Subtract,
    Multiply,
    Divide,
}

/// What the host tells the machine when it asks for the next step.
#[derive(Debug, Clone, Copy, PartialEq, Eq, Structural)]
pub enum Event {
    /// Nothing: the last action asked for no answer.
    Resume,
    /// The number that the last action asked for.
    Number(u64),
}

/// A number that the machine has asked the host for.
pub enum Request<'e> {
    /// The value of a numeral.
    Convert(&'e String),
    /// The result of an operation on two numbers.
    Calculate { operation: Operation, left: u64, right: u64 },
}

/// A piece of work that the machine has still to do.
pub enum Task<'s, 'e> {
    /// Run the statements of a list from `next` on.
    Run { statements: &'s Vec<Stmt<'e>>, next: usize },
    /// Run one statement.
    Execute(&'s Stmt<'e>),
    /// Go back to an outer scope, at the end of a block.
    Leave(usize),
    /// Evaluate an expression and put its value on the operands.
    Evaluate(&'e Expr<'e>),
    /// Replace the top operand by the operator applied to it.
    Unary(&'e Token),
    /// Replace the two top operands by the operator applied to them.
    Binary(&'e Token),
    /// Assign the top operand to a variable, and keep it as the value.
    Assign(&'e Token),
    /// Take the top operand and define a variable as it.
    Define(&'e Token),
    /// Drop the top operand.
    Discard,
    /// Take the top operand and print it.
    Print,
    /// Take the number that the host was asked for as an operand.
    Answer(Request<'e>),
}

/// What a print statement writes: text as it stands, or a number for the
/// host to write in its shortest form.
pub enum OutputModel {
    Text(Seq<char>),
    Number(u64),
}

/// What the machine asks of the host after a step.
pub enum ActionModel {
    /// Nothing; ask for the next step.
    Continue,
    /// Turn the numeral into a number and answer with it.
    Convert(Seq<char>),
    /// Work the operation out and answer with the result.
    Calculate { operation: Operation, left: u64, right: u64 },
    /// Write a line.
    Print(OutputModel),
    /// Report a runtime error.
    Report(RuntimeErrorModel),
    /// Nothing is left to do.
    Finished,
}

/// The state of the machine.
pub struct Machine<'s, 'e> {
    pub scopes: Seq<ScopeModel>,
    pub scope: nat,
    pub tasks: Seq<Task<'s, 'e>>,
    pub operands: Seq<ValueModel>,
}

/// The state after a step, and what the step asks of the host.
pub struct Step<'s, 'e> {
    pub machine: Machine<'s, 'e>,
    pub action: ActionModel,
}

/// Whether a value counts as true: everything does but `nil` and `false`.
pub open spec fn truthy(value: ValueModel) -> bool {
    match value {
        ValueModel::Nil => false,
        ValueModel::Bool(b) => b,
        _ => true,
    }
}

/// Equality of values: values of different kinds are never equal.
pub open spec fn values_equal(left: ValueModel, right: ValueModel) -> bool {
    match (left, right) {
        (ValueModel::Bool(a), ValueModel::Bool(b)) => a == b,
        (ValueModel::Number(a), ValueModel::Number(b)) => equal(a, b),
        (ValueModel::String(a), ValueModel::String(b)) => a == b,
        (ValueModel::Nil, ValueModel::Nil) => true,
        _ => false,
    }
}

/// How a value reads when printed.
pub open spec fn stringify(value: ValueModel) -> OutputModel {
    match value {
        ValueModel::Nil => OutputModel::Text("nil"@),
        ValueModel::Number(bits) => OutputModel::Number(bits),
        ValueModel::Bool(b) => OutputModel::Text(
            if b {
                "true"@
            } else {
                "false"@
            },
        ),
        ValueModel::String(text) => OutputModel::Text(text),
    }
}

pub open spec fn failure_at(operator: Token, message: Seq<char>) -> RuntimeErrorModel {
    RuntimeErrorModel { token_line: operator.line as nat, message }
}

pub open spec fn is_unary_operator(kind: TokenType) -> bool {
    kind == TokenType::Bang || kind == TokenType::Minus
}

pub open spec fn is_binary_operator(kind: TokenType) -> bool {
    kind == TokenType::BangEqual || kind == TokenType::EqualEqual || kind == TokenType::Greater
        || kind == TokenType::GreaterEqual || kind == TokenType::Less || kind
        == TokenType::LessEqual || kind == TokenType::Minus || kind == TokenType::Plus || kind
        == TokenType::Slash || kind == TokenType::Star
}

/// A unary operator applied to a value: `!` negates its truth, `-` negates
/// a number and fails on anything else.
pub open spec fn unary_result(operator: Token, operand: ValueModel) -> Result<
    ValueModel,
    RuntimeErrorModel,
>
    recommends
        is_unary_operator(operator.kind),
{
    if operator.kind == TokenType::Bang {
        Ok(ValueModel::Bool(!truthy(operand)))
    } else {
        match operand {
            ValueModel::Number(bits) => Ok(ValueModel::Number(negated(bits))),
            _ => Err(failure_at(operator, "Operand must be a number."@)),
        }
    }
}

/// What a binary operator makes of two values: a value, a calculation for
/// the host, or a failure.
pub enum Outcome {
    Value(ValueModel),
    Calculate { operation: Operation, left: u64, right: u64 },
    Failure(RuntimeErrorModel),
}

/// A binary operator applied to two values.  Equality takes any values;
/// order and arithmetic take two numbers; `+` also takes two strings, and
/// joins them.
pub open spec fn binary_result(operator: Token, left: ValueModel, right: ValueModel) -> Outcome
    recommends
        is_binary_operator(operator.kind),
{
    match operator.kind {
        TokenType::BangEqual => Outcome::Value(ValueModel::Bool(!values_equal(left, right))),
        TokenType::EqualEqual => Outcome::Value(ValueModel::Bool(values_equal(left, right))),
        TokenType::Plus => match (left, right) {
            (ValueModel::Number(a), ValueModel::Number(b)) => Outcome::Calculate {
                operation: Operation::Add,
                left: a,
                right: b,
            },
            (ValueModel::String(a), ValueModel::String(b)) => Outcome::Value(
                ValueModel::String(a + b),
            ),
            _ => Outcome::Failure(
                failure_at(operator, "Operands must be two numbers or two strings."@),
            ),
        },
        _ => match (left, right) {
            (ValueModel::Number(a), ValueModel::Number(b)) => match operator.kind {
                TokenType::Greater => Outcome::Value(ValueModel::Bool(less(b, a))),
                TokenType::GreaterEqual => Outcome::Value(ValueModel::Bool(less_or_equal(b, a))),
                TokenType::Less => Outcome::Value(ValueModel::Bool(less(a, b))),
                TokenType::LessEqual => Outcome::Value(ValueModel::Bool(less_or_equal(a, b))),
                TokenType::Minus => Outcome::Calculate {
                    operation: Operation::Subtract,
                    left: a,
                    right: b,
                },
                TokenType::Slash => Outcome::Calculate {
                    operation: Operation::Divide,
                    left: a,
                    right: b,
                },
                _ => Outcome::Calculate { operation: Operation::Multiply, left: a, right: b },
            },
            _ => Outcome::Failure(failure_at(operator, "Operands must be numbers."@)),
        },
    }
}

impl<'e> Request<'e> {
    /// The action that puts the request to the host.
    pub open spec fn action(self) -> ActionModel {
        match self {
            Request::Convert(numeral) => ActionModel::Convert(numeral@),
            Request::Calculate { operation, left, right } => ActionModel::Calculate {
                operation,
                left,
                right,
            },
        }
    }
}

impl<'s, 'e> Machine<'s, 'e> {
    /// The machine with one more task on top.
    pub open spec fn with_task(self, task: Task<'s, 'e>) -> Machine<'s, 'e> {
        Machine { tasks: self.tasks.push(task), ..self }
    }

    /// The machine with one more operand on top.
    pub open spec fn holding(self, value: ValueModel) -> Machine<'s, 'e> {
        Machine { operands: self.operands.push(value), ..self }
    }

    /// The machine without its top operand.
    pub open spec fn dropped(self) -> Machine<'s, 'e> {
        Machine { operands: self.operands.drop_last(), ..self }
    }

    /// A step that asks nothing of the host.
    pub open spec fn proceed(self) -> Step<'s, 'e> {
        Step { machine: self, action: ActionModel::Continue }
    }

    /// The step that a runtime error makes: the statement in hand is given
    /// up, with everything inside it; the machine is back in the outermost
    /// scope with only the program's remaining statements to run; and the
    /// error is reported.
    pub open spec fn fail(self, error: RuntimeErrorModel) -> Step<'s, 'e> {
        Step {
            machine: Machine {
                scopes: self.scopes,
                scope: 0,
                tasks: self.tasks.take(1),
                operands: Seq::empty(),
            },
            action: ActionModel::Report(error),
        }
    }

    /// The step that asks the host for a number, and waits for it.
    pub open spec fn ask(self, request: Request<'e>) -> Step<'s, 'e> {
        Step { machine: self.with_task(Task::Answer(request)), action: request.action() }
    }

    /// Running a statement.
    pub open spec fn execute(self, statement: Stmt<'e>) -> Step<'s, 'e> {
        match statement {
            Stmt::Expression(expression) => self.with_task(Task::Discard).with_task(
                Task::Evaluate(expression),
            ).proceed(),
            Stmt::Print(expression) => self.with_task(Task::Print).with_task(
                Task::Evaluate(expression),
            ).proceed(),
            Stmt::Var { name, initializer } => match initializer {
                Some(expression) => self.with_task(Task::Define(name)).with_task(
                    Task::Evaluate(expression),
                ).proceed(),
                None => Machine {
                    scopes: with_binding(self.scopes, self.scope, name.lexeme@, ValueModel::Nil),
                    ..self
                }.proceed(),
            },
            Stmt::Block { statements } => Machine {
                scopes: with_scope(self.scopes, self.scope),
                scope: self.scopes.len(),
                ..self
            }.with_task(Task::Leave(self.scope as usize)).with_task(
                Task::Run { statements: &statements, next: 0 },
            ).proceed(),
        }
    }

    /// Evaluating an expression.  The operands of a binary operator are
    /// evaluated from left to right before the operator is applied.
    pub open spec fn evaluate(self, expression: Expr<'e>) -> Step<'s, 'e> {
        match expression {
            Expr::Literal(literal) => match literal {
                Literal::Bool(b) => self.holding(ValueModel::Bool(*b)).proceed(),
                Literal::String(text) => self.holding(ValueModel::String(text@)).proceed(),
                Literal::Nil => self.holding(ValueModel::Nil).proceed(),
                Literal::Number(numeral) => self.ask(Request::Convert(numeral)),
            },
            Expr::Grouping { expression } => self.with_task(Task::Evaluate(expression)).proceed(),
            Expr::Unary { operator, right } => self.with_task(Task::Unary(operator)).with_task(
                Task::Evaluate(right),
            ).proceed(),
            Expr::Binary { left, operator, right } => self.with_task(Task::Binary(operator)).with_task(
                Task::Evaluate(right),
            ).with_task(Task::Evaluate(left)).proceed(),
            Expr::Variable(name) => match lookup(self.scopes, self.scope, name.lexeme@) {
                Some(value) => self.holding(value).proceed(),
                None => self.fail(undefined(*name)),
            },
            Expr::Assign { name, value } => self.with_task(Task::Assign(name)).with_task(
                Task::Evaluate(value),
            ).proceed(),
        }
    }

    /// Doing a task that has just been taken off the tasks.
    pub open spec fn perform(self, task: Task<'s, 'e>, event: Event) -> Step<'s, 'e> {
        match task {
            Task::Run { statements, next } => if next < statements@.len() {
                self.with_task(Task::Run { statements, next: (next + 1) as usize }).with_task(
                    Task::Execute(&statements@[next as int]),
                ).proceed()
            } else {
                self.proceed()
            },
            Task::Execute(statement) => self.execute(*statement),
            Task::Leave(outer) => Machine { scope: outer as nat, ..self }.proceed(),
            Task::Evaluate(expression) => self.evaluate(*expression),
            Task::Unary(operator) => match unary_result(*operator, self.operands.last()) {
                Ok(value) => self.dropped().holding(value).proceed(),
                Err(error) => self.fail(error),
            },
            Task::Binary(operator) => {
                let right = self.operands.last();
                let left = self.operands.drop_last().last();
                let rest = self.dropped().dropped();
                match binary_result(*operator, left, right) {
                    Outcome::Value(value) => rest.holding(value).proceed(),
                    Outcome::Calculate { operation, left, right } => rest.ask(
                        Request::Calculate { operation, left, right },
                    ),
                    Outcome::Failure(error) => self.fail(error),
                }
            },
            Task::Assign(name) => match resolve(self.scopes, self.scope, name.lexeme@) {
                Some(_) => Machine {
                    scopes: assigned(
                        self.scopes,
                        self.scope,
                        name.lexeme@,
                        self.operands.last(),
                    ),
                    ..self
                }.proceed(),
                None => self.fail(undefined(*name)),
            },
            Task::Define(name) => Machine {
                scopes: with_binding(
                    self.scopes,
                    self.scope,
                    name.lexeme@,
                    self.operands.last(),
                ),
                ..self
            }.dropped().proceed(),
            Task::Discard => self.dropped().proceed(),
            Task::Print => Step {
                machine: self.dropped(),
                action: ActionModel::Print(stringify(self.operands.last())),
            },
            Task::Answer(request) => match event {
                Event::Number(bits) => self.holding(ValueModel::Number(bits)).proceed(),
                Event::Resume => self.ask(request),
            },
        }
    }

    /// One step: the topmost task is taken off and done.  With no task
    /// left, the machine has finished and stays as it is.
    pub open spec fn step(self, event: Event) -> Step<'s, 'e> {
        if self.tasks.len() == 0 {
            Step { machine: self, action: ActionModel::Finished }
        } else {
            Machine { tasks: self.tasks.drop_last(), ..self }.perform(self.tasks.last(), event)
        }
    }
}

/// Whether every operator in the expression is one that its place allows: a
/// unary operator is `!` or `-`, a binary one is one of the ten of the
/// grammar.
pub open spec fn well_formed(expression: Expr) -> bool
    decreases expression,
{
    match expression {
        Expr::Assign { name, value } => well_formed(*value),
        Expr::Binary { left, operator, right } => is_binary_operator(operator.kind) && well_formed(
            *left,
        ) && well_formed(*right),
        Expr::Grouping { expression } => well_formed(*expression),
        Expr::Literal(_) => true,
        Expr::Unary { operator, right } => is_unary_operator(operator.kind) && well_formed(
            *right,
        ),
        Expr::Variable(_) => true,
    }
}

/// Whether every expression in the statement is well formed.
pub open spec fn well_formed_statement(statement: Stmt) -> bool
    decreases statement,
{
    match statement {
        Stmt::Block { statements } => forall|i: int|
            0 <= i < statements@.len() ==> well_formed_statement(#[trigger] statements@[i]),
        Stmt::Expression(expression) => well_formed(*expression),
        Stmt::Print(expression) => well_formed(*expression),
        Stmt::Var { name, initializer } => match initializer {
            Some(expression) => well_formed(*expression),
            None => true,
        },
    }
}

pub open spec fn well_formed_statements(statements: Seq<Stmt>) -> bool {
    forall|i: int| 0 <= i < statements.len() ==> well_formed_statement(#[trigger] statements[i])
}

fn unary_operator(kind: TokenType) -> (ok: bool)
    ensures
        ok == is_unary_operator(kind),
{
    kind == TokenType::Bang || kind == TokenType::Minus
}

fn binary_operator(kind: TokenType) -> (ok: bool)
    ensures
        ok == is_binary_operator(kind),
{
    kind == TokenType::BangEqual || kind == TokenType::EqualEqual || kind == TokenType::Greater
        || kind == TokenType::GreaterEqual || kind == TokenType::Less || kind
        == TokenType::LessEqual || kind == TokenType::Minus || kind == TokenType::Plus || kind
        == TokenType::Slash || kind == TokenType::Star
}

/// Tells whether an expression is well formed.
pub fn expression_is_well_formed(expression: &Expr) -> (ok: bool)
    ensures
        ok == well_formed(*expression),
    decreases *expression,
{
    match expression {
        Expr::Assign { name, value } => expression_is_well_formed(value),
        Expr::Binary { left, operator, right } => binary_operator(operator.kind)
            && expression_is_well_formed(left) && expression_is_well_formed(right),
        Expr::Grouping { expression } => expression_is_well_formed(expression),
        Expr::Literal(_) => true,
        Expr::Unary { operator, right } => unary_operator(operator.kind)
            && expression_is_well_formed(right),
        Expr::Variable(_) => true,
    }
}

/// Tells whether a statement is well formed.
#[verifier::loop_isolation(false)]
pub fn statement_is_well_formed(statement: &Stmt) -> (ok: bool)
    ensures
        ok == well_formed_statement(*statement),
    decreases *statement,
{
    match statement {
        Stmt::Block { statements } => {
            let mut at: usize = 0;
            while at < statements.len()
                invariant
                    at <= statements@.len(),
                    forall|i: int| 0 <= i < at ==> well_formed_statement(#[trigger] statements@[i]),
                decreases statements@.len() - at,
            {
                assert(decreases_to!(*statement => statements@[at as int]));
                if !statement_is_well_formed(&statements[at]) {
                    assert(!well_formed_statement(statements@[at as int]));
                    return false;
                }
                at = at + 1;
            }
            true
        },
        Stmt::Expression(expression) => expression_is_well_formed(expression),
        Stmt::Print(expression) => expression_is_well_formed(expression),
        Stmt::Var { name, initializer } => match initializer {
            Some(expression) => expression_is_well_formed(expression),
            None => true,
        },
    }
}

/// Tells whether every statement of a program is well formed, as the
/// interpreter asks of what it runs.
pub fn statements_are_well_formed(statements: &Vec<Stmt>) -> (ok: bool)
    ensures
        ok == well_formed_statements(statements@),
{
    let mut at: usize = 0;
    while at < statements.len()
        invariant
            at <= statements@.len(),
            forall|i: int| 0 <= i < at ==> well_formed_statement(#[trigger] statements@[i]),
        decreases statements@.len() - at,
    {
        if !statement_is_well_formed(&statements[at]) {
            return false;
        }
        at = at + 1;
    }
    true
}

} // verus!
