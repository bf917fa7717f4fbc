//! The interpreter: the machine of [`crate::semantics`], made of vectors and
//! arena references, and proved to take exactly the steps defined there.
//!
//! [`Interpreter::interpret`] loads a program and hands back an
//! [`Execution`].  The host calls [`Execution::step`] until it answers
//! [`Action::Finished`], doing after each step what the action asks.  A
//! runtime error ends the statement it occurs in; the statements after it
//! still run.

use crate::arena::allocate;
use crate::environment::Environment;
use crate::expr::Expr;
use crate::literal::Literal;
use crate::number::{equals, is_less, is_less_or_equal, negate};
use crate::semantics::{
    binary_result, is_binary_operator, is_unary_operator, stringify, truthy, unary_result,
    values_equal, well_formed, well_formed_statement, well_formed_statements, ActionModel, Event,
    Machine, Operation, Outcome, OutputModel, Request, Task,
};
use crate::stmt::Stmt;
use crate::token::Token;
use crate::token_type::TokenType;
pub use crate::value::{RuntimeError, Value};
use crate::value::ValueModel;
use typed_arena::Arena;
use vstd::prelude::*;
use vstd::string::*;

verus! {

/// What a print statement writes.
#[derive(Debug)]
pub enum Output {
    Text(String),
    Number(u64),
}

impl View for Output {
    type V = OutputModel;

    open spec fn view(&self) -> OutputModel {
        match self {
            Output::Text(text) => OutputModel::Text(text@),
            Output::Number(bits) => OutputModel::Number(*bits),
        }
    }
}

/// What the machine asks of the host after a step.
#[derive(Debug)]
pub enum Action {
    Continue,
    Convert(String),
    Calculate { operation: Operation, left: u64, right: u64 },
    Print(Output),
    Report(RuntimeError),
    Finished,
}

impl View for Action {
    type V = ActionModel;

    open spec fn view(&self) -> ActionModel {
        match self {
            Action::Continue => ActionModel::Continue,
            Action::Convert(numeral) => ActionModel::Convert(numeral@),
            Action::Calculate { operation, left, right } => ActionModel::Calculate {
                operation: *operation,
                left: *left,
                right: *right,
            },
            Action::Print(output) => ActionModel::Print(output@),
            Action::Report(error) => ActionModel::Report(error@),
            Action::Finished => ActionModel::Finished,
        }
    }
}

/// What a binary operator makes of two values.
#[derive(Debug)]
pub enum Verdict {
    Value(Value),
    Calculate { operation: Operation, left: u64, right: u64 },
    Failure(RuntimeError),
}

impl View for Verdict {
    type V = Outcome;

    open spec fn view(&self) -> Outcome {
        match self {
            Verdict::Value(value) => Outcome::Value(value@),
            Verdict::Calculate { operation, left, right } => Outcome::Calculate {
                operation: *operation,
                left: *left,
                right: *right,
            },
            Verdict::Failure(error) => Outcome::Failure(error@),
        }
    }
}

/// Whether a task is one that the machine can do: its expressions and
/// statements are well formed, its operator is of the right kind, the scope
/// it goes back to exists.
pub open spec fn task_ok(task: Task, scopes: nat) -> bool {
    match task {
        Task::Run { statements, next } => next <= statements@.len() && well_formed_statements(
            statements@,
        ),
        Task::Execute(statement) => well_formed_statement(*statement),
        Task::Leave(outer) => outer < scopes,
        Task::Evaluate(expression) => well_formed(*expression),
        Task::Unary(operator) => is_unary_operator(operator.kind),
        Task::Binary(operator) => is_binary_operator(operator.kind),
        _ => true,
    }
}

/// Whether `count` operands are enough for the tasks, done from the last
/// to the first: each task finds the operands it takes.
pub open spec fn fits(tasks: Seq<Task>, count: int) -> bool
    decreases tasks.len(),
{
    if tasks.len() == 0 {
        true
    } else {
        let rest = tasks.drop_last();
        match tasks.last() {
            Task::Evaluate(_) | Task::Answer(_) => fits(rest, count + 1),
            Task::Unary(_) | Task::Assign(_) => count >= 1 && fits(rest, count),
            Task::Binary(_) => count >= 2 && fits(rest, count - 1),
            Task::Define(_) | Task::Discard | Task::Print => count >= 1 && fits(rest, count - 1),
            Task::Run { .. } | Task::Execute(_) | Task::Leave(_) => fits(rest, count),
        }
    }
}

/// What holds of the machine between steps.
pub open spec fn consistent(machine: Machine) -> bool {
    &&& machine.scope < machine.scopes.len() <= usize::MAX
    &&& forall|i: int|
        0 <= i < machine.tasks.len() ==> task_ok(#[trigger] machine.tasks[i], machine.scopes.len())
    &&& machine.tasks.len() > 0 ==> machine.tasks[0] is Run
    &&& fits(machine.tasks, machine.operands.len() as int)
}

/// What is known of a machine whose topmost task has just been taken off:
/// the task was the last and the rest are the tasks before it; the task and
/// the rest are ones that the machine can do; and any task but the one that
/// runs the program has that one beneath it.
proof fn lemma_taken<'s, 'e>(popped: Machine<'s, 'e>, task: Task<'s, 'e>)
    requires
        consistent(popped.with_task(task)),
    ensures
        popped.with_task(task).tasks.drop_last() == popped.tasks,
        popped.with_task(task).tasks.last() == task,
        task_ok(task, popped.scopes.len()),
        forall|i: int|
            0 <= i < popped.tasks.len() ==> task_ok(#[trigger] popped.tasks[i], popped.scopes.len()),
        popped.tasks.len() >= 1 ==> popped.tasks[0] is Run,
        !(task is Run) ==> popped.tasks.len() >= 1,
{
    let whole = popped.with_task(task);
    assert(whole.tasks.drop_last() =~= popped.tasks);
    assert(task_ok(whole.tasks[whole.tasks.len() - 1], whole.scopes.len()));
    assert forall|i: int| 0 <= i < popped.tasks.len() implies task_ok(
        #[trigger] popped.tasks[i],
        popped.scopes.len(),
    ) by {
        assert(popped.tasks[i] == whole.tasks[i]);
    }
    if popped.tasks.len() >= 1 {
        assert(popped.tasks[0] == whole.tasks[0]);
    } else {
        assert(whole.tasks[0] == task);
    }
}

pub open spec fn value_models<'v>(values: Seq<&'v Value>) -> Seq<ValueModel> {
    values.map_values(|value: &'v Value| value@)
}

pub struct Interpreter<'v> {
    arena: &'v Arena<Value>,
    environment: Environment<'v>,
}

/// A program being run.
pub struct Execution<'s, 'e, 'v> {
    arena: &'v Arena<Value>,
    environment: Environment<'v>,
    scope: usize,
    tasks: Vec<Task<'s, 'e>>,
    operands: Vec<&'v Value>,
}

impl<'v> Interpreter<'v> {
    /// The scopes and what they bind.
    pub closed spec fn scopes(&self) -> Seq<crate::environment::ScopeModel> {
        self.environment@
    }

    pub closed spec fn wf(&self) -> bool {
        self.environment.wf() && 1 <= self.environment@.len() <= usize::MAX
    }

    /// An interpreter with one scope, the outermost, and nothing bound.
    pub fn new(arena: &'v Arena<Value>) -> (interpreter: Interpreter<'v>)
        ensures
            interpreter.wf(),
            interpreter.scopes() == seq![
                crate::environment::ScopeModel { enclosing: None, bindings: Map::empty() },
            ],
    {
        let environment = Environment::new();
        // Asking for the count shows that it is one a `usize` can hold.
        let _count: usize = environment.len();
        Interpreter { arena, environment }
    }

    /// Loads a program: the machine that will run `statements` in order, in
    /// the outermost scope, with nothing done yet.
    pub fn interpret<'s, 'e>(self, statements: &'s Vec<Stmt<'e>>) -> (execution: Execution<
        's,
        'e,
        'v,
    >)
        requires
            self.wf(),
            well_formed_statements(statements@),
        ensures
            execution.wf(),
            execution@ == (Machine {
                scopes: self.scopes(),
                scope: 0,
                tasks: seq![Task::Run { statements, next: 0 }],
                operands: Seq::empty(),
            }),
    {
        let mut tasks: Vec<Task<'s, 'e>> = Vec::new();
        tasks.push(Task::Run { statements, next: 0 });
        let execution = Execution {
            arena: self.arena,
            environment: self.environment,
            scope: 0,
            tasks,
            operands: Vec::new(),
        };
        assert(execution@.tasks =~= seq![Task::Run { statements, next: 0 }]);
        assert(execution@.operands =~= Seq::<ValueModel>::empty());
        assert(fits(execution@.tasks, 0)) by {
            reveal_with_fuel(fits, 2);
        }
        execution
    }

    /// Whether a value counts as true.
    pub fn is_truthy(value: &Value) -> (truth: bool)
        ensures
            truth == truthy(value@),
    {
        match value {
            Value::Nil => false,
            Value::Bool(b) => *b,
            _ => true,
        }
    }

    /// Whether two values are equal.
    pub fn is_equal(a: &Value, b: &Value) -> (same: bool)
        ensures
            same == values_equal(a@, b@),
    {
        match (a, b) {
            (Value::Bool(a), Value::Bool(b)) => *a == *b,
            (Value::Number(a), Value::Number(b)) => equals(*a, *b),
            (Value::String(a), Value::String(b)) => *a == *b,
            (Value::Nil, Value::Nil) => true,
            _ => false,
        }
    }

    /// How a value reads when printed.
    pub fn stringify(value: &Value) -> (output: Output)
        ensures
            output@ == stringify(value@),
    {
        match value {
            Value::Nil => Output::Text(String::from_str("nil")),
            Value::Number(bits) => Output::Number(*bits),
            Value::Bool(b) => Output::Text(String::from_str(if *b { "true" } else { "false" })),
            Value::String(text) => Output::Text(text.clone()),
        }
    }

    fn failure(operator: &Token, message: &str) -> (error: RuntimeError)
        ensures
            error@ == crate::semantics::failure_at(*operator, message@),
    {
        RuntimeError::new(operator, String::from_str(message))
    }

    /// The number that an operand is, or the failure of the operator that
    /// wants one.
    pub fn check_number_operand(operator: &Token, operand: &Value) -> (number: Result<
        u64,
        RuntimeError,
    >)
        ensures
            match operand@ {
                ValueModel::Number(bits) => number == Ok::<u64, RuntimeError>(bits),
                _ => number matches Err(error) && error@ == crate::semantics::failure_at(
                    *operator,
                    "Operand must be a number."@,
                ),
            },
    {
        match operand {
            Value::Number(bits) => Ok(*bits),
            _ => Err(Interpreter::failure(operator, "Operand must be a number.")),
        }
    }

    /// The two numbers that two operands are, or the failure of the
    /// operator that wants them.
    pub fn check_number_operands(operator: &Token, left: &Value, right: &Value) -> (numbers: Result<
        (u64, u64),
        RuntimeError,
    >)
        ensures
            match (left@, right@) {
                (ValueModel::Number(a), ValueModel::Number(b)) => numbers == Ok::<
                    (u64, u64),
                    RuntimeError,
                >((a, b)),
                _ => numbers matches Err(error) && error@ == crate::semantics::failure_at(
                    *operator,
                    "Operands must be numbers."@,
                ),
            },
    {
        match (left, right) {
            (Value::Number(left), Value::Number(right)) => Ok((*left, *right)),
            _ => Err(Interpreter::failure(operator, "Operands must be numbers.")),
        }
    }

    /// A unary operator applied to a value.
    pub fn unary(operator: &Token, operand: &Value) -> (result: Result<Value, RuntimeError>)
        requires
            is_unary_operator(operator.kind),
        ensures
            match unary_result(*operator, operand@) {
                Ok(value) => result matches Ok(found) && found@ == value,
                Err(error) => result matches Err(raised) && raised@ == error,
            },
    {
        if operator.kind == TokenType::Bang {
            Ok(Value::Bool(!Interpreter::is_truthy(operand)))
        } else {
            match Interpreter::check_number_operand(operator, operand) {
                Ok(number) => Ok(Value::Number(negate(number))),
                Err(error) => Err(error),
            }
        }
    }

    /// A binary operator applied to two values: the value where the
    /// interpreter can tell it, the calculation to ask the host for where
    /// it is arithmetic on two numbers, or the failure.
    pub fn binary(operator: &Token, left: &Value, right: &Value) -> (verdict: Verdict)
        requires
            is_binary_operator(operator.kind),
        ensures
            verdict@ == binary_result(*operator, left@, right@),
    {
        match operator.kind {
            TokenType::BangEqual => Verdict::Value(
                Value::Bool(!Interpreter::is_equal(left, right)),
            ),
            TokenType::EqualEqual => Verdict::Value(
                Value::Bool(Interpreter::is_equal(left, right)),
            ),
            TokenType::Plus => {
                match Interpreter::check_number_operands(operator, left, right) {
                    Ok((a, b)) => Verdict::Calculate { operation: Operation::Add, left: a, right: b },
                    Err(_) => match (left, right) {
                        (Value::String(a), Value::String(b)) => {
                            let mut joined: String = a.clone();
                            joined.append(b.as_str());
                            Verdict::Value(Value::String(joined))
                        },
                        _ => Verdict::Failure(
                            Interpreter::failure(
                                operator,
                                "Operands must be two numbers or two strings.",
                            ),
                        ),
                    },
                }
            },
            _ => match Interpreter::check_number_operands(operator, left, right) {
                Err(error) => Verdict::Failure(error),
                Ok((a, b)) => match operator.kind {
                    TokenType::Greater => Verdict::Value(Value::Bool(is_less(b, a))),
                    TokenType::GreaterEqual => Verdict::Value(
                        Value::Bool(is_less_or_equal(b, a)),
                    ),
                    TokenType::Less => Verdict::Value(Value::Bool(is_less(a, b))),
                    TokenType::LessEqual => Verdict::Value(Value::Bool(is_less_or_equal(a, b))),
                    TokenType::Minus => Verdict::Calculate {
                        operation: Operation::Subtract,
                        left: a,
                        right: b,
                    },
                    TokenType::Slash => Verdict::Calculate {
                        operation: Operation::Divide,
                        left: a,
                        right: b,
                    },
                    _ => Verdict::Calculate { operation: Operation::Multiply, left: a, right: b },
                },
            },
        }
    }
}

impl<'s, 'e, 'v> View for Execution<'s, 'e, 'v> {
    type V = Machine<'s, 'e>;

    closed spec fn view(&self) -> Machine<'s, 'e> {
        Machine {
            scopes: self.environment@,
            scope: self.scope as nat,
            tasks: self.tasks@,
            operands: value_models(self.operands@),
        }
    }
}

impl<'s, 'e, 'v> Execution<'s, 'e, 'v> {
    pub closed spec fn wf(&self) -> bool {
        self.environment.wf() && consistent(self@)
    }

    /// Whether nothing is left to do.
    pub fn is_finished(&self) -> (finished: bool)
        ensures
            finished == (self@.tasks.len() == 0),
    {
        self.tasks.len() == 0
    }

    /// Ends the run and hands the interpreter back, with the scopes as the
    /// run left them.
    pub fn finish(self) -> (interpreter: Interpreter<'v>)
        requires
            self.wf(),
        ensures
            interpreter.wf(),
            interpreter.scopes() == self@.scopes,
    {
        Interpreter { arena: self.arena, environment: self.environment }
    }

    /// Takes one step: exactly the step of the machine.
    pub fn step(&mut self, event: Event) -> (action: Action)
        requires
            old(self).wf(),
        ensures
            final(self).wf(),
            final(self)@ == old(self)@.step(event).machine,
            action@ == old(self)@.step(event).action,
    {
        let ghost before = self@;
        proof {
            reveal_with_fuel(fits, 2);
        }
        let task = match self.tasks.pop() {
            Some(task) => task,
            None => {
                return Action::Finished;
            },
        };
        assert(self@.tasks =~= before.tasks.drop_last());
        assert(task == before.tasks.last());
        assert(self@.tasks.push(task) =~= before.tasks);
        assert(self@.with_task(task) == before);
        match task {
            Task::Run { statements, next } => self.run(statements, next, Ghost(event)),
            Task::Execute(statement) => self.execute(statement),
            Task::Leave(outer) => {
                self.scope = outer;
                Action::Continue
            },
            Task::Evaluate(expression) => self.evaluate(expression),
            Task::Unary(operator) => self.apply_unary(operator, Ghost(event)),
            Task::Binary(operator) => self.apply_binary(operator, Ghost(event)),
            Task::Assign(name) => self.assign(name, Ghost(event)),
            Task::Define(name) => self.define(name, Ghost(event)),
            Task::Discard => {
                self.pop();
                Action::Continue
            },
            Task::Print => {
                let value = self.pop();
                Action::Print(Interpreter::stringify(value))
            },
            Task::Answer(request) => self.answer(request, event),
        }
    }

    /// What holds once the topmost task has been taken off: the machine was
    /// consistent with the task still on.
    spec fn taken(&self, task: Task<'s, 'e>) -> bool {
        self.environment.wf() && consistent(self@.with_task(task))
    }

    fn push(&mut self, value: Value)
        requires
            old(self).environment.wf(),
        ensures
            final(self)@ == old(self)@.holding(value@),
            final(self).environment.wf(),
    {
        let slot = allocate(self.arena, value);
        self.operands.push(slot);
        assert(self@.operands =~= old(self)@.operands.push(value@));
    }

    fn pop(&mut self) -> (value: &'v Value)
        requires
            old(self).operands@.len() >= 1,
            old(self).environment.wf(),
        ensures
            final(self)@ == old(self)@.dropped(),
            value@ == old(self)@.operands.last(),
            final(self).environment.wf(),
    {
        let value = self.operands.pop().unwrap();
        assert(self@.operands =~= old(self)@.operands.drop_last());
        value
    }

    fn add_task(&mut self, task: Task<'s, 'e>)
        ensures
            final(self)@ == old(self)@.with_task(task),
            final(self).environment == old(self).environment,
    {
        self.tasks.push(task);
    }

    /// Gives up the statement in hand and reports the error.
    fn fail(&mut self, error: RuntimeError) -> (action: Action)
        requires
            old(self).environment.wf(),
            old(self)@.tasks.len() >= 1,
            old(self)@.tasks[0] is Run,
            1 <= old(self)@.scopes.len() <= usize::MAX,
            task_ok(old(self)@.tasks[0], old(self)@.scopes.len()),
        ensures
            final(self).wf(),
            final(self)@ == old(self)@.fail(error@).machine,
            action@ == old(self)@.fail(error@).action,
    {
        self.tasks.truncate(1);
        self.operands.clear();
        self.scope = 0;
        assert(self@.tasks =~= old(self)@.tasks.take(1));
        assert(self@.operands =~= Seq::<ValueModel>::empty());
        assert(fits(self@.tasks, 0)) by {
            reveal_with_fuel(fits, 2);
        }
        Action::Report(error)
    }

    fn run(&mut self, statements: &'s Vec<Stmt<'e>>, next: usize, Ghost(event): Ghost<Event>) -> (action: Action)
        requires
            old(self).taken(Task::Run { statements, next }),
        ensures
            final(self).wf(),
            final(self)@ == old(self)@.perform(
                Task::Run { statements, next },
                event,
            ).machine,
            action@ == old(self)@.perform(Task::Run { statements, next }, event).action,
    {
        let ghost popped = self@;
        proof {
            reveal_with_fuel(fits, 3);
            lemma_taken(popped, Task::Run { statements, next });
        }
        if next < statements.len() {
            self.add_task(Task::Run { statements, next: next + 1 });
            self.add_task(Task::Execute(&statements[next]));
            assert(self@.tasks.drop_last().drop_last() =~= popped.tasks);
            assert(self@.tasks.drop_last() =~= popped.tasks.push(
                Task::Run { statements, next: (next + 1) as usize },
            ));
        }
        Action::Continue
    }

    fn execute(&mut self, statement: &'s Stmt<'e>) -> (action: Action)
        requires
            old(self).taken(Task::Execute(statement)),
        ensures
            final(self).wf(),
            final(self)@ == old(self)@.execute(*statement).machine,
            action@ == old(self)@.execute(*statement).action,
    {
        let ghost popped = self@;
        proof {
            reveal_with_fuel(fits, 4);
            lemma_taken(popped, Task::Execute(statement));
        }
        match statement {
            Stmt::Expression(expression) => {
                self.add_task(Task::Discard);
                self.add_task(Task::Evaluate(expression));
                assert(self@.tasks.drop_last().drop_last() =~= popped.tasks);
                assert(self@.tasks.drop_last() =~= popped.tasks.push(Task::Discard));
            },
            Stmt::Print(expression) => {
                self.add_task(Task::Print);
                self.add_task(Task::Evaluate(expression));
                assert(self@.tasks.drop_last().drop_last() =~= popped.tasks);
                assert(self@.tasks.drop_last() =~= popped.tasks.push(Task::Print));
            },
            Stmt::Var { name, initializer } => match initializer {
                Some(expression) => {
                    self.add_task(Task::Define(name));
                    self.add_task(Task::Evaluate(expression));
                    assert(self@.tasks.drop_last().drop_last() =~= popped.tasks);
                    assert(self@.tasks.drop_last() =~= popped.tasks.push(Task::Define(*name)));
                },
                None => {
                    let nil = allocate(self.arena, Value::Nil);
                    self.environment.define(self.scope, name.lexeme.clone(), nil);
                    assert(self@.scopes.len() == popped.scopes.len());
                    assert(self@.tasks == popped.tasks);
                },
            },
            Stmt::Block { statements } => {
                let outer: usize = self.scope;
                let inner: usize = self.environment.new_with_enclosing(outer);
                // Asking for the count shows that it is one a `usize` can hold.
                let _count: usize = self.environment.len();
                self.scope = inner;
                self.add_task(Task::Leave(outer));
                self.add_task(Task::Run { statements, next: 0 });
                assert(self@.tasks.drop_last().drop_last() =~= popped.tasks);
                assert(self@.tasks.drop_last() =~= popped.tasks.push(Task::Leave(outer)));
                assert(forall|i: int|
                    0 <= i < popped.tasks.len() ==> task_ok(
                        #[trigger] popped.tasks[i],
                        popped.scopes.len(),
                    ) ==> task_ok(popped.tasks[i], self@.scopes.len()));
            },
        }
        Action::Continue
    }

    fn evaluate(&mut self, expression: &'e Expr<'e>) -> (action: Action)
        requires
            old(self).taken(Task::Evaluate(expression)),
        ensures
            final(self).wf(),
            final(self)@ == old(self)@.evaluate(*expression).machine,
            action@ == old(self)@.evaluate(*expression).action,
    {
        let ghost popped = self@;
        proof {
            reveal_with_fuel(fits, 4);
            lemma_taken(popped, Task::Evaluate(expression));
        }
        match expression {
            Expr::Literal(literal) => match literal {
                Literal::Bool(b) => {
                    self.push(Value::Bool(*b));
                },
                Literal::String(text) => {
                    self.push(Value::String(text.clone()));
                },
                Literal::Nil => {
                    self.push(Value::Nil);
                },
                Literal::Number(numeral) => {
                    self.add_task(Task::Answer(Request::Convert(numeral)));
                    assert(self@.tasks.drop_last() =~= popped.tasks);
                    return Action::Convert(numeral.clone());
                },
            },
            Expr::Grouping { expression } => {
                self.add_task(Task::Evaluate(expression));
                assert(self@.tasks.drop_last() =~= popped.tasks);
            },
            Expr::Unary { operator, right } => {
                self.add_task(Task::Unary(operator));
                self.add_task(Task::Evaluate(right));
                assert(self@.tasks.drop_last().drop_last() =~= popped.tasks);
                assert(self@.tasks.drop_last() =~= popped.tasks.push(Task::Unary(*operator)));
            },
            Expr::Binary { left, operator, right } => {
                self.add_task(Task::Binary(operator));
                self.add_task(Task::Evaluate(right));
                self.add_task(Task::Evaluate(left));
                assert(self@.tasks.drop_last().drop_last().drop_last() =~= popped.tasks);
                assert(self@.tasks.drop_last().drop_last() =~= popped.tasks.push(
                    Task::Binary(*operator),
                ));
                assert(self@.tasks.drop_last() =~= popped.tasks.push(
                    Task::Binary(*operator),
                ).push(Task::Evaluate(*right)));
            },
            Expr::Variable(name) => {
                match self.environment.get(self.scope, name) {
                    Ok(value) => {
                        self.operands.push(value);
                        assert(self@.operands =~= popped.operands.push(value@));
                    },
                    Err(error) => {
                        return self.fail(error);
                    },
                }
            },
            Expr::Assign { name, value } => {
                self.add_task(Task::Assign(name));
                self.add_task(Task::Evaluate(value));
                assert(self@.tasks.drop_last().drop_last() =~= popped.tasks);
                assert(self@.tasks.drop_last() =~= popped.tasks.push(Task::Assign(*name)));
            },
        }
        Action::Continue
    }

    fn apply_unary(&mut self, operator: &'e Token, Ghost(event): Ghost<Event>) -> (action: Action)
        requires
            old(self).taken(Task::Unary(operator)),
        ensures
            final(self).wf(),
            final(self)@ == old(self)@.perform(Task::Unary(operator), event).machine,
            action@ == old(self)@.perform(Task::Unary(operator), event).action,
    {
        let ghost popped = self@;
        proof {
            reveal_with_fuel(fits, 3);
            lemma_taken(popped, Task::Unary(operator));
        }
        let operand = self.operands[self.operands.len() - 1];
        assert(operand@ == popped.operands.last());
        match Interpreter::unary(operator, operand) {
            Ok(value) => {
                self.pop();
                self.push(value);
                Action::Continue
            },
            Err(error) => self.fail(error),
        }
    }

    fn apply_binary(&mut self, operator: &'e Token, Ghost(event): Ghost<Event>) -> (action: Action)
        requires
            old(self).taken(Task::Binary(operator)),
        ensures
            final(self).wf(),
            final(self)@ == old(self)@.perform(Task::Binary(operator), event).machine,
            action@ == old(self)@.perform(Task::Binary(operator), event).action,
    {
        let ghost popped = self@;
        proof {
            reveal_with_fuel(fits, 3);
            lemma_taken(popped, Task::Binary(operator));
        }
        let right = self.operands[self.operands.len() - 1];
        let left = self.operands[self.operands.len() - 2];
        assert(right@ == popped.operands.last());
        assert(left@ == popped.operands.drop_last().last());
        match Interpreter::binary(operator, left, right) {
            Verdict::Value(value) => {
                self.pop();
                self.pop();
                self.push(value);
                Action::Continue
            },
            Verdict::Calculate { operation, left, right } => {
                self.pop();
                self.pop();
                self.add_task(Task::Answer(Request::Calculate { operation, left, right }));
                assert(self@.tasks.drop_last() =~= popped.tasks);
                Action::Calculate { operation, left, right }
            },
            Verdict::Failure(error) => self.fail(error),
        }
    }

    fn assign(&mut self, name: &'e Token, Ghost(event): Ghost<Event>) -> (action: Action)
        requires
            old(self).taken(Task::Assign(name)),
        ensures
            final(self).wf(),
            final(self)@ == old(self)@.perform(Task::Assign(name), event).machine,
            action@ == old(self)@.perform(Task::Assign(name), event).action,
    {
        let ghost popped = self@;
        proof {
            reveal_with_fuel(fits, 3);
            lemma_taken(popped, Task::Assign(name));
        }
        let value = self.operands[self.operands.len() - 1];
        assert(value@ == popped.operands.last());
        match self.environment.assign(self.scope, name, value) {
            Ok(_) => {
                assert(self@.scopes.len() == popped.scopes.len());
                assert(self@.tasks == popped.tasks);
                Action::Continue
            },
            Err(error) => self.fail(error),
        }
    }

    fn define(&mut self, name: &'e Token, Ghost(event): Ghost<Event>) -> (action: Action)
        requires
            old(self).taken(Task::Define(name)),
        ensures
            final(self).wf(),
            final(self)@ == old(self)@.perform(Task::Define(name), event).machine,
            action@ == old(self)@.perform(Task::Define(name), event).action,
    {
        let ghost popped = self@;
        proof {
            reveal_with_fuel(fits, 3);
            lemma_taken(popped, Task::Define(name));
        }
        let value = self.pop();
        self.environment.define(self.scope, name.lexeme.clone(), value);
        assert(self@.scopes.len() == popped.scopes.len());
        assert(self@.tasks == popped.tasks);
        Action::Continue
    }

    fn answer(&mut self, request: Request<'e>, event: Event) -> (action: Action)
        requires
            old(self).taken(Task::Answer(request)),
        ensures
            final(self).wf(),
            final(self)@ == old(self)@.perform(Task::Answer(request), event).machine,
            action@ == old(self)@.perform(Task::Answer(request), event).action,
    {
        let ghost popped = self@;
        proof {
            reveal_with_fuel(fits, 3);
            lemma_taken(popped, Task::Answer(request));
        }
        match event {
            Event::Number(bits) => {
                self.push(Value::Number(bits));
                Action::Continue
            },
            Event::Resume => {
                let action = match &request {
                    Request::Convert(numeral) => Action::Convert((*numeral).clone()),
                    Request::Calculate { operation, left, right } => Action::Calculate {
                        operation: *operation,
                        left: *left,
                        right: *right,
                    },
                };
                self.add_task(Task::Answer(request));
                assert(self@.tasks.drop_last() =~= popped.tasks);
                action
            },
        }
    }
}

} // verus!
