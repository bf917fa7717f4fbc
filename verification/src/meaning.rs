//! What a program means, told in one go rather than step by step: the value
//! of an expression, the effects of a statement, and the proof that the
//! machine of [`crate::semantics`], run with a host that answers its
//! requests, arrives at exactly these.

use crate::environment::{assigned, lookup, resolve, with_binding, with_scope, ScopeModel};
use crate::expr::Expr;
use crate::literal::Literal;
use crate::semantics::{
    binary_result, stringify, unary_result, ActionModel, Event, Machine, Operation, Outcome,
    OutputModel, Request, Task,
};
use crate::stmt::Stmt;
use crate::value::{undefined, RuntimeErrorModel, ValueModel};
use vstd::prelude::*;

verus! {

/// The host's arithmetic: the number that a numeral stands for, and the
/// result of each operation.
pub struct Host {
    pub convert: spec_fn(Seq<char>) -> u64,
    pub calculate: spec_fn(Operation, u64, u64) -> u64,
}

/// What a run lets the outside see.
pub enum Effect {
    Print(OutputModel),
    Report(RuntimeErrorModel),
}

impl Host {
    /// What the host answers to an action.
    pub open spec fn answer(self, action: ActionModel) -> Event {
        match action {
            ActionModel::Convert(numeral) => Event::Number((self.convert)(numeral)),
            ActionModel::Calculate { operation, left, right } => Event::Number(
                (self.calculate)(operation, left, right),
            ),
            _ => Event::Resume,
        }
    }
}

/// What an action lets the outside see.
pub open spec fn effect(action: ActionModel) -> Seq<Effect> {
    match action {
        ActionModel::Print(output) => seq![Effect::Print(output)],
        ActionModel::Report(error) => seq![Effect::Report(error)],
        _ => Seq::empty(),
    }
}

/// Where a run has got to: the machine, the event that the host will hand
/// it next, and the effects so far.
pub struct Run<'s, 'e> {
    pub machine: Machine<'s, 'e>,
    pub event: Event,
    pub effects: Seq<Effect>,
}

/// The machine run for a number of steps, the host answering each action.
pub open spec fn run<'s, 'e>(host: Host, machine: Machine<'s, 'e>, event: Event, steps: nat) -> Run<
    's,
    'e,
>
    decreases steps,
{
    if steps == 0 {
        Run { machine, event, effects: Seq::empty() }
    } else {
        let step = machine.step(event);
        let rest = run(host, step.machine, host.answer(step.action), (steps - 1) as nat);
        Run { machine: rest.machine, event: rest.event, effects: effect(step.action) + rest.effects }
    }
}

/// The value of an expression, or the error that evaluating it raises; the
/// scopes as the evaluation leaves them; and the steps that the machine
/// takes over it.
pub struct Evaluated {
    pub scopes: Seq<ScopeModel>,
    pub result: Result<ValueModel, RuntimeErrorModel>,
    pub steps: nat,
}

/// Evaluating an expression in a scope.
pub open spec fn evaluated(host: Host, scopes: Seq<ScopeModel>, scope: nat, expression: Expr) -> Evaluated
    decreases expression,
{
    match expression {
        Expr::Literal(literal) => match literal {
            Literal::Bool(b) => Evaluated { scopes, result: Ok(ValueModel::Bool(*b)), steps: 1 },
            Literal::String(text) => Evaluated {
                scopes,
                result: Ok(ValueModel::String(text@)),
                steps: 1,
            },
            Literal::Nil => Evaluated { scopes, result: Ok(ValueModel::Nil), steps: 1 },
            Literal::Number(numeral) => Evaluated {
                scopes,
                result: Ok(ValueModel::Number((host.convert)(numeral@))),
                steps: 2,
            },
        },
        Expr::Grouping { expression } => {
            let inner = evaluated(host, scopes, scope, *expression);
            Evaluated { scopes: inner.scopes, result: inner.result, steps: 1 + inner.steps }
        },
        Expr::Unary { operator, right } => {
            let operand = evaluated(host, scopes, scope, *right);
            match operand.result {
                Err(_) => Evaluated {
                    scopes: operand.scopes,
                    result: operand.result,
                    steps: 1 + operand.steps,
                },
                Ok(value) => Evaluated {
                    scopes: operand.scopes,
                    result: unary_result(*operator, value),
                    steps: 2 + operand.steps,
                },
            }
        },
        Expr::Binary { left, operator, right } => {
            let first = evaluated(host, scopes, scope, *left);
            match first.result {
                Err(_) => Evaluated {
                    scopes: first.scopes,
                    result: first.result,
                    steps: 1 + first.steps,
                },
                Ok(a) => {
                    let second = evaluated(host, first.scopes, scope, *right);
                    match second.result {
                        Err(_) => Evaluated {
                            scopes: second.scopes,
                            result: second.result,
                            steps: 1 + first.steps + second.steps,
                        },
                        Ok(b) => match binary_result(*operator, a, b) {
                            Outcome::Value(value) => Evaluated {
                                scopes: second.scopes,
                                result: Ok(value),
                                steps: 2 + first.steps + second.steps,
                            },
                            Outcome::Calculate { operation, left, right } => Evaluated {
                                scopes: second.scopes,
                                result: Ok(
                                    ValueModel::Number((host.calculate)(operation, left, right)),
                                ),
                                steps: 3 + first.steps + second.steps,
                            },
                            Outcome::Failure(error) => Evaluated {
                                scopes: second.scopes,
                                result: Err(error),
                                steps: 2 + first.steps + second.steps,
                            },
                        },
                    }
                },
            }
        },
        Expr::Variable(name) => Evaluated {
            scopes,
            result: match lookup(scopes, scope, name.lexeme@) {
                Some(value) => Ok(value),
                None => Err(undefined(*name)),
            },
            steps: 1,
        },
        Expr::Assign { name, value } => {
            let assigned_value = evaluated(host, scopes, scope, *value);
            match assigned_value.result {
                Err(_) => Evaluated {
                    scopes: assigned_value.scopes,
                    result: assigned_value.result,
                    steps: 1 + assigned_value.steps,
                },
                Ok(found) => Evaluated {
                    scopes: assigned(assigned_value.scopes, scope, name.lexeme@, found),
                    result: match resolve(assigned_value.scopes, scope, name.lexeme@) {
                        Some(_) => Ok(found),
                        None => Err(undefined(*name)),
                    },
                    steps: 2 + assigned_value.steps,
                },
            }
        },
    }
}

/// Where the machine is once an evaluation that began in `machine` is over:
/// the value on the operands if there is one; if not, the statement given
/// up and the error reported.
pub open spec fn after_evaluation<'s, 'e>(machine: Machine<'s, 'e>, outcome: Evaluated) -> Run<
    's,
    'e,
> {
    match outcome.result {
        Ok(value) => Run {
            machine: Machine { scopes: outcome.scopes, ..machine }.holding(value),
            event: Event::Resume,
            effects: Seq::empty(),
        },
        Err(error) => Run {
            machine: Machine {
                scopes: outcome.scopes,
                scope: 0,
                tasks: machine.tasks.take(1),
                operands: Seq::empty(),
            },
            event: Event::Resume,
            effects: seq![Effect::Report(error)],
        },
    }
}

/// Running on from where a run has got to.
pub open spec fn continued<'s, 'e>(host: Host, so_far: Run<'s, 'e>, steps: nat) -> Run<'s, 'e> {
    let rest = run(host, so_far.machine, so_far.event, steps);
    Run { machine: rest.machine, event: rest.event, effects: so_far.effects + rest.effects }
}

/// A run of so many steps and so many more is the one continued by the
/// other.
pub proof fn lemma_run_in_two<'s, 'e>(
    host: Host,
    machine: Machine<'s, 'e>,
    event: Event,
    first: nat,
    second: nat,
)
    ensures
        run(host, machine, event, first + second) == continued(
            host,
            run(host, machine, event, first),
            second,
        ),
    decreases first,
{
    if first == 0 {
        let rest = run(host, machine, event, second);
        assert(Seq::<Effect>::empty() + rest.effects =~= rest.effects);
    } else {
        let step = machine.step(event);
        lemma_run_in_two(
            host,
            step.machine,
            host.answer(step.action),
            (first - 1) as nat,
            second,
        );
        let a = run(host, step.machine, host.answer(step.action), (first - 1) as nat);
        let b = run(host, a.machine, a.event, second);
        assert((effect(step.action) + a.effects) + b.effects =~= effect(step.action) + (a.effects
            + b.effects));
        assert(((first + second) - 1) as nat == (first - 1) as nat + second);
    }
}

/// The step that a machine takes with a task on top is the doing of that
/// task.
pub proof fn lemma_step<'s, 'e>(machine: Machine<'s, 'e>, task: Task<'s, 'e>, event: Event)
    ensures
        machine.with_task(task).step(event) == machine.perform(task, event),
{
    assert(machine.tasks.push(task).drop_last() =~= machine.tasks);
    assert((Machine { tasks: machine.tasks.push(task).drop_last(), ..machine }) == machine);
}

/// One step and then a run, as one run.
pub proof fn lemma_run_after_step<'s, 'e>(
    host: Host,
    machine: Machine<'s, 'e>,
    task: Task<'s, 'e>,
    event: Event,
    steps: nat,
)
    ensures
        run(host, machine.with_task(task), event, 1 + steps) == continued(
            host,
            Run {
                machine: machine.perform(task, event).machine,
                event: host.answer(machine.perform(task, event).action),
                effects: effect(machine.perform(task, event).action),
            },
            steps,
        ),
{
    lemma_step(machine, task, event);
    assert(((1 + steps) - 1) as nat == steps);
}

/// Tasks put on top of a machine's tasks leave the first of them the
/// first.
pub proof fn lemma_bottom<'s, 'e>(machine: Machine<'s, 'e>, task: Task<'s, 'e>)
    requires
        machine.tasks.len() >= 1,
    ensures
        machine.with_task(task).tasks.take(1) == machine.tasks.take(1),
        machine.with_task(task).tasks.len() >= 1,
{
    assert(machine.tasks.push(task).take(1) =~= machine.tasks.take(1));
}

/// An operand put on a machine and dropped again leaves the machine as it
/// was.
pub proof fn lemma_held<'s, 'e>(machine: Machine<'s, 'e>, value: ValueModel)
    ensures
        machine.holding(value).dropped() == machine,
        machine.holding(value).operands.last() == value,
{
    assert(machine.operands.push(value).drop_last() =~= machine.operands);
}

/// The machine evaluates as the meaning says.  Set to evaluate an
/// expression, and run for the steps that the evaluation takes, the machine
/// has the value on its operands and everything else but the scopes as it
/// was; or, where the evaluation raises an error, it has given up the
/// statement and reported that error.
#[verifier::rlimit(50)]
pub proof fn lemma_evaluation<'s, 'e>(
    host: Host,
    machine: Machine<'s, 'e>,
    expression: Expr<'e>,
    event: Event,
)
    requires
        machine.tasks.len() >= 1,
    ensures
        run(
            host,
            machine.with_task(Task::Evaluate(&expression)),
            event,
            evaluated(host, machine.scopes, machine.scope, expression).steps,
        ) == after_evaluation(
            machine,
            evaluated(host, machine.scopes, machine.scope, expression),
        ),
    decreases expression,
{
    let whole = evaluated(host, machine.scopes, machine.scope, expression);
    let task = Task::Evaluate(&expression);
    let first = machine.perform(task, event);
    let started = Run {
        machine: first.machine,
        event: host.answer(first.action),
        effects: effect(first.action),
    };
    lemma_run_after_step(host, machine, task, event, (whole.steps - 1) as nat);
    assert(run(host, machine.with_task(task), event, whole.steps) == continued(
        host,
        started,
        (whole.steps - 1) as nat,
    ));
    assert(Seq::<Effect>::empty() + Seq::<Effect>::empty() =~= Seq::<Effect>::empty());
    match expression {
        Expr::Literal(literal) => match literal {
            Literal::Number(numeral) => {
                let request = Request::Convert(numeral);
                lemma_run_after_step(host, machine, Task::Answer(request), started.event, 0);
            },
            _ => {},
        },
        Expr::Grouping { expression: inner } => {
            lemma_evaluation(host, machine, *inner, Event::Resume);
            let found = evaluated(host, machine.scopes, machine.scope, *inner);
            let reached = after_evaluation(machine, found);
            assert(Seq::<Effect>::empty() + reached.effects =~= reached.effects);
        },
        Expr::Unary { operator, right } => {
            let waiting = machine.with_task(Task::Unary(operator));
            lemma_bottom(machine, Task::Unary(operator));
            lemma_evaluation(host, waiting, *right, Event::Resume);
            let found = evaluated(host, machine.scopes, machine.scope, *right);
            let reached = after_evaluation(waiting, found);
            assert(Seq::<Effect>::empty() + reached.effects =~= reached.effects);
            match found.result {
                Err(_) => {},
                Ok(value) => {
                    let holding = Machine { scopes: found.scopes, ..machine }.holding(value);
                    assert(reached.machine == holding.with_task(Task::Unary(operator)));
                    lemma_run_in_two(host, started.machine, started.event, found.steps, 1);
                    lemma_run_after_step(host, holding, Task::Unary(operator), Event::Resume, 0);
                    lemma_held(Machine { scopes: found.scopes, ..machine }, value);
                    lemma_bottom(
                        Machine { scopes: found.scopes, ..machine },
                        Task::Unary(operator),
                    );
                    assert(holding.tasks.take(1) == machine.tasks.take(1));
                    let last = holding.perform(Task::Unary(operator), Event::Resume);
                    assert(effect(last.action) + Seq::<Effect>::empty() =~= effect(last.action));
                    assert(Seq::<Effect>::empty() + effect(last.action) =~= effect(last.action));
                },
            }
        },
        Expr::Binary { left, operator, right } => {
            let base = machine.with_task(Task::Binary(operator));
            let waiting = base.with_task(Task::Evaluate(right));
            lemma_bottom(machine, Task::Binary(operator));
            lemma_bottom(base, Task::Evaluate(right));
            lemma_evaluation(host, waiting, *left, Event::Resume);
            let one = evaluated(host, machine.scopes, machine.scope, *left);
            let reached = after_evaluation(waiting, one);
            assert(Seq::<Effect>::empty() + reached.effects =~= reached.effects);
            match one.result {
                Err(_) => {},
                Ok(a) => {
                    let held = Machine { scopes: one.scopes, ..machine }.holding(a);
                    let next = held.with_task(Task::Binary(operator));
                    assert(reached.machine == next.with_task(Task::Evaluate(right)));
                    lemma_bottom(held, Task::Binary(operator));
                    lemma_evaluation(host, next, *right, Event::Resume);
                    let two = evaluated(host, one.scopes, machine.scope, *right);
                    let after = after_evaluation(next, two);
                    lemma_run_in_two(
                        host,
                        started.machine,
                        started.event,
                        one.steps,
                        (whole.steps - 1 - one.steps) as nat,
                    );
                    assert(Seq::<Effect>::empty() + after.effects =~= after.effects);
                    match two.result {
                        Err(_) => {
                            assert(next.tasks.take(1) == machine.tasks.take(1));
                        },
                        Ok(b) => {
                            let both = Machine { scopes: two.scopes, ..held }.holding(b);
                            assert(after.machine == both.with_task(Task::Binary(operator)));
                            lemma_run_in_two(
                                host,
                                reached.machine,
                                reached.event,
                                two.steps,
                                (whole.steps - 1 - one.steps - two.steps) as nat,
                            );
                            lemma_run_after_step(
                                host,
                                both,
                                Task::Binary(operator),
                                Event::Resume,
                                (whole.steps - 2 - one.steps - two.steps) as nat,
                            );
                            let plain = Machine { scopes: two.scopes, ..machine };
                            lemma_held(Machine { scopes: two.scopes, ..held }, b);
                            lemma_held(plain, a);
                            assert(Machine { scopes: two.scopes, ..held } == plain.holding(a));
                            assert(both.dropped().dropped() == plain);
                            assert(both.operands.drop_last().last() == a);
                            assert(both.tasks.take(1) == machine.tasks.take(1));
                            let last = both.perform(Task::Binary(operator), Event::Resume);
                            assert(effect(last.action) + Seq::<Effect>::empty() =~= effect(
                                last.action,
                            ));
                            assert(Seq::<Effect>::empty() + effect(last.action) =~= effect(
                                last.action,
                            ));
                            match binary_result(*operator, a, b) {
                                Outcome::Calculate { operation, left, right } => {
                                    let request = Request::Calculate { operation, left, right };
                                    lemma_run_after_step(
                                        host,
                                        plain,
                                        Task::Answer(request),
                                        host.answer(last.action),
                                        0,
                                    );
                                },
                                _ => {},
                            }
                        },
                    }
                },
            }
        },
        Expr::Variable(name) => {},
        Expr::Assign { name, value } => {
            let waiting = machine.with_task(Task::Assign(name));
            lemma_bottom(machine, Task::Assign(name));
            lemma_evaluation(host, waiting, *value, Event::Resume);
            let found = evaluated(host, machine.scopes, machine.scope, *value);
            let reached = after_evaluation(waiting, found);
            assert(Seq::<Effect>::empty() + reached.effects =~= reached.effects);
            match found.result {
                Err(_) => {},
                Ok(given) => {
                    let holding = Machine { scopes: found.scopes, ..machine }.holding(given);
                    assert(reached.machine == holding.with_task(Task::Assign(name)));
                    lemma_run_in_two(host, started.machine, started.event, found.steps, 1);
                    lemma_run_after_step(host, holding, Task::Assign(name), Event::Resume, 0);
                    lemma_held(Machine { scopes: found.scopes, ..machine }, given);
                    lemma_bottom(Machine { scopes: found.scopes, ..machine }, Task::Assign(name));
                    assert(holding.tasks.take(1) == machine.tasks.take(1));
                    let last = holding.perform(Task::Assign(name), Event::Resume);
                    assert(effect(last.action) + Seq::<Effect>::empty() =~= effect(last.action));
                    assert(Seq::<Effect>::empty() + effect(last.action) =~= effect(last.action));
                },
            }
        },
    }
}

/// The effects of running a statement, or statements; the scopes as the
/// run leaves them; whether a runtime error cut it short; and the steps
/// that the machine takes over it.
pub struct Executed {
    pub scopes: Seq<ScopeModel>,
    pub effects: Seq<Effect>,
    pub failed: bool,
    pub steps: nat,
}

/// What a statement does with the outcome of the expression in it.
pub open spec fn concluded(
    outcome: Evaluated,
    scopes: spec_fn(ValueModel) -> Seq<ScopeModel>,
    effects: spec_fn(ValueModel) -> Seq<Effect>,
) -> Executed {
    match outcome.result {
        Ok(value) => Executed {
            scopes: scopes(value),
            effects: effects(value),
            failed: false,
            steps: 2 + outcome.steps,
        },
        Err(error) => Executed {
            scopes: outcome.scopes,
            effects: seq![Effect::Report(error)],
            failed: true,
            steps: 1 + outcome.steps,
        },
    }
}

/// Running a statement in a scope.  A block runs in a new scope inside the
/// current one; a runtime error in it ends the block.
pub open spec fn executed(host: Host, scopes: Seq<ScopeModel>, scope: nat, statement: Stmt) -> Executed
    decreases statement, 0nat,
{
    match statement {
        Stmt::Expression(expression) => {
            let outcome = evaluated(host, scopes, scope, *expression);
            concluded(outcome, |value: ValueModel| outcome.scopes, |value: ValueModel| Seq::empty())
        },
        Stmt::Print(expression) => {
            let outcome = evaluated(host, scopes, scope, *expression);
            concluded(
                outcome,
                |value: ValueModel| outcome.scopes,
                |value: ValueModel| seq![Effect::Print(stringify(value))],
            )
        },
        Stmt::Var { name, initializer } => match initializer {
            Some(expression) => {
                let outcome = evaluated(host, scopes, scope, *expression);
                concluded(
                    outcome,
                    |value: ValueModel| with_binding(outcome.scopes, scope, name.lexeme@, value),
                    |value: ValueModel| Seq::empty(),
                )
            },
            None => Executed {
                scopes: with_binding(scopes, scope, name.lexeme@, ValueModel::Nil),
                effects: Seq::empty(),
                failed: false,
                steps: 1,
            },
        },
        Stmt::Block { statements } => {
            let inner = executed_from(
                host,
                with_scope(scopes, scope),
                scopes.len(),
                statements,
                0,
            );
            Executed {
                scopes: inner.scopes,
                effects: inner.effects,
                failed: inner.failed,
                steps: if inner.failed {
                    1 + inner.steps
                } else {
                    2 + inner.steps
                },
            }
        },
    }
}

/// Running the statements of a list from `from` on, in order, up to the
/// first that fails.
pub open spec fn executed_from(
    host: Host,
    scopes: Seq<ScopeModel>,
    scope: nat,
    statements: Vec<Stmt>,
    from: nat,
) -> Executed
    decreases statements, statements@.len() - from,
{
    if from < statements@.len() {
        let first = executed(host, scopes, scope, statements@[from as int]);
        if first.failed {
            Executed { steps: 1 + first.steps, ..first }
        } else {
            let rest = executed_from(host, first.scopes, scope, statements, from + 1);
            Executed {
                scopes: rest.scopes,
                effects: first.effects + rest.effects,
                failed: rest.failed,
                steps: 1 + first.steps + rest.steps,
            }
        }
    } else {
        Executed { scopes, effects: Seq::empty(), failed: false, steps: 1 }
    }
}

/// Running a program from its statement `from` on, in the outermost scope:
/// each statement in order, one that fails ending with its error reported
/// and the next one running all the same.
pub open spec fn interpreted(host: Host, scopes: Seq<ScopeModel>, statements: Vec<Stmt>, from: nat) -> Executed
    decreases statements@.len() - from,
{
    if from < statements@.len() {
        let first = executed(host, scopes, 0, statements@[from as int]);
        let rest = interpreted(host, first.scopes, statements, from + 1);
        Executed {
            scopes: rest.scopes,
            effects: first.effects + rest.effects,
            failed: false,
            steps: 1 + first.steps + rest.steps,
        }
    } else {
        Executed { scopes, effects: Seq::empty(), failed: false, steps: 1 }
    }
}

/// Where the machine is once a run of statements that began in `machine`
/// is over: as it was but for the scopes, or with the statement given up.
pub open spec fn after_execution<'s, 'e>(machine: Machine<'s, 'e>, outcome: Executed) -> Run<
    's,
    'e,
> {
    Run {
        machine: if outcome.failed {
            Machine {
                scopes: outcome.scopes,
                scope: 0,
                tasks: machine.tasks.take(1),
                operands: Seq::empty(),
            }
        } else {
            Machine { scopes: outcome.scopes, ..machine }
        },
        event: Event::Resume,
        effects: outcome.effects,
    }
}

/// Evaluating an expression makes no scope and loses none.
pub proof fn lemma_evaluated_scopes(host: Host, scopes: Seq<ScopeModel>, scope: nat, expression: Expr)
    ensures
        evaluated(host, scopes, scope, expression).scopes.len() == scopes.len(),
    decreases expression,
{
    match expression {
        Expr::Grouping { expression } => {
            lemma_evaluated_scopes(host, scopes, scope, *expression);
        },
        Expr::Unary { operator, right } => {
            lemma_evaluated_scopes(host, scopes, scope, *right);
        },
        Expr::Binary { left, operator, right } => {
            lemma_evaluated_scopes(host, scopes, scope, *left);
            let first = evaluated(host, scopes, scope, *left);
            lemma_evaluated_scopes(host, first.scopes, scope, *right);
        },
        Expr::Assign { name, value } => {
            lemma_evaluated_scopes(host, scopes, scope, *value);
            let found = evaluated(host, scopes, scope, *value);
            crate::environment::lemma_resolve(found.scopes, scope, name.lexeme@);
        },
        _ => {},
    }
}

/// Running a statement loses no scope.
pub proof fn lemma_executed_scopes(host: Host, scopes: Seq<ScopeModel>, scope: nat, statement: Stmt)
    requires
        scope < scopes.len(),
    ensures
        executed(host, scopes, scope, statement).scopes.len() >= scopes.len(),
    decreases statement, 0nat,
{
    match statement {
        Stmt::Expression(expression) => {
            lemma_evaluated_scopes(host, scopes, scope, *expression);
        },
        Stmt::Print(expression) => {
            lemma_evaluated_scopes(host, scopes, scope, *expression);
        },
        Stmt::Var { name, initializer } => match initializer {
            Some(expression) => {
                lemma_evaluated_scopes(host, scopes, scope, *expression);
            },
            None => {},
        },
        Stmt::Block { statements } => {
            lemma_executed_from_scopes(host, with_scope(scopes, scope), scopes.len(), statements, 0);
        },
    }
}

pub proof fn lemma_executed_from_scopes(
    host: Host,
    scopes: Seq<ScopeModel>,
    scope: nat,
    statements: Vec<Stmt>,
    from: nat,
)
    requires
        scope < scopes.len(),
    ensures
        executed_from(host, scopes, scope, statements, from).scopes.len() >= scopes.len(),
    decreases statements, statements@.len() - from,
{
    if from < statements@.len() {
        lemma_executed_scopes(host, scopes, scope, statements@[from as int]);
        let first = executed(host, scopes, scope, statements@[from as int]);
        if !first.failed {
            lemma_executed_from_scopes(host, first.scopes, scope, statements, from + 1);
        }
    }
}

/// The machine runs a statement as the meaning says.  Set to run a
/// statement, and run for the steps that this takes, the machine has let
/// the outside see the statement's effects and is as it was but for the
/// scopes; or, where a runtime error cut the statement short, it has given
/// up the statement in hand.  This holds as long as the scopes that the
/// statement makes can be counted in a `usize`.
pub proof fn lemma_execution<'s, 'e>(
    host: Host,
    machine: Machine<'s, 'e>,
    statement: Stmt<'e>,
    event: Event,
)
    requires
        machine.tasks.len() >= 1,
        machine.scope < machine.scopes.len(),
        executed(host, machine.scopes, machine.scope, statement).scopes.len() <= usize::MAX,
    ensures
        run(
            host,
            machine.with_task(Task::Execute(&statement)),
            event,
            executed(host, machine.scopes, machine.scope, statement).steps,
        ) == after_execution(machine, executed(host, machine.scopes, machine.scope, statement)),
    decreases statement, 0nat,
{
    let whole = executed(host, machine.scopes, machine.scope, statement);
    let task = Task::Execute(&statement);
    let first = machine.perform(task, event);
    let started = Run {
        machine: first.machine,
        event: host.answer(first.action),
        effects: effect(first.action),
    };
    lemma_run_after_step(host, machine, task, event, (whole.steps - 1) as nat);
    assert(Seq::<Effect>::empty() + Seq::<Effect>::empty() =~= Seq::<Effect>::empty());
    match statement {
        Stmt::Expression(expression) => {
            lemma_statement_of_expression(host, machine, *expression, Task::Discard);
        },
        Stmt::Print(expression) => {
            lemma_statement_of_expression(host, machine, *expression, Task::Print);
        },
        Stmt::Var { name, initializer } => match initializer {
            Some(expression) => {
                lemma_statement_of_expression(host, machine, *expression, Task::Define(name));
            },
            None => {},
        },
        Stmt::Block { statements } => {
            let entered = Machine {
                scopes: with_scope(machine.scopes, machine.scope),
                scope: machine.scopes.len(),
                ..machine
            };
            let leaving = Task::Leave(machine.scope as usize);
            let waiting = entered.with_task(leaving);
            lemma_bottom(entered, leaving);
            let inner = executed_from(host, entered.scopes, entered.scope, statements, 0);
            lemma_execution_from(host, waiting, &statements, 0, Event::Resume);
            let reached = after_execution(waiting, inner);
            assert(Seq::<Effect>::empty() + reached.effects =~= reached.effects);
            if !inner.failed {
                lemma_executed_from_scopes(host, entered.scopes, entered.scope, statements, 0);
                let back = Machine { scopes: inner.scopes, ..entered };
                assert(reached.machine == back.with_task(leaving));
                lemma_run_in_two(host, started.machine, started.event, inner.steps, 1);
                lemma_run_after_step(host, back, leaving, Event::Resume, 0);
                assert(reached.effects + Seq::<Effect>::empty() =~= reached.effects);
            }
        },
    }
}

/// The three statements that evaluate an expression and then do one thing
/// with its value.
proof fn lemma_statement_of_expression<'s, 'e>(
    host: Host,
    machine: Machine<'s, 'e>,
    expression: Expr<'e>,
    finish: Task<'s, 'e>,
)
    requires
        machine.tasks.len() >= 1,
        finish is Discard || finish is Print || finish is Define,
    ensures
        ({
            let outcome = evaluated(host, machine.scopes, machine.scope, expression);
            let waiting = machine.with_task(finish).with_task(Task::Evaluate(&expression));
            match outcome.result {
                Err(error) => run(host, waiting, Event::Resume, outcome.steps) == Run {
                    machine: Machine {
                        scopes: outcome.scopes,
                        scope: 0,
                        tasks: machine.tasks.take(1),
                        operands: Seq::empty(),
                    },
                    event: Event::Resume,
                    effects: seq![Effect::Report(error)],
                },
                Ok(value) => {
                    let kept = Machine { scopes: outcome.scopes, ..machine };
                    run(host, waiting, Event::Resume, 1 + outcome.steps) == Run {
                        machine: match finish {
                            Task::Define(name) => Machine {
                                scopes: with_binding(
                                    outcome.scopes,
                                    machine.scope,
                                    name.lexeme@,
                                    value,
                                ),
                                ..machine
                            },
                            _ => kept,
                        },
                        event: Event::Resume,
                        effects: match finish {
                            Task::Print => seq![Effect::Print(stringify(value))],
                            _ => Seq::empty(),
                        },
                    }
                },
            }
        }),
{
    let outcome = evaluated(host, machine.scopes, machine.scope, expression);
    let below = machine.with_task(finish);
    lemma_bottom(machine, finish);
    lemma_evaluation(host, below, expression, Event::Resume);
    match outcome.result {
        Err(_) => {},
        Ok(value) => {
            let kept = Machine { scopes: outcome.scopes, ..machine };
            let holding = kept.holding(value);
            let reached = after_evaluation(below, outcome);
            assert(reached.machine == holding.with_task(finish));
            lemma_run_in_two(
                host,
                below.with_task(Task::Evaluate(&expression)),
                Event::Resume,
                outcome.steps,
                1,
            );
            lemma_run_after_step(host, holding, finish, Event::Resume, 0);
            lemma_held(kept, value);
            let last = holding.perform(finish, Event::Resume);
            assert(effect(last.action) + Seq::<Effect>::empty() =~= effect(last.action));
            assert(Seq::<Effect>::empty() + effect(last.action) =~= effect(last.action));
        },
    }
}

/// The machine runs the statements of a list as the meaning says.
pub proof fn lemma_execution_from<'s, 'e>(
    host: Host,
    machine: Machine<'s, 'e>,
    statements: &'s Vec<Stmt<'e>>,
    from: nat,
    event: Event,
)
    requires
        machine.tasks.len() >= 1,
        machine.scope < machine.scopes.len(),
        from <= statements@.len(),
        executed_from(host, machine.scopes, machine.scope, *statements, from).scopes.len()
            <= usize::MAX,
    ensures
        run(
            host,
            machine.with_task(Task::Run { statements, next: from as usize }),
            event,
            executed_from(host, machine.scopes, machine.scope, *statements, from).steps,
        ) == after_execution(
            machine,
            executed_from(host, machine.scopes, machine.scope, *statements, from),
        ),
    decreases *statements, statements@.len() - from,
{
    let whole = executed_from(host, machine.scopes, machine.scope, *statements, from);
    let task = Task::Run { statements, next: from as usize };
    vstd::std_specs::vec::axiom_spec_len(statements);
    lemma_run_after_step(host, machine, task, event, (whole.steps - 1) as nat);
    assert(Seq::<Effect>::empty() + Seq::<Effect>::empty() =~= Seq::<Effect>::empty());
    if from < statements@.len() {
        let next = Task::Run { statements, next: (from + 1) as usize };
        let below = machine.with_task(next);
        let one = statements@[from as int];
        let first = executed(host, machine.scopes, machine.scope, one);
        lemma_bottom(machine, next);
        lemma_executed_scopes(host, machine.scopes, machine.scope, one);
        if !first.failed {
            lemma_executed_from_scopes(host, first.scopes, machine.scope, *statements, from + 1);
        }
        lemma_execution(host, below, one, Event::Resume);
        let reached = after_execution(below, first);
        assert(Seq::<Effect>::empty() + reached.effects =~= reached.effects);
        if !first.failed {
            let kept = Machine { scopes: first.scopes, ..machine };
            assert(reached.machine == kept.with_task(next));
            lemma_execution_from(host, kept, statements, from + 1, Event::Resume);
            let rest = executed_from(host, first.scopes, machine.scope, *statements, from + 1);
            lemma_run_in_two(
                host,
                below.with_task(Task::Execute(&one)),
                Event::Resume,
                first.steps,
                rest.steps,
            );
        }
    }
}

/// The interpreter runs a program as the meaning says.  From the state in
/// which `interpret` leaves it, and run for the steps that the program
/// takes, the machine has let the outside see the effects of the
/// statements, each in its turn, a statement that fails ending with its
/// error; and it has finished, in the outermost scope.  This holds as long
/// as the scopes that the program makes can be counted in a `usize`.
pub proof fn lemma_interpretation<'s, 'e>(
    host: Host,
    scopes: Seq<ScopeModel>,
    statements: &'s Vec<Stmt<'e>>,
    from: nat,
    event: Event,
)
    requires
        scopes.len() >= 1,
        from <= statements@.len(),
        interpreted(host, scopes, *statements, from).scopes.len() <= usize::MAX,
    ensures
        run(
            host,
            Machine {
                scopes,
                scope: 0,
                tasks: seq![Task::Run { statements, next: from as usize }],
                operands: Seq::empty(),
            },
            event,
            interpreted(host, scopes, *statements, from).steps,
        ) == (Run {
            machine: Machine {
                scopes: interpreted(host, scopes, *statements, from).scopes,
                scope: 0,
                tasks: Seq::empty(),
                operands: Seq::empty(),
            },
            event: Event::Resume,
            effects: interpreted(host, scopes, *statements, from).effects,
        }),
    decreases statements@.len() - from,
{
    let whole = interpreted(host, scopes, *statements, from);
    let idle = Machine::<'s, 'e> {
        scopes,
        scope: 0,
        tasks: Seq::empty(),
        operands: Seq::empty(),
    };
    let task = Task::Run { statements, next: from as usize };
    vstd::std_specs::vec::axiom_spec_len(statements);
    assert(idle.with_task(task).tasks =~= seq![task]);
    lemma_run_after_step(host, idle, task, event, (whole.steps - 1) as nat);
    assert(Seq::<Effect>::empty() + Seq::<Effect>::empty() =~= Seq::<Effect>::empty());
    if from < statements@.len() {
        let next = Task::Run { statements, next: (from + 1) as usize };
        let below = idle.with_task(next);
        let one = statements@[from as int];
        let first = executed(host, scopes, 0, one);
        lemma_executed_scopes(host, scopes, 0, one);
        lemma_interpreted_scopes(host, first.scopes, *statements, from + 1);
        lemma_execution(host, below, one, Event::Resume);
        let reached = after_execution(below, first);
        assert(below.tasks.take(1) =~= below.tasks);
        assert(reached.machine == Machine { scopes: first.scopes, ..below });
        assert(reached.machine.tasks =~= seq![next]);
        assert(Seq::<Effect>::empty() + reached.effects =~= reached.effects);
        lemma_interpretation(host, first.scopes, statements, from + 1, Event::Resume);
        let rest = interpreted(host, first.scopes, *statements, from + 1);
        lemma_run_in_two(
            host,
            below.with_task(Task::Execute(&one)),
            Event::Resume,
            first.steps,
            rest.steps,
        );
    }
}

/// Running a program loses no scope.
pub proof fn lemma_interpreted_scopes(
    host: Host,
    scopes: Seq<ScopeModel>,
    statements: Vec<Stmt>,
    from: nat,
)
    requires
        scopes.len() >= 1,
    ensures
        interpreted(host, scopes, statements, from).scopes.len() >= scopes.len(),
    decreases statements@.len() - from,
{
    if from < statements@.len() {
        lemma_executed_scopes(host, scopes, 0, statements@[from as int]);
        let first = executed(host, scopes, 0, statements@[from as int]);
        lemma_interpreted_scopes(host, first.scopes, statements, from + 1);
    }
}

} // verus!
