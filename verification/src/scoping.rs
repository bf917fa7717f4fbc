//! What running code can and cannot change in the scopes around it.
//!
//! An expression, and a block, leave every scope that was there with the
//! names it had, and can change the value of a name only in the scope that
//! binds it as seen from where the code stands.  So what a block declares is
//! gone when the block is over, and what it shadows is as it was.

use crate::environment::{lemma_resolve, resolve, with_scope, ScopeModel};
use crate::expr::Expr;
use crate::meaning::{
    after_execution, evaluated, executed, executed_from, lemma_execution, run, Effect, Host,
};
use crate::semantics::{Event, Machine, Task};
use crate::stmt::Stmt;
use vstd::prelude::*;

verus! {

/// Whether a scope has the names it had, inside the scope it was inside.
pub open spec fn same_names(before: ScopeModel, after: ScopeModel) -> bool {
    &&& after.enclosing == before.enclosing
    &&& forall|name: Seq<char>| #[trigger]
        after.bindings.contains_key(name) == before.bindings.contains_key(name)
}

/// Whether a scope has at least the names it had, inside the scope it was
/// inside.
pub open spec fn more_names(before: ScopeModel, after: ScopeModel) -> bool {
    &&& after.enclosing == before.enclosing
    &&& forall|name: Seq<char>|
        before.bindings.contains_key(name) ==> #[trigger] after.bindings.contains_key(name)
}

/// What code that stands in the scope `at` and declares nothing there
/// leaves of the scopes that were there before it: each has the names it
/// had, and a name has the value it had everywhere but in the scope that
/// binds it as seen from `at`.
pub open spec fn sealed(before: Seq<ScopeModel>, after: Seq<ScopeModel>, at: nat) -> bool {
    &&& before.len() <= after.len()
    &&& forall|i: int| 0 <= i < before.len() ==> same_names(before[i], #[trigger] after[i])
    &&& forall|i: int, name: Seq<char>|
        0 <= i < before.len() && resolve(before, at, name) != Some(i as nat)
            ==> #[trigger] after[i].bindings[name] == before[i].bindings[name]
}

/// What code that stands in the scope `at` leaves of the scopes that were
/// there before it.  The scope `at` may have gained names; every other has
/// the names it had, and in every other a name has the value it had unless
/// that scope binds it as seen from `at`.
pub open spec fn framed(before: Seq<ScopeModel>, after: Seq<ScopeModel>, at: nat) -> bool {
    &&& before.len() <= after.len()
    &&& forall|i: int|
        0 <= i < before.len() && i != at ==> same_names(before[i], #[trigger] after[i])
    &&& at < before.len() ==> more_names(before[at as int], after[at as int])
    &&& forall|i: int, name: Seq<char>|
        0 <= i < before.len() && i != at && resolve(before, at, name) != Some(i as nat)
            ==> #[trigger] after[i].bindings[name] == before[i].bindings[name]
}

/// A walk outwards finds the same scope in two stores that agree, up to
/// where the walk begins, on which scope is inside which and on which
/// scope binds the name.
pub proof fn lemma_same_walk(
    before: Seq<ScopeModel>,
    after: Seq<ScopeModel>,
    from: nat,
    name: Seq<char>,
)
    requires
        from < before.len() <= after.len(),
        forall|i: int|
            0 <= i <= from ==> (#[trigger] after[i]).enclosing == before[i].enclosing
                && after[i].bindings.contains_key(name) == before[i].bindings.contains_key(name),
    ensures
        resolve(after, from, name) == resolve(before, from, name),
    decreases from,
{
    assert(after[from as int].enclosing == before[from as int].enclosing);
    if !before[from as int].bindings.contains_key(name) {
        match before[from as int].enclosing {
            Some(outer) => if outer < from {
                lemma_same_walk(before, after, outer, name);
            },
            None => {},
        }
    }
}

/// Seen from `at`, a name is bound after framed code where it was bound
/// before, or in `at` itself.
pub proof fn lemma_visible(
    before: Seq<ScopeModel>,
    after: Seq<ScopeModel>,
    at: nat,
    name: Seq<char>,
)
    requires
        at < before.len(),
        framed(before, after, at),
    ensures
        resolve(after, at, name) == Some(at) || resolve(after, at, name) == resolve(
            before,
            at,
            name,
        ),
        sealed(before, after, at) ==> resolve(after, at, name) == resolve(before, at, name),
{
    assert(more_names(before[at as int], after[at as int]));
    if sealed(before, after, at) {
        assert forall|i: int| 0 <= i <= at implies (#[trigger] after[i]).enclosing
            == before[i].enclosing && after[i].bindings.contains_key(name)
            == before[i].bindings.contains_key(name) by {
            assert(same_names(before[i], after[i]));
        }
        lemma_same_walk(before, after, at, name);
    } else if !after[at as int].bindings.contains_key(name) {
        match before[at as int].enclosing {
            Some(outer) => if outer < at {
                assert forall|i: int| 0 <= i <= outer implies (#[trigger] after[i]).enclosing
                    == before[i].enclosing && after[i].bindings.contains_key(name)
                    == before[i].bindings.contains_key(name) by {
                    assert(same_names(before[i], after[i]));
                }
                lemma_same_walk(before, after, outer, name);
            },
            None => {},
        }
    }
}

/// Sealed code is framed code.
pub proof fn lemma_sealed_is_framed(before: Seq<ScopeModel>, after: Seq<ScopeModel>, at: nat)
    requires
        sealed(before, after, at),
    ensures
        framed(before, after, at),
{
    assert forall|i: int| 0 <= i < before.len() && i != at implies same_names(
        before[i],
        #[trigger] after[i],
    ) by {}
    if at < before.len() {
        assert(same_names(before[at as int], after[at as int]));
    }
}

/// Sealed code after sealed code is sealed code.
pub proof fn lemma_sealed_twice(
    first: Seq<ScopeModel>,
    second: Seq<ScopeModel>,
    third: Seq<ScopeModel>,
    at: nat,
)
    requires
        at < first.len(),
        sealed(first, second, at),
        sealed(second, third, at),
    ensures
        sealed(first, third, at),
{
    lemma_sealed_is_framed(first, second, at);
    assert forall|i: int| 0 <= i < first.len() implies same_names(first[i], #[trigger] third[i]) by {
        assert(same_names(first[i], second[i]));
        assert(same_names(second[i], third[i]));
        assert forall|name: Seq<char>| #[trigger]
            third[i].bindings.contains_key(name) == first[i].bindings.contains_key(name) by {
            assert(second[i].bindings.contains_key(name) == first[i].bindings.contains_key(name));
        }
    }
    assert forall|i: int, name: Seq<char>|
        0 <= i < first.len() && resolve(first, at, name) != Some(
            i as nat,
        ) implies #[trigger] third[i].bindings[name] == first[i].bindings[name] by {
        lemma_visible(first, second, at, name);
        assert(second[i].bindings[name] == first[i].bindings[name]);
    }
}

/// Framed code after framed code is framed code.
pub proof fn lemma_framed_twice(
    first: Seq<ScopeModel>,
    second: Seq<ScopeModel>,
    third: Seq<ScopeModel>,
    at: nat,
)
    requires
        at < first.len(),
        framed(first, second, at),
        framed(second, third, at),
    ensures
        framed(first, third, at),
{
    assert forall|i: int| 0 <= i < first.len() && i != at implies same_names(
        first[i],
        #[trigger] third[i],
    ) by {
        assert(same_names(first[i], second[i]));
        assert(same_names(second[i], third[i]));
        assert forall|name: Seq<char>| #[trigger]
            third[i].bindings.contains_key(name) == first[i].bindings.contains_key(name) by {
            assert(second[i].bindings.contains_key(name) == first[i].bindings.contains_key(name));
        }
    }
    assert(more_names(first[at as int], third[at as int])) by {
        assert(more_names(first[at as int], second[at as int]));
        assert(more_names(second[at as int], third[at as int]));
        assert forall|name: Seq<char>|
            first[at as int].bindings.contains_key(name) implies #[trigger] third[at as int].bindings.contains_key(
            name,
        ) by {
            assert(second[at as int].bindings.contains_key(name));
        }
    }
    assert forall|i: int, name: Seq<char>|
        0 <= i < first.len() && i != at && resolve(first, at, name) != Some(
            i as nat,
        ) implies #[trigger] third[i].bindings[name] == first[i].bindings[name] by {
        lemma_visible(first, second, at, name);
        assert(second[i].bindings[name] == first[i].bindings[name]);
    }
}

/// Giving a new value to a name in the scope that binds it, as seen from
/// `at`, is sealed; so is doing nothing where no scope binds it.
proof fn lemma_assigned_is_sealed(
    scopes: Seq<ScopeModel>,
    at: nat,
    name: Seq<char>,
    value: crate::value::ValueModel,
)
    requires
        at < scopes.len(),
    ensures
        sealed(scopes, crate::environment::assigned(scopes, at, name, value), at),
        crate::environment::assigned(scopes, at, name, value).len() == scopes.len(),
{
    let after = crate::environment::assigned(scopes, at, name, value);
    lemma_resolve(scopes, at, name);
    match resolve(scopes, at, name) {
        Some(holder) => {
            assert forall|i: int| 0 <= i < scopes.len() implies same_names(
                scopes[i],
                #[trigger] after[i],
            ) by {
                if i == holder {
                    assert forall|other: Seq<char>| #[trigger]
                        after[i].bindings.contains_key(other) == scopes[i].bindings.contains_key(
                            other,
                        ) by {}
                }
            }
        },
        None => {},
    }
}

/// Defining a name in the scope `at` is framed.
proof fn lemma_defined_is_framed(
    scopes: Seq<ScopeModel>,
    at: nat,
    name: Seq<char>,
    value: crate::value::ValueModel,
)
    requires
        at < scopes.len(),
    ensures
        framed(scopes, crate::environment::with_binding(scopes, at, name, value), at),
{
    let after = crate::environment::with_binding(scopes, at, name, value);
    assert forall|i: int| 0 <= i < scopes.len() && i != at implies same_names(
        scopes[i],
        #[trigger] after[i],
    ) by {}
}

/// An expression declares nothing.  Evaluating it in the scope `at` makes
/// no scope, leaves every scope with the names it had, and can change the
/// value of a name only in the scope that binds it as seen from `at`.
pub proof fn lemma_expression_is_sealed(
    host: Host,
    scopes: Seq<ScopeModel>,
    at: nat,
    expression: Expr,
)
    requires
        at < scopes.len(),
    ensures
        sealed(scopes, evaluated(host, scopes, at, expression).scopes, at),
        evaluated(host, scopes, at, expression).scopes.len() == scopes.len(),
    decreases expression,
{
    match expression {
        Expr::Grouping { expression } => {
            lemma_expression_is_sealed(host, scopes, at, *expression);
        },
        Expr::Unary { operator, right } => {
            lemma_expression_is_sealed(host, scopes, at, *right);
        },
        Expr::Binary { left, operator, right } => {
            lemma_expression_is_sealed(host, scopes, at, *left);
            let first = evaluated(host, scopes, at, *left);
            if first.result is Ok {
                lemma_expression_is_sealed(host, first.scopes, at, *right);
                let second = evaluated(host, first.scopes, at, *right);
                lemma_sealed_twice(scopes, first.scopes, second.scopes, at);
            }
        },
        Expr::Assign { name, value } => {
            lemma_expression_is_sealed(host, scopes, at, *value);
            let found = evaluated(host, scopes, at, *value);
            match found.result {
                Ok(given) => {
                    lemma_assigned_is_sealed(found.scopes, at, name.lexeme@, given);
                    lemma_sealed_twice(
                        scopes,
                        found.scopes,
                        crate::environment::assigned(found.scopes, at, name.lexeme@, given),
                        at,
                    );
                },
                Err(_) => {},
            }
        },
        _ => {},
    }
}

/// A statement that stands in the scope `at` is framed: it may declare
/// names in `at`, and for the rest it changes only what is visible from
/// `at`.
pub proof fn lemma_statement_is_framed(host: Host, scopes: Seq<ScopeModel>, at: nat, statement: Stmt)
    requires
        at < scopes.len(),
    ensures
        framed(scopes, executed(host, scopes, at, statement).scopes, at),
        statement is Block ==> sealed(scopes, executed(host, scopes, at, statement).scopes, at),
    decreases statement, 0nat,
{
    match statement {
        Stmt::Expression(expression) => {
            lemma_expression_is_sealed(host, scopes, at, *expression);
            lemma_sealed_is_framed(scopes, evaluated(host, scopes, at, *expression).scopes, at);
        },
        Stmt::Print(expression) => {
            lemma_expression_is_sealed(host, scopes, at, *expression);
            lemma_sealed_is_framed(scopes, evaluated(host, scopes, at, *expression).scopes, at);
        },
        Stmt::Var { name, initializer } => match initializer {
            Some(expression) => {
                lemma_expression_is_sealed(host, scopes, at, *expression);
                let outcome = evaluated(host, scopes, at, *expression);
                lemma_sealed_is_framed(scopes, outcome.scopes, at);
                match outcome.result {
                    Ok(value) => {
                        lemma_defined_is_framed(outcome.scopes, at, name.lexeme@, value);
                        lemma_framed_twice(
                            scopes,
                            outcome.scopes,
                            crate::environment::with_binding(
                                outcome.scopes,
                                at,
                                name.lexeme@,
                                value,
                            ),
                            at,
                        );
                    },
                    Err(_) => {},
                }
            },
            None => {
                lemma_defined_is_framed(scopes, at, name.lexeme@, crate::value::ValueModel::Nil);
            },
        },
        Stmt::Block { statements } => {
            let entered = with_scope(scopes, at);
            let inner: nat = scopes.len();
            lemma_statements_are_framed(host, entered, inner, statements, 0);
            let after = executed_from(host, entered, inner, statements, 0).scopes;
            assert forall|i: int| 0 <= i < scopes.len() implies same_names(
                scopes[i],
                #[trigger] after[i],
            ) by {
                assert(entered[i] == scopes[i]);
                assert(same_names(entered[i], after[i]));
            }
            assert forall|i: int, name: Seq<char>|
                0 <= i < scopes.len() && resolve(scopes, at, name) != Some(
                    i as nat,
                ) implies #[trigger] after[i].bindings[name] == scopes[i].bindings[name] by {
                assert(entered[i] == scopes[i]);
                assert forall|j: int| 0 <= j <= at implies (#[trigger] entered[j]).enclosing
                    == scopes[j].enclosing && entered[j].bindings.contains_key(name)
                    == scopes[j].bindings.contains_key(name) by {
                    assert(entered[j] == scopes[j]);
                }
                lemma_same_walk(scopes, entered, at, name);
                assert(!entered[inner as int].bindings.contains_key(name));
                assert(resolve(entered, inner, name) == resolve(entered, at, name));
            }
            lemma_sealed_is_framed(scopes, after, at);
        },
    }
}

/// The statements of a list that stands in the scope `at` are framed.
pub proof fn lemma_statements_are_framed(
    host: Host,
    scopes: Seq<ScopeModel>,
    at: nat,
    statements: Vec<Stmt>,
    from: nat,
)
    requires
        at < scopes.len(),
    ensures
        framed(scopes, executed_from(host, scopes, at, statements, from).scopes, at),
    decreases statements, statements@.len() - from,
{
    if from < statements@.len() {
        lemma_statement_is_framed(host, scopes, at, statements@[from as int]);
        let first = executed(host, scopes, at, statements@[from as int]);
        if !first.failed {
            lemma_statements_are_framed(host, first.scopes, at, statements, from + 1);
            let rest = executed_from(host, first.scopes, at, statements, from + 1);
            lemma_framed_twice(scopes, first.scopes, rest.scopes, at);
        }
    } else {
        assert forall|i: int| 0 <= i < scopes.len() && i != at implies same_names(
            scopes[i],
            #[trigger] scopes[i],
        ) by {}
    }
}

/// What a block leaves behind, whether it runs to its end or a runtime
/// error cuts it short.  The scopes that were there are still there, each
/// inside the scope it was inside and with exactly the names it had: what
/// the block declared is bound in none of them.  And a name has the value
/// it had in every scope but the one that binds it as seen from where the
/// block stands: the block cannot reach a binding that another hides.
pub proof fn lemma_block_is_sealed(host: Host, scopes: Seq<ScopeModel>, at: nat, body: Vec<Stmt>)
    requires
        at < scopes.len(),
    ensures
        sealed(scopes, executed(host, scopes, at, Stmt::Block { statements: body }).scopes, at),
        forall|name: Seq<char>| #[trigger]
            resolve(
                executed(host, scopes, at, Stmt::Block { statements: body }).scopes,
                at,
                name,
            ) == resolve(scopes, at, name),
{
    let block = Stmt::Block { statements: body };
    lemma_statement_is_framed(host, scopes, at, block);
    let after = executed(host, scopes, at, block).scopes;
    assert forall|name: Seq<char>| #[trigger]
        resolve(after, at, name) == resolve(scopes, at, name) by {
        lemma_visible(scopes, after, at, name);
    }
}

/// A name that the scope `at` binds hides every other binding of it from
/// the statements that stand in `at`: whatever they do, the name has the
/// value it had in every other scope that was there.
pub proof fn lemma_shadowed_is_kept(
    host: Host,
    scopes: Seq<ScopeModel>,
    at: nat,
    statements: Vec<Stmt>,
    from: nat,
    name: Seq<char>,
)
    requires
        at < scopes.len(),
        scopes[at as int].bindings.contains_key(name),
    ensures
        forall|i: int|
            0 <= i < scopes.len() && i != at ==> (#[trigger] executed_from(
                host,
                scopes,
                at,
                statements,
                from,
            ).scopes[i]).bindings[name] == scopes[i].bindings[name],
{
    lemma_statements_are_framed(host, scopes, at, statements, from);
    let after = executed_from(host, scopes, at, statements, from).scopes;
    assert(resolve(scopes, at, name) == Some(at));
    assert forall|i: int| 0 <= i < scopes.len() && i != at implies (#[trigger] after[i]).bindings[name]
        == scopes[i].bindings[name] by {
        assert(after[i].bindings[name] == scopes[i].bindings[name]);
    }
}

/// Whether the effects hold a report of an error last, where `failed`, and
/// nowhere else.
pub open spec fn reports_last(effects: Seq<Effect>, failed: bool) -> bool {
    &&& failed ==> effects.len() >= 1
    &&& forall|i: int|
        0 <= i < effects.len() ==> ((#[trigger] effects[i]) is Report <==> failed && i
            == effects.len() - 1)
}

/// A statement reports at most one runtime error, and nothing comes after
/// it: the error is the last effect of a statement that failed, and a
/// statement that did not fail reported none.
pub proof fn lemma_statement_reports_last(
    host: Host,
    scopes: Seq<ScopeModel>,
    at: nat,
    statement: Stmt,
)
    ensures
        reports_last(
            executed(host, scopes, at, statement).effects,
            executed(host, scopes, at, statement).failed,
        ),
    decreases statement, 0nat,
{
    match statement {
        Stmt::Block { statements } => {
            lemma_statements_report_last(host, with_scope(scopes, at), scopes.len(), statements, 0);
        },
        _ => {},
    }
}

/// The statements of a list run up to the first that fails, and no
/// further: what the list lets the outside see is what the statements
/// before it and that one let it see, the error last.
pub proof fn lemma_statements_report_last(
    host: Host,
    scopes: Seq<ScopeModel>,
    at: nat,
    statements: Vec<Stmt>,
    from: nat,
)
    ensures
        reports_last(
            executed_from(host, scopes, at, statements, from).effects,
            executed_from(host, scopes, at, statements, from).failed,
        ),
        from < statements@.len() && executed(host, scopes, at, statements@[from as int]).failed
            ==> executed_from(host, scopes, at, statements, from).failed && executed_from(
            host,
            scopes,
            at,
            statements,
            from,
        ).effects == executed(host, scopes, at, statements@[from as int]).effects
            && executed_from(host, scopes, at, statements, from).scopes == executed(
            host,
            scopes,
            at,
            statements@[from as int],
        ).scopes,
    decreases statements, statements@.len() - from,
{
    if from < statements@.len() {
        lemma_statement_reports_last(host, scopes, at, statements@[from as int]);
        let first = executed(host, scopes, at, statements@[from as int]);
        if !first.failed {
            lemma_statements_report_last(host, first.scopes, at, statements, from + 1);
            let rest = executed_from(host, first.scopes, at, statements, from + 1);
            let all = first.effects + rest.effects;
            assert forall|i: int| 0 <= i < all.len() implies ((#[trigger] all[i]) is Report
                <==> rest.failed && i == all.len() - 1) by {
                if i < first.effects.len() {
                    assert(all[i] == first.effects[i]);
                } else {
                    assert(all[i] == rest.effects[i - first.effects.len()]);
                }
            }
        }
    }
}

/// The machine and a block.  Set to run a block, and run for the steps
/// that the block takes, the machine is in one of two states.  Where the
/// block ran to its end, the machine is in the scope it was in, with the
/// tasks and operands it had.  Where a runtime error cut the block short,
/// the machine has given up the statement in hand and is in the outermost
/// scope, which is where that statement stood.  Either way the scopes that
/// were there before the block are sealed: what the block declared is bound
/// in none of them, and what it could not see is as it was.
pub proof fn lemma_machine_runs_block<'s, 'e>(
    host: Host,
    machine: Machine<'s, 'e>,
    body: Vec<Stmt<'e>>,
    event: Event,
)
    requires
        machine.tasks.len() >= 1,
        machine.scope < machine.scopes.len(),
        executed(
            host,
            machine.scopes,
            machine.scope,
            Stmt::Block { statements: body },
        ).scopes.len() <= usize::MAX,
    ensures
        ({
            let block = Stmt::Block { statements: body };
            let outcome = executed(host, machine.scopes, machine.scope, block);
            let reached = run(
                host,
                machine.with_task(Task::Execute(&block)),
                event,
                outcome.steps,
            );
            &&& reached == after_execution(machine, outcome)
            &&& sealed(machine.scopes, reached.machine.scopes, machine.scope)
            &&& reports_last(reached.effects, outcome.failed)
            &&& !outcome.failed ==> reached.machine.scope == machine.scope
                && reached.machine.tasks == machine.tasks && reached.machine.operands
                == machine.operands
            &&& outcome.failed ==> reached.machine.scope == 0 && reached.machine.tasks
                == machine.tasks.take(1) && reached.machine.operands.len() == 0
        }),
{
    let block = Stmt::Block { statements: body };
    lemma_execution(host, machine, block, event);
    lemma_block_is_sealed(host, machine.scopes, machine.scope, body);
    lemma_statement_reports_last(host, machine.scopes, machine.scope, block);
}

/// The machine and a statement of the program.  Whether the statement runs
/// to its end or fails, the machine is afterwards where it was: in the
/// outermost scope, with nothing on the operands and the rest of the
/// program to run.
pub proof fn lemma_machine_runs_top_level<'s, 'e>(
    host: Host,
    scopes: Seq<ScopeModel>,
    rest: Task<'s, 'e>,
    statement: Stmt<'e>,
    event: Event,
)
    requires
        scopes.len() >= 1,
        executed(host, scopes, 0, statement).scopes.len() <= usize::MAX,
    ensures
        ({
            let waiting = Machine {
                scopes,
                scope: 0,
                tasks: seq![rest],
                operands: Seq::empty(),
            };
            let outcome = executed(host, scopes, 0, statement);
            run(
                host,
                waiting.with_task(Task::Execute(&statement)),
                event,
                outcome.steps,
            ).machine == (Machine { scopes: outcome.scopes, ..waiting })
        }),
{
    let waiting = Machine::<'s, 'e> {
        scopes,
        scope: 0,
        tasks: seq![rest],
        operands: Seq::empty(),
    };
    lemma_execution(host, waiting, statement, event);
    assert(waiting.tasks.take(1) =~= waiting.tasks);
}

/// Whether the expression nowhere assigns to the name.
pub open spec fn expression_leaves_alone(expression: Expr, name: Seq<char>) -> bool
    decreases expression,
{
    match expression {
        Expr::Assign { name: target, value } => target.lexeme@ != name && expression_leaves_alone(
            *value,
            name,
        ),
        Expr::Binary { left, operator, right } => expression_leaves_alone(*left, name)
            && expression_leaves_alone(*right, name),
        Expr::Grouping { expression } => expression_leaves_alone(*expression, name),
        Expr::Literal(_) => true,
        Expr::Unary { operator, right } => expression_leaves_alone(*right, name),
        Expr::Variable(_) => true,
    }
}

/// Whether the statement nowhere assigns to the name.  To declare a name is
/// not to assign to it.
pub open spec fn leaves_alone(statement: Stmt, name: Seq<char>) -> bool
    decreases statement,
{
    match statement {
        Stmt::Block { statements } => forall|i: int|
            0 <= i < statements@.len() ==> leaves_alone(#[trigger] statements@[i], name),
        Stmt::Expression(expression) => expression_leaves_alone(*expression, name),
        Stmt::Print(expression) => expression_leaves_alone(*expression, name),
        Stmt::Var { name: declared, initializer } => match initializer {
            Some(expression) => expression_leaves_alone(*expression, name),
            None => true,
        },
    }
}

/// Whether the name has in every scope that was there, but perhaps the
/// scope `but`, the value it had.
pub open spec fn kept(
    before: Seq<ScopeModel>,
    after: Seq<ScopeModel>,
    name: Seq<char>,
    but: Option<nat>,
) -> bool {
    &&& before.len() <= after.len()
    &&& forall|i: int|
        0 <= i < before.len() && Some(i as nat) != but ==> (#[trigger] after[i]).bindings[name]
            == before[i].bindings[name]
}

/// An expression that nowhere assigns to a name leaves the name as it was
/// in every scope.
pub proof fn lemma_unassigned_in_expression(
    host: Host,
    scopes: Seq<ScopeModel>,
    at: nat,
    expression: Expr,
    name: Seq<char>,
)
    requires
        at < scopes.len(),
        expression_leaves_alone(expression, name),
    ensures
        kept(scopes, evaluated(host, scopes, at, expression).scopes, name, None),
    decreases expression,
{
    lemma_expression_is_sealed(host, scopes, at, expression);
    match expression {
        Expr::Grouping { expression } => {
            lemma_unassigned_in_expression(host, scopes, at, *expression, name);
        },
        Expr::Unary { operator, right } => {
            lemma_unassigned_in_expression(host, scopes, at, *right, name);
        },
        Expr::Binary { left, operator, right } => {
            lemma_unassigned_in_expression(host, scopes, at, *left, name);
            lemma_expression_is_sealed(host, scopes, at, *left);
            let first = evaluated(host, scopes, at, *left);
            if first.result is Ok {
                lemma_unassigned_in_expression(host, first.scopes, at, *right, name);
                let second = evaluated(host, first.scopes, at, *right);
                assert forall|i: int| 0 <= i < scopes.len() implies (#[trigger] second.scopes[i]).bindings[name]
                    == scopes[i].bindings[name] by {
                    assert(first.scopes[i].bindings[name] == scopes[i].bindings[name]);
                }
            }
        },
        Expr::Assign { name: target, value } => {
            lemma_unassigned_in_expression(host, scopes, at, *value, name);
            lemma_expression_is_sealed(host, scopes, at, *value);
            let found = evaluated(host, scopes, at, *value);
            lemma_resolve(found.scopes, at, target.lexeme@);
            let after = evaluated(host, scopes, at, expression).scopes;
            assert forall|i: int| 0 <= i < scopes.len() implies (#[trigger] after[i]).bindings[name]
                == scopes[i].bindings[name] by {
                assert(found.scopes[i].bindings[name] == scopes[i].bindings[name]);
            }
        },
        _ => {},
    }
}

/// A statement that nowhere assigns to a name leaves the name as it was in
/// every scope but the one it stands in, where it may have declared it;
/// and a block leaves it as it was in that one too.
pub proof fn lemma_unassigned_in_statement(
    host: Host,
    scopes: Seq<ScopeModel>,
    at: nat,
    statement: Stmt,
    name: Seq<char>,
)
    requires
        at < scopes.len(),
        leaves_alone(statement, name),
    ensures
        kept(scopes, executed(host, scopes, at, statement).scopes, name, Some(at)),
        statement is Block ==> kept(
            scopes,
            executed(host, scopes, at, statement).scopes,
            name,
            None,
        ),
    decreases statement, 0nat,
{
    lemma_statement_is_framed(host, scopes, at, statement);
    match statement {
        Stmt::Expression(expression) => {
            lemma_unassigned_in_expression(host, scopes, at, *expression, name);
        },
        Stmt::Print(expression) => {
            lemma_unassigned_in_expression(host, scopes, at, *expression, name);
        },
        Stmt::Var { name: declared, initializer } => match initializer {
            Some(expression) => {
                lemma_unassigned_in_expression(host, scopes, at, *expression, name);
                lemma_expression_is_sealed(host, scopes, at, *expression);
                let outcome = evaluated(host, scopes, at, *expression);
                let after = executed(host, scopes, at, statement).scopes;
                assert forall|i: int| 0 <= i < scopes.len() && i != at implies (
                #[trigger] after[i]).bindings[name] == scopes[i].bindings[name] by {
                    assert(outcome.scopes[i].bindings[name] == scopes[i].bindings[name]);
                }
            },
            None => {},
        },
        Stmt::Block { statements } => {
            let entered = with_scope(scopes, at);
            let inner: nat = scopes.len();
            lemma_unassigned_in_statements(host, entered, inner, statements, 0, name);
            let after = executed_from(host, entered, inner, statements, 0).scopes;
            assert forall|i: int| 0 <= i < scopes.len() implies (#[trigger] after[i]).bindings[name]
                == scopes[i].bindings[name] by {
                assert(entered[i] == scopes[i]);
            }
        },
    }
}

/// Statements that nowhere assign to a name leave the name as it was in
/// every scope but the one they stand in.
pub proof fn lemma_unassigned_in_statements(
    host: Host,
    scopes: Seq<ScopeModel>,
    at: nat,
    statements: Vec<Stmt>,
    from: nat,
    name: Seq<char>,
)
    requires
        at < scopes.len(),
        forall|i: int| 0 <= i < statements@.len() ==> leaves_alone(#[trigger] statements@[i], name),
    ensures
        kept(scopes, executed_from(host, scopes, at, statements, from).scopes, name, Some(at)),
    decreases statements, statements@.len() - from,
{
    if from < statements@.len() {
        lemma_unassigned_in_statement(host, scopes, at, statements@[from as int], name);
        let first = executed(host, scopes, at, statements@[from as int]);
        if !first.failed {
            lemma_unassigned_in_statements(host, first.scopes, at, statements, from + 1, name);
            let rest = executed_from(host, first.scopes, at, statements, from + 1);
            assert forall|i: int| 0 <= i < scopes.len() && i != at implies (
            #[trigger] rest.scopes[i]).bindings[name] == scopes[i].bindings[name] by {
                assert(first.scopes[i].bindings[name] == scopes[i].bindings[name]);
            }
        }
    }
}

/// Only an assignment changes a binding that was there: a block in which
/// nothing is assigned to a name leaves the name, in every scope that was
/// there before the block, with the value it had.
pub proof fn lemma_block_without_assignment(
    host: Host,
    scopes: Seq<ScopeModel>,
    at: nat,
    body: Vec<Stmt>,
    name: Seq<char>,
)
    requires
        at < scopes.len(),
        forall|i: int| 0 <= i < body@.len() ==> leaves_alone(#[trigger] body@[i], name),
    ensures
        kept(
            scopes,
            executed(host, scopes, at, Stmt::Block { statements: body }).scopes,
            name,
            None,
        ),
{
    lemma_unassigned_in_statement(host, scopes, at, Stmt::Block { statements: body }, name);
}

} // verus!
