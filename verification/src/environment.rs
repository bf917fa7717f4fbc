//! Lexical scopes: a store of scope records, each naming the scope that
//! encloses it by index.
//!
//! A scope lives as long as the store, so an inner scope can never outlive
//! the one it points to, and two scopes may share an enclosing one.  A
//! lookup starts at a scope and walks outwards.

use crate::token::Token;
use crate::value::{undefined, RuntimeError, Value, ValueModel};
use vstd::prelude::*;

verus! {

/// One scope: its bindings, and the scope around it.
pub struct Scope<'a> {
    enclosing: Option<usize>,
    names: Vec<String>,
    values: Vec<&'a Value>,
}

pub struct ScopeModel {
    pub enclosing: Option<nat>,
    pub bindings: Map<Seq<char>, ValueModel>,
}

/// The bindings that a list of definitions leaves, a later one replacing an
/// earlier one of the same name.
pub open spec fn bound<'a>(names: Seq<String>, values: Seq<&'a Value>) -> Map<
    Seq<char>,
    ValueModel,
>
    decreases names.len(),
{
    if names.len() == 0 || values.len() != names.len() {
        Map::empty()
    } else {
        bound(names.drop_last(), values.drop_last()).insert(names.last()@, values.last()@)
    }
}

/// The innermost scope, from `scope` outwards, that binds `name`.
pub open spec fn resolve(scopes: Seq<ScopeModel>, scope: nat, name: Seq<char>) -> Option<nat>
    decreases scope,
{
    if scope >= scopes.len() {
        None
    } else if scopes[scope as int].bindings.contains_key(name) {
        Some(scope)
    } else {
        match scopes[scope as int].enclosing {
            Some(outer) => if outer < scope {
                resolve(scopes, outer, name)
            } else {
                None
            },
            None => None,
        }
    }
}

/// The scope that binds a name is one of the scopes, no further in than the
/// one the walk began at, and does bind the name.
pub proof fn lemma_resolve(scopes: Seq<ScopeModel>, scope: nat, name: Seq<char>)
    ensures
        match resolve(scopes, scope, name) {
            Some(holder) => holder <= scope && holder < scopes.len()
                && scopes[holder as int].bindings.contains_key(name),
            None => true,
        },
    decreases scope,
{
    if scope < scopes.len() && !scopes[scope as int].bindings.contains_key(name) {
        match scopes[scope as int].enclosing {
            Some(outer) => if outer < scope {
                lemma_resolve(scopes, outer, name);
            },
            None => {},
        }
    }
}

/// What `name` stands for, seen from `scope`.
pub open spec fn lookup(scopes: Seq<ScopeModel>, scope: nat, name: Seq<char>) -> Option<
    ValueModel,
> {
    match resolve(scopes, scope, name) {
        Some(holder) => Some(scopes[holder as int].bindings[name]),
        None => None,
    }
}

/// The scopes with `name` bound to `value` in `scope`, and nothing else
/// changed.
pub open spec fn with_binding(
    scopes: Seq<ScopeModel>,
    scope: nat,
    name: Seq<char>,
    value: ValueModel,
) -> Seq<ScopeModel> {
    scopes.update(
        scope as int,
        ScopeModel {
            enclosing: scopes[scope as int].enclosing,
            bindings: scopes[scope as int].bindings.insert(name, value),
        },
    )
}

/// The scopes after `name` has been assigned `value` from `scope`: the
/// innermost binding replaced, or nothing changed where there is none.
pub open spec fn assigned(
    scopes: Seq<ScopeModel>,
    scope: nat,
    name: Seq<char>,
    value: ValueModel,
) -> Seq<ScopeModel> {
    match resolve(scopes, scope, name) {
        Some(holder) => with_binding(scopes, holder, name, value),
        None => scopes,
    }
}

/// A name that no scope binds, seen from `scope`, has no value there, and
/// assigning to it from there binds nothing: the scopes stay as they were,
/// so the name is as unbound afterwards, from wherever it is looked up.
pub proof fn lemma_assignment_never_defines(
    scopes: Seq<ScopeModel>,
    scope: nat,
    name: Seq<char>,
    value: ValueModel,
)
    requires
        resolve(scopes, scope, name) is None,
    ensures
        lookup(scopes, scope, name) is None,
        assigned(scopes, scope, name, value) == scopes,
        forall|from: nat| #[trigger]
            resolve(assigned(scopes, scope, name, value), from, name) == resolve(
                scopes,
                from,
                name,
            ),
{
}

/// The scopes with a new, empty one inside `enclosing` added at the end.
pub open spec fn with_scope(scopes: Seq<ScopeModel>, enclosing: nat) -> Seq<ScopeModel> {
    scopes.push(ScopeModel { enclosing: Some(enclosing), bindings: Map::empty() })
}

impl<'a> View for Scope<'a> {
    type V = ScopeModel;

    closed spec fn view(&self) -> ScopeModel {
        ScopeModel {
            enclosing: match self.enclosing {
                Some(outer) => Some(outer as nat),
                None => None,
            },
            bindings: bound(self.names@, self.values@),
        }
    }
}

/// No definition after `from` is of `name`.
spec fn absent_after(names: Seq<String>, from: int, name: Seq<char>) -> bool {
    forall|j: int| from < j < names.len() ==> (#[trigger] names[j])@ != name
}

/// Where no definition is of `name`, nothing is bound to it.
proof fn lemma_absent<'a>(names: Seq<String>, values: Seq<&'a Value>, name: Seq<char>)
    requires
        names.len() == values.len(),
        absent_after(names, -1, name),
    ensures
        !bound(names, values).contains_key(name),
    decreases names.len(),
{
    if names.len() > 0 {
        assert(names.last()@ != name);
        assert forall|j: int| -1 < j < names.drop_last().len() implies (#[trigger] names.drop_last()[j])@
            != name by {
            assert(names.drop_last()[j] == names[j]);
        }
        lemma_absent(names.drop_last(), values.drop_last(), name);
    }
}

/// The last definition of a name is its binding.
proof fn lemma_present<'a>(names: Seq<String>, values: Seq<&'a Value>, at: int, name: Seq<char>)
    requires
        names.len() == values.len(),
        0 <= at < names.len(),
        names[at]@ == name,
        absent_after(names, at, name),
    ensures
        bound(names, values).contains_key(name),
        bound(names, values)[name] == values[at]@,
    decreases names.len(),
{
    if at < names.len() - 1 {
        assert(names.last()@ != name);
        assert forall|j: int| at < j < names.drop_last().len() implies (#[trigger] names.drop_last()[j])@
            != name by {
            assert(names.drop_last()[j] == names[j]);
        }
        lemma_present(names.drop_last(), values.drop_last(), at, name);
    }
}

/// Replacing the value of the last definition of a name rebinds that name
/// and no other.
proof fn lemma_replaced<'a>(
    names: Seq<String>,
    values: Seq<&'a Value>,
    at: int,
    name: Seq<char>,
    value: &'a Value,
)
    requires
        names.len() == values.len(),
        0 <= at < names.len(),
        names[at]@ == name,
        absent_after(names, at, name),
    ensures
        bound(names, values.update(at, value)) == bound(names, values).insert(name, value@),
    decreases names.len(),
{
    let replaced = values.update(at, value);
    if at == names.len() - 1 {
        assert(replaced.drop_last() =~= values.drop_last());
        assert(bound(names, replaced) =~= bound(names, values).insert(name, value@));
    } else {
        assert(names.last()@ != name);
        assert forall|j: int| at < j < names.drop_last().len() implies (#[trigger] names.drop_last()[j])@
            != name by {
            assert(names.drop_last()[j] == names[j]);
        }
        lemma_replaced(names.drop_last(), values.drop_last(), at, name, value);
        assert(replaced.drop_last() =~= values.drop_last().update(at, value));
        assert(bound(names, replaced) =~= bound(names, values).insert(name, value@));
    }
}

impl<'a> Scope<'a> {
    spec fn wf(&self) -> bool {
        self.names@.len() == self.values@.len()
    }

    /// The place of the last definition of `name`, if it has one.
    fn find(&self, name: &String) -> (place: Option<usize>)
        requires
            self.wf(),
        ensures
            match place {
                Some(at) => at < self.names@.len() && self.names@[at as int]@ == name@
                    && absent_after(self.names@, at as int, name@) && self@.bindings.contains_key(
                    name@,
                ) && self@.bindings[name@] == self.values@[at as int]@,
                None => !self@.bindings.contains_key(name@),
            },
    {
        let mut at: usize = self.names.len();
        while at > 0
            invariant
                at <= self.names@.len(),
                self.wf(),
                absent_after(self.names@, at as int - 1, name@),
            decreases at,
        {
            at = at - 1;
            if self.names[at] == *name {
                proof {
                    lemma_present(self.names@, self.values@, at as int, name@);
                }
                return Some(at);
            }
        }
        proof {
            lemma_absent(self.names@, self.values@, name@);
        }
        None
    }
}

pub struct Environment<'a> {
    scopes: Vec<Scope<'a>>,
}

impl<'a> View for Environment<'a> {
    type V = Seq<ScopeModel>;

    closed spec fn view(&self) -> Seq<ScopeModel> {
        Seq::new(self.scopes@.len(), |i: int| self.scopes@[i]@)
    }
}

/// Every scope but the first lies inside an earlier one.
pub open spec fn nested(scopes: Seq<ScopeModel>) -> bool {
    forall|i: int|
        0 <= i < scopes.len() ==> match (#[trigger] scopes[i]).enclosing {
            Some(outer) => outer < i,
            None => true,
        }
}

impl<'a> Environment<'a> {
    /// The scopes are well nested, and the store is not empty.
    pub closed spec fn wf(&self) -> bool {
        &&& self.scopes@.len() > 0
        &&& nested(self@)
        &&& forall|i: int| 0 <= i < self.scopes@.len() ==> (#[trigger] self.scopes@[i]).wf()
    }

    /// A store with one scope, the outermost, at index 0.
    pub fn new() -> (environment: Environment<'a>)
        ensures
            environment.wf(),
            environment@ == seq![ScopeModel { enclosing: None, bindings: Map::empty() }],
    {
        let mut scopes: Vec<Scope<'a>> = Vec::new();
        scopes.push(Scope { enclosing: None, names: Vec::new(), values: Vec::new() });
        let environment = Environment { scopes };
        assert(environment@ =~= seq![ScopeModel { enclosing: None, bindings: Map::empty() }]);
        environment
    }

    /// The number of scopes.
    pub fn len(&self) -> (count: usize)
        ensures
            count == self@.len(),
    {
        self.scopes.len()
    }

    /// Adds an empty scope inside `enclosing` and hands back its index.
    pub fn new_with_enclosing(&mut self, enclosing: usize) -> (scope: usize)
        requires
            old(self).wf(),
            enclosing < old(self)@.len(),
        ensures
            final(self).wf(),
            scope == old(self)@.len(),
            final(self)@ == with_scope(old(self)@, enclosing as nat),
    {
        let scope: usize = self.scopes.len();
        self.scopes.push(Scope { enclosing: Some(enclosing), names: Vec::new(), values: Vec::new() });
        assert(self@ =~= with_scope(old(self)@, enclosing as nat));
        scope
    }

    /// The value that `name` stands for, seen from `scope`: that of the
    /// innermost scope that binds it.  Fails, naming the variable, where none
    /// does.
    pub fn get(&self, scope: usize, name: &Token) -> (found: Result<&'a Value, RuntimeError>)
        requires
            self.wf(),
            scope < self@.len(),
        ensures
            match lookup(self@, scope as nat, name.lexeme@) {
                Some(value) => found matches Ok(held) && held@ == value,
                None => found matches Err(error) && error@ == undefined(*name),
            },
    {
        let mut at: usize = scope;
        loop
            invariant
                self.wf(),
                at < self@.len(),
                lookup(self@, at as nat, name.lexeme@) == lookup(
                    self@,
                    scope as nat,
                    name.lexeme@,
                ),
            decreases at,
        {
            let here = &self.scopes[at];
            assert(self@[at as int] == here@);
            match here.find(&name.lexeme) {
                Some(place) => {
                    return Ok(here.values[place]);
                },
                None => {},
            }
            match here.enclosing {
                Some(outer) => {
                    at = outer;
                },
                None => {
                    return Err(RuntimeError::undefined(name));
                },
            }
        }
    }

    /// Gives `name` a new value in the innermost scope, from `scope`
    /// outwards, that binds it.  Fails, naming the variable and changing
    /// nothing, where none does.
    pub fn assign(&mut self, scope: usize, name: &Token, value: &'a Value) -> (done: Result<
        (),
        RuntimeError,
    >)
        requires
            old(self).wf(),
            scope < old(self)@.len(),
        ensures
            final(self).wf(),
            final(self)@ == assigned(old(self)@, scope as nat, name.lexeme@, value@),
            final(self)@.len() == old(self)@.len(),
            match resolve(old(self)@, scope as nat, name.lexeme@) {
                Some(_) => done is Ok,
                None => done matches Err(error) && error@ == undefined(*name) && final(self)@
                    == old(self)@,
            },
    {
        proof {
            lemma_resolve(self@, scope as nat, name.lexeme@);
        }
        let mut at: usize = scope;
        loop
            invariant
                self.wf(),
                *self == *old(self),
                at < self@.len(),
                resolve(self@, at as nat, name.lexeme@) == resolve(
                    self@,
                    scope as nat,
                    name.lexeme@,
                ),
            decreases at,
        {
            assert(self@[at as int] == self.scopes@[at as int]@);
            let found = self.scopes[at].find(&name.lexeme);
            match found {
                Some(place) => {
                    self.put(at, place, Ghost(name.lexeme@), value);
                    return Ok(());
                },
                None => {},
            }
            match self.scopes[at].enclosing {
                Some(outer) => {
                    at = outer;
                },
                None => {
                    return Err(RuntimeError::undefined(name));
                },
            }
        }
    }

    /// Binds `name` to `value` in `scope`, whether or not it was bound there
    /// before.  Other scopes are left as they are.
    pub fn define(&mut self, scope: usize, name: String, value: &'a Value)
        requires
            old(self).wf(),
            scope < old(self)@.len(),
        ensures
            final(self).wf(),
            final(self)@ == with_binding(old(self)@, scope as nat, name@, value@),
    {
        assert(self@[scope as int] == self.scopes@[scope as int]@);
        let found = self.scopes[scope].find(&name);
        match found {
            Some(place) => {
                self.put(scope, place, Ghost(name@), value);
            },
            None => {
                self.add(scope, name, value);
            },
        }
    }

    /// Replaces the value of the definition at `place` of `scope`, the last
    /// one of its name.
    fn put(&mut self, scope: usize, place: usize, Ghost(name): Ghost<Seq<char>>, value: &'a Value)
        requires
            old(self).wf(),
            scope < old(self)@.len(),
            place < old(self).scopes@[scope as int].names@.len(),
            old(self).scopes@[scope as int].names@[place as int]@ == name,
            absent_after(old(self).scopes@[scope as int].names@, place as int, name),
        ensures
            final(self).wf(),
            final(self)@ == with_binding(old(self)@, scope as nat, name, value@),
    {
        let mut held: Scope<'a> = Scope { enclosing: None, names: Vec::new(), values: Vec::new() };
        core::mem::swap(&mut held, &mut self.scopes[scope]);
        proof {
            lemma_replaced(held.names@, held.values@, place as int, name, value);
        }
        held.values[place] = value;
        self.scopes[scope] = held;
        assert(self@ =~= with_binding(old(self)@, scope as nat, name, value@));
        assert(nested(self@)) by {
            assert forall|i: int| 0 <= i < self@.len() implies match (#[trigger] self@[i]).enclosing {
                Some(outer) => outer < i,
                None => true,
            } by {
                assert(self@[i].enclosing == old(self)@[i].enclosing);
            }
        }
    }

    /// Adds a definition at the end of `scope`.
    fn add(&mut self, scope: usize, name: String, value: &'a Value)
        requires
            old(self).wf(),
            scope < old(self)@.len(),
        ensures
            final(self).wf(),
            final(self)@ == with_binding(old(self)@, scope as nat, name@, value@),
    {
        let mut held: Scope<'a> = Scope { enclosing: None, names: Vec::new(), values: Vec::new() };
        core::mem::swap(&mut held, &mut self.scopes[scope]);
        let ghost names = held.names@;
        let ghost values = held.values@;
        held.names.push(name);
        held.values.push(value);
        assert(held.names@.drop_last() =~= names);
        assert(held.values@.drop_last() =~= values);
        self.scopes[scope] = held;
        assert(self@ =~= with_binding(old(self)@, scope as nat, name@, value@));
        assert(nested(self@)) by {
            assert forall|i: int| 0 <= i < self@.len() implies match (#[trigger] self@[i]).enclosing {
                Some(outer) => outer < i,
                None => true,
            } by {
                assert(self@[i].enclosing == old(self)@[i].enclosing);
            }
        }
    }
}

} // verus!
