//! The arena that owns syntax-tree nodes and runtime values.

use typed_arena::Arena;
use vstd::prelude::*;

verus! {

/// `typed_arena::Arena`, taken as it is: nothing is said of what is inside.
#[verifier::external_type_specification]
#[verifier::external_body]
#[verifier::reject_recursive_types(T)]
pub struct ExArena<T>(Arena<T>);

/// `Arena::alloc` moves `value` into the arena and returns a reference to its
/// new home, valid for as long as the arena is.  The contract claims only
/// that the referent is the value that was passed in.
#[verifier::external_body]
pub(crate) fn allocate<'a, T>(arena: &'a Arena<T>, value: T) -> (slot: &'a T)
    ensures
        *slot == value,
{
    arena.alloc(value)
}

} // verus!
