//! Trusted view of `indexmap::IndexSet<ModuleId>`, the insertion-ordered,
//! deduplicated collection that a chunk stores its members in.
//!
//! The set is modelled by `member_ids`: the sequence of member id strings in
//! insertion order. Each wrapper states what the called `IndexSet` method
//! does to that sequence, as indexmap documents it.

use vstd::prelude::*;
use vstd::seq_lib::*;
use crate::module::ModuleId;

verus! {

#[verifier::external_type_specification]
#[verifier::external_body]
#[verifier::reject_recursive_types(T)]
#[verifier::reject_recursive_types(S)]
pub struct ExIndexSet<T, S>(indexmap::IndexSet<T, S>);

/// The ids held by the set, in insertion order.
pub uninterp spec fn member_ids(s: indexmap::IndexSet<ModuleId>) -> Seq<Seq<char>>;

/// Relies on indexmap's `IndexSet::new`: the new set is empty.
#[verifier::external_body]
pub fn iset_new() -> (r: indexmap::IndexSet<ModuleId>)
    ensures
        member_ids(r) == Seq::<Seq<char>>::empty(),
{
    indexmap::IndexSet::new()
}

/// Relies on indexmap's `IndexSet::insert`: a new item is inserted at the
/// end and `true` is returned; an equivalent existing item leaves the set
/// and its order unchanged and `false` is returned.
#[verifier::external_body]
pub fn iset_insert(s: &mut indexmap::IndexSet<ModuleId>, m: ModuleId) -> (r: bool)
    ensures
        r == !member_ids(*old(s)).contains(m@),
        r ==> member_ids(*final(s)) == member_ids(*old(s)).push(m@),
        !r ==> member_ids(*final(s)) == member_ids(*old(s)),
{
    s.insert(m)
}

/// Relies on indexmap's `IndexSet::shift_remove`: removes the equivalent
/// item if present, shifting every later item down so insertion order is
/// kept, and returns whether the item was there.
#[verifier::external_body]
pub fn iset_shift_remove(s: &mut indexmap::IndexSet<ModuleId>, m: &ModuleId) -> (r: bool)
    ensures
        r == member_ids(*old(s)).contains(m@),
        member_ids(*final(s)) == member_ids(*old(s)).remove_value(m@),
{
    s.shift_remove(m)
}

/// Relies on indexmap's `IndexSet::contains`.
#[verifier::external_body]
pub fn iset_contains(s: &indexmap::IndexSet<ModuleId>, m: &ModuleId) -> (r: bool)
    ensures
        r == member_ids(*s).contains(m@),
{
    s.contains(m)
}

/// Relies on indexmap's `IndexSet::len`.
#[verifier::external_body]
pub fn iset_len(s: &indexmap::IndexSet<ModuleId>) -> (r: usize)
    ensures
        r == member_ids(*s).len(),
{
    s.len()
}

/// Relies on indexmap's `IndexSet::iter`: yields the items in insertion
/// order; the wrapper clones them into a vector.
#[verifier::external_body]
pub fn iset_to_vec(s: &indexmap::IndexSet<ModuleId>) -> (r: Vec<ModuleId>)
    ensures
        r@.len() == member_ids(*s).len(),
        forall|i: int| 0 <= i < r@.len() ==> r@[i]@ == member_ids(*s)[i],
{
    s.iter().cloned().collect()
}

} // verus!
