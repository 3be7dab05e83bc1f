//! What holds of sequences of calls on an owned set, stated over the views
//! of the set before and after each call.

use vstd::prelude::*;
use crate::util::{Index, MAX_EID};
use crate::BitSet;

verus! {

/// Whether `after` and `was` are what a call of `add` with `id` leaves of
/// `before` and returns.
pub open spec fn adds(before: &BitSet, id: Index, after: &BitSet, was: bool) -> bool {
    &&& before.wf()
    &&& id <= MAX_EID
    &&& after.wf()
    &&& was == before@.contains(id)
    &&& after@ == before@.insert(id)
}

/// Whether `after` and `was` are what a call of `remove` with `id` leaves
/// of `before` and returns.
pub open spec fn removes(before: &BitSet, id: Index, after: &BitSet, was: bool) -> bool {
    &&& before.wf()
    &&& after.wf()
    &&& was == before@.contains(id)
    &&& after@ == before@.remove(id)
}

/// The first `add` of an index that is not in the set returns `false`, and
/// an `add` of the same index that follows it returns `true` and leaves the
/// set as it is. After either the set contains the index.
pub proof fn law_add_twice(
    s0: &BitSet,
    id: Index,
    s1: &BitSet,
    first: bool,
    s2: &BitSet,
    second: bool,
)
    requires
        !s0@.contains(id),
        adds(s0, id, s1, first),
        adds(s1, id, s2, second),
    ensures
        !first,
        second,
        s1@.contains(id),
        s2@.contains(id),
        s2@ == s1@,
{
    assert(s2@ =~= s1@);
}

/// An index that is in the set stays in it through every `add`, and through
/// every `remove` of another index.
pub proof fn law_stays_until_removed(
    s0: &BitSet,
    id: Index,
    other: Index,
    s1: &BitSet,
    was: bool,
)
    requires
        s0@.contains(id),
        adds(s0, other, s1, was) || (other != id && removes(s0, other, s1, was)),
    ensures
        s1@.contains(id),
{
}

/// A `remove` that follows an `add` of the same index returns `true` and
/// leaves a set without the index, and a second `remove` returns `false`
/// and leaves the set as it is.
pub proof fn law_add_remove(
    s0: &BitSet,
    id: Index,
    s1: &BitSet,
    added: bool,
    s2: &BitSet,
    first: bool,
    s3: &BitSet,
    second: bool,
)
    requires
        adds(s0, id, s1, added),
        removes(s1, id, s2, first),
        removes(s2, id, s3, second),
    ensures
        first,
        !s2@.contains(id),
        !second,
        !s3@.contains(id),
        s3@ == s2@,
{
    assert(s3@ =~= s2@);
}

/// A sequence of calls of `add` and `remove`, each starting where the one
/// before ended, leaves the summary bits exact after every call, whatever
/// it was given: the state after a call is well formed if the state before
/// it was.
pub proof fn law_hierarchy_kept(before: &BitSet, id: Index, after: &BitSet, was: bool)
    requires
        adds(before, id, after, was) || removes(before, id, after, was),
    ensures
        crate::exact(after),
        crate::members(after) == after@,
{
    after.lemma_members();
}

} // verus!
