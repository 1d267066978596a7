//! The set of entities that a collision phase has already used up.

use vstd::prelude::*;
use crate::components::EntityId;

verus! {

/// Handles of the entities used up in the running phase: projectiles that
/// have hit something and targets that were destroyed. The handles are kept
/// in a hash set of `bevy::utils`.
#[verifier::external_body]
pub struct Consumed {
    set: bevy::utils::HashSet<EntityId>,
}

/// The handles that the hash set holds.
pub uninterp spec fn consumed_ids(consumed: Consumed) -> Set<EntityId>;

/// Calls `HashSet::new` of `bevy::utils`, which gives a set that holds
/// nothing.
#[verifier::external_body]
pub(crate) fn consumed_new() -> (consumed: Consumed)
    ensures
        consumed_ids(consumed) == Set::<EntityId>::empty(),
{
    Consumed { set: bevy::utils::HashSet::new() }
}

/// Calls `HashSet::contains`, which tells whether the set holds the handle.
#[verifier::external_body]
pub(crate) fn consumed_contains(consumed: &Consumed, id: EntityId) -> (held: bool)
    ensures
        held == consumed_ids(*consumed).contains(id),
{
    consumed.set.contains(&id)
}

/// Calls `HashSet::insert`, after which the set holds the handle besides
/// what it held before.
#[verifier::external_body]
pub(crate) fn consumed_insert(consumed: &mut Consumed, id: EntityId)
    ensures
        consumed_ids(*final(consumed)) == consumed_ids(*old(consumed)).insert(id),
{
    consumed.set.insert(id);
}

} // verus!
