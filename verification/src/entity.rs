//! The entity registry: issues identifiers, tracks which are alive, and
//! applies deferred deletion.

use vstd::prelude::*;

use crate::{EcsError, EntityId, MAX_ENTITIES};

verus! {

/// Returns whether `v` holds `id`.
pub fn contains_id(v: &Vec<EntityId>, id: EntityId) -> (r: bool)
    ensures
        r == v@.contains(id),
{
    let mut i: usize = 0;
    while i < v.len()
        invariant
            i <= v@.len(),
            forall|j: int| 0 <= j < i ==> v@[j] != id,
        decreases v@.len() - i,
    {
        if v[i] == id {
            return true;
        }
        i = i + 1;
    }
    false
}

/// Issues entity identifiers, tracks the alive set, and holds the set of
/// entities marked for removal until the next housekeeping pass.
pub struct EntityManager {
    next_entity_id: EntityId,
    active_entities: Vec<EntityId>,
    entities_to_remove: Vec<EntityId>,
}

impl EntityManager {
    /// The identifiers of the entities that are currently alive, in the order
    /// they were created.
    pub closed spec fn active(&self) -> Seq<EntityId> {
        self.active_entities@
    }

    /// The identifiers marked for removal since the last housekeeping pass.
    pub closed spec fn pending_removal(&self) -> Seq<EntityId> {
        self.entities_to_remove@
    }

    /// The identifier the next successful `create_entity` will hand out.
    pub closed spec fn next_id(&self) -> EntityId {
        self.next_entity_id
    }

    pub open spec fn spec_is_active(&self, id: EntityId) -> bool {
        self.active().contains(id)
    }

    /// Well-formedness: alive identifiers are strictly increasing (hence
    /// unique), all below the next identifier, and at most `MAX_ENTITIES`
    /// many; the pending set holds no duplicates and only alive identifiers.
    pub open spec fn wf(&self) -> bool {
        &&& forall|i: int, j: int|
            0 <= i < j < self.active().len() ==> self.active()[i] < self.active()[j]
        &&& forall|i: int| 0 <= i < self.active().len() ==> self.active()[i] < self.next_id()
        &&& self.active().len() <= MAX_ENTITIES
        &&& self.pending_removal().no_duplicates()
        &&& forall|i: int|
            0 <= i < self.pending_removal().len() ==> self.active().contains(
                #[trigger] self.pending_removal()[i],
            )
    }

    pub fn new() -> (r: Self)
        ensures
            r.wf(),
            r.active() === Seq::<EntityId>::empty(),
            r.pending_removal() === Seq::<EntityId>::empty(),
            r.next_id() == 0,
    {
        EntityManager {
            next_entity_id: 0,
            active_entities: Vec::new(),
            entities_to_remove: Vec::new(),
        }
    }

    /// Creates a new entity and returns its identifier. Fails exactly when
    /// the registry already holds `MAX_ENTITIES` live entities (or, at the
    /// machine's limit, when the identifier space is exhausted); on failure
    /// nothing changes.
    pub fn create_entity(&mut self) -> (r: Result<EntityId, EcsError>)
        requires
            old(self).wf(),
        ensures
            final(self).wf(),
            (r is Ok) <==> (old(self).active().len() < MAX_ENTITIES && old(self).next_id()
                < usize::MAX),
            r matches Ok(id) ==> {
                &&& id == old(self).next_id()
                &&& !old(self).spec_is_active(id)
                &&& final(self).active() === old(self).active().push(id)
                &&& final(self).next_id() == id + 1
                &&& final(self).pending_removal() === old(self).pending_removal()
            },
            r is Err ==> *final(self) == *old(self) && r == Err::<EntityId, EcsError>(
                EcsError::CapacityReached,
            ),
    {
        if self.active_entities.len() >= MAX_ENTITIES || self.next_entity_id == usize::MAX {
            return Err(EcsError::CapacityReached);
        }
        let entity_id = self.next_entity_id;
        proof {
            if self.active().contains(entity_id) {
                let j = choose|j: int|
                    0 <= j < self.active().len() && self.active()[j] == entity_id;
                assert(self.active()[j] < self.next_id());
            }
        }
        self.next_entity_id = self.next_entity_id + 1;
        self.active_entities.push(entity_id);
        proof {
            // Appending to the alive list keeps the pending identifiers in it.
            assert forall|i: int|
                0 <= i < self.pending_removal().len() implies self.active().contains(
                #[trigger] self.pending_removal()[i],
            ) by {
                let p = self.pending_removal()[i];
                let j = choose|j: int|
                    0 <= j < old(self).active().len() && old(self).active()[j] == p;
                assert(self.active()[j] == p);
            }
        }
        Ok(entity_id)
    }

    /// Marks an entity for removal; the removal itself happens in the next
    /// `update`. Marking a dead or already-marked entity changes nothing.
    pub fn mark_entity_for_removal(&mut self, entity_id: EntityId)
        requires
            old(self).wf(),
        ensures
            final(self).wf(),
            final(self).active() === old(self).active(),
            final(self).next_id() == old(self).next_id(),
            final(self).pending_removal() === if old(self).spec_is_active(entity_id) && !old(
                self,
            ).pending_removal().contains(entity_id) {
                old(self).pending_removal().push(entity_id)
            } else {
                old(self).pending_removal()
            },
    {
        if contains_id(&self.active_entities, entity_id) && !contains_id(
            &self.entities_to_remove,
            entity_id,
        ) {
            self.entities_to_remove.push(entity_id);
        }
    }

    /// The housekeeping pass: removes every entity marked for removal from
    /// the alive set and clears the pending set.
    pub fn update(&mut self)
        requires
            old(self).wf(),
        ensures
            final(self).wf(),
            final(self).next_id() == old(self).next_id(),
            final(self).pending_removal() === Seq::<EntityId>::empty(),
            forall|id: EntityId|
                final(self).spec_is_active(id) <==> (old(self).spec_is_active(id) && !old(
                    self,
                ).pending_removal().contains(id)),
    {
        let mut kept: Vec<EntityId> = Vec::new();
        let mut i: usize = 0;
        while i < self.active_entities.len()
            invariant
                self.wf(),
                i <= self.active().len(),
                forall|a: int|
                    0 <= a < kept@.len() ==> exists|j: int|
                        0 <= j < i && self.active()[j] == #[trigger] kept@[a] && !self.pending_removal().contains(kept@[a]),
                forall|j: int|
                    0 <= j < i && !self.pending_removal().contains(#[trigger] self.active()[j])
                        ==> kept@.contains(self.active()[j]),
                forall|a: int, b: int| 0 <= a < b < kept@.len() ==> kept@[a] < kept@[b],
                forall|a: int| 0 <= a < kept@.len() ==> kept@[a] < self.next_id(),
                kept@.len() <= i,
            decreases self.active().len() - i,
        {
            let id = self.active_entities[i];
            if !contains_id(&self.entities_to_remove, id) {
                proof {
                    // Every element of `kept` comes from the strict prefix of
                    // the alive list, so it is strictly below the element
                    // pushed now.
                    assert forall|a: int| 0 <= a < kept@.len() implies kept@[a] < id by {
                        let j = choose|j: int|
                            0 <= j < i && self.active()[j] == kept@[a]
                                && !self.pending_removal().contains(kept@[a]);
                        assert(self.active()[j] < self.active()[i as int]);
                    }
                }
                let ghost before = kept@;
                kept.push(id);
                proof {
                    assert forall|j: int|
                        0 <= j < i + 1 && !self.pending_removal().contains(
                            #[trigger] self.active()[j],
                        ) implies kept@.contains(self.active()[j]) by {
                        if j == i {
                            assert(kept@[kept@.len() - 1] == self.active()[j]);
                        } else {
                            let a = choose|a: int|
                                0 <= a < before.len() && before[a] == self.active()[j];
                            assert(kept@[a] == self.active()[j]);
                        }
                    }
                }
            }
            i = i + 1;
        }
        proof {
            let full = self.active();
            let p = self.pending_removal();
            assert forall|id: EntityId|
                kept@.contains(id) <==> (full.contains(id) && !p.contains(id)) by {
                if kept@.contains(id) {
                    let a = choose|a: int| 0 <= a < kept@.len() && kept@[a] == id;
                    let j = choose|j: int|
                        0 <= j < full.len() && full[j] == kept@[a] && !p.contains(kept@[a]);
                    assert(full[j] == id);
                }
                if full.contains(id) && !p.contains(id) {
                    let j = choose|j: int| 0 <= j < full.len() && full[j] == id;
                    assert(kept@.contains(full[j]));
                }
            }
        }
        self.active_entities = kept;
        self.entities_to_remove = Vec::new();
    }

    /// Returns whether the entity is alive.
    pub fn is_entity_active(&self, entity_id: EntityId) -> (r: bool)
        ensures
            r == self.spec_is_active(entity_id),
    {
        contains_id(&self.active_entities, entity_id)
    }

    /// The identifiers of all alive entities, in creation order.
    pub fn active_ids(&self) -> (r: Vec<EntityId>)
        ensures
            r@ === self.active(),
    {
        self.active_entities.clone()
    }

    /// How many entities are alive.
    pub fn entity_count(&self) -> (r: usize)
        ensures
            r == self.active().len(),
    {
        self.active_entities.len()
    }

    /// Removes every entity at once, pending marks included.
    pub fn clear_all_entities(&mut self)
        ensures
            final(self).wf(),
            final(self).active() === Seq::<EntityId>::empty(),
            final(self).pending_removal() === Seq::<EntityId>::empty(),
            final(self).next_id() == old(self).next_id(),
    {
        self.active_entities = Vec::new();
        self.entities_to_remove = Vec::new();
    }
}

} // verus!
