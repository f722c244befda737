//! The world: entities and their components for one game instance.

use vstd::prelude::*;

use crate::component::{
    CardInfo, Clickable, ComponentStorage, Draggable, Droppable, Renderable, StackContainer,
    Transform,
};
use crate::entity::EntityManager;
use crate::{EcsError, EntityId, COORD_LIMIT, SIZE_LIMIT, Z_LIMIT};

verus! {

/// Composes the entity registry with one component table per kind.
pub struct World {
    entity_manager: EntityManager,
    transforms: ComponentStorage<Transform>,
    card_infos: ComponentStorage<CardInfo>,
    renderables: ComponentStorage<Renderable>,
    draggables: ComponentStorage<Draggable>,
    clickables: ComponentStorage<Clickable>,
    stacks: ComponentStorage<StackContainer>,
    droppables: ComponentStorage<Droppable>,
}

impl World {
    /// The identifiers of the alive entities, in creation order.
    pub closed spec fn alive_seq(&self) -> Seq<EntityId> {
        self.entity_manager.active()
    }

    /// The identifiers marked for removal since the last housekeeping pass.
    pub closed spec fn pending_removal(&self) -> Seq<EntityId> {
        self.entity_manager.pending_removal()
    }

    /// The identifier the next successful `create_entity` hands out.
    pub closed spec fn next_id(&self) -> EntityId {
        self.entity_manager.next_id()
    }

    pub open spec fn spec_alive(&self, id: EntityId) -> bool {
        self.alive_seq().contains(id)
    }

    /// The transform of an entity; `None` for a dead entity.
    pub closed spec fn transform_raw(&self, id: EntityId) -> Option<Transform> {
        self.transforms.spec_get(id)
    }

    pub open spec fn spec_transform(&self, id: EntityId) -> Option<Transform> {
        if self.spec_alive(id) {
            self.transform_raw(id)
        } else {
            None
        }
    }

    /// The card identity of an entity; `None` for a dead entity.
    pub closed spec fn card_raw(&self, id: EntityId) -> Option<CardInfo> {
        self.card_infos.spec_get(id)
    }

    pub open spec fn spec_card(&self, id: EntityId) -> Option<CardInfo> {
        if self.spec_alive(id) {
            self.card_raw(id)
        } else {
            None
        }
    }

    /// The renderable of an entity; `None` for a dead entity.
    pub closed spec fn renderable_raw(&self, id: EntityId) -> Option<Renderable> {
        self.renderables.spec_get(id)
    }

    pub open spec fn spec_renderable(&self, id: EntityId) -> Option<Renderable> {
        if self.spec_alive(id) {
            self.renderable_raw(id)
        } else {
            None
        }
    }

    /// The drag bookkeeping of an entity; `None` for a dead entity.
    pub closed spec fn draggable_raw(&self, id: EntityId) -> Option<Draggable> {
        self.draggables.spec_get(id)
    }

    pub open spec fn spec_draggable(&self, id: EntityId) -> Option<Draggable> {
        if self.spec_alive(id) {
            self.draggable_raw(id)
        } else {
            None
        }
    }

    /// The click bookkeeping of an entity; `None` for a dead entity.
    pub closed spec fn clickable_raw(&self, id: EntityId) -> Option<Clickable> {
        self.clickables.spec_get(id)
    }

    pub open spec fn spec_clickable(&self, id: EntityId) -> Option<Clickable> {
        if self.spec_alive(id) {
            self.clickable_raw(id)
        } else {
            None
        }
    }

    /// The stack container of an entity; `None` for a dead entity.
    pub closed spec fn stack_raw(&self, id: EntityId) -> Option<StackContainer> {
        self.stacks.spec_get(id)
    }

    pub open spec fn spec_stack(&self, id: EntityId) -> Option<StackContainer> {
        if self.spec_alive(id) {
            self.stack_raw(id)
        } else {
            None
        }
    }

    /// The drop-target marker of an entity; `None` for a dead entity.
    pub closed spec fn droppable_raw(&self, id: EntityId) -> Option<Droppable> {
        self.droppables.spec_get(id)
    }

    pub open spec fn spec_droppable(&self, id: EntityId) -> Option<Droppable> {
        if self.spec_alive(id) {
            self.droppable_raw(id)
        } else {
            None
        }
    }

    /// Identifiers that were never handed out carry no components.
    closed spec fn fresh_ids_clean(&self) -> bool {
        forall|id: EntityId|
            id >= self.next_id() ==> {
                &&& self.transforms.spec_get(id) is None
                &&& self.card_infos.spec_get(id) is None
                &&& self.renderables.spec_get(id) is None
                &&& self.draggables.spec_get(id) is None
                &&& self.clickables.spec_get(id) is None
                &&& self.stacks.spec_get(id) is None
                &&& self.droppables.spec_get(id) is None
            }
    }

    pub closed spec fn wf(&self) -> bool {
        &&& self.entity_manager.wf()
        &&& self.fresh_ids_clean()
    }

    /// In a well-formed world the alive list is strictly increasing (hence
    /// free of duplicates) and holds at most `MAX_ENTITIES` identifiers.
    pub proof fn lemma_wf_alive_distinct(&self)
        requires
            self.wf(),
        ensures
            forall|i: int, j: int|
                0 <= i < j < self.alive_seq().len() ==> self.alive_seq()[i] < self.alive_seq()[j],
            self.alive_seq().no_duplicates(),
            self.alive_seq().len() <= crate::MAX_ENTITIES,
    {
    }

    /// In a well-formed world every alive identifier lies below the next one
    /// to be handed out, so an identifier at or above it is not alive.
    pub proof fn lemma_alive_below_next(&self)
        requires
            self.wf(),
        ensures
            forall|id: EntityId| #[trigger] self.spec_alive(id) ==> id < self.next_id(),
    {
        assert forall|id: EntityId| #[trigger] self.spec_alive(id) implies id < self.next_id() by {
            let j = choose|j: int| 0 <= j < self.alive_seq().len() && self.alive_seq()[j] == id;
            assert(self.alive_seq()[j] < self.next_id());
        }
    }

    /// The draw order of an entity; 0 where the entity has no transform.
    pub open spec fn z_at(&self, id: EntityId) -> i64 {
        match self.spec_transform(id) {
            Some(t) => t.z_index,
            None => 0,
        }
    }

    /// Whether the point lies in the visible box of the entity: the entity
    /// has a transform and a visible renderable whose box, anchored at the
    /// position, contains the point (bounds included).
    pub open spec fn hit_at(&self, id: EntityId, x: i64, y: i64) -> bool {
        self.spec_transform(id) matches Some(t) && self.spec_renderable(id) matches Some(r)
            && r.visible && t.position.x <= x <= t.position.x + r.width && t.position.y <= y
            <= t.position.y + r.height
    }

    /// Every stored box is within the coordinate domain, so hit-test
    /// arithmetic cannot overflow.
    pub open spec fn boxes_wf(&self) -> bool {
        &&& forall|id: EntityId| transform_bounded(#[trigger] self.spec_transform(id))
        &&& forall|id: EntityId| renderable_bounded(#[trigger] self.spec_renderable(id))
        &&& forall|id: EntityId| droppable_bounded(#[trigger] self.spec_droppable(id))
    }

    pub fn new() -> (r: Self)
        ensures
            r.wf(),
            r.alive_seq() === Seq::<EntityId>::empty(),
            r.pending_removal() === Seq::<EntityId>::empty(),
            r.next_id() == 0,
    {
        World {
            entity_manager: EntityManager::new(),
            transforms: ComponentStorage::new(),
            card_infos: ComponentStorage::new(),
            renderables: ComponentStorage::new(),
            draggables: ComponentStorage::new(),
            clickables: ComponentStorage::new(),
            stacks: ComponentStorage::new(),
            droppables: ComponentStorage::new(),
        }
    }

    /// Creates a new entity. Fails exactly when `MAX_ENTITIES` entities are
    /// alive (or the id space is exhausted); on failure nothing changes. A
    /// fresh entity carries no components.
    pub fn create_entity(&mut self) -> (r: Result<EntityId, EcsError>)
        requires
            old(self).wf(),
        ensures
            final(self).wf(),
            (r is Ok) <==> (old(self).alive_seq().len() < crate::MAX_ENTITIES && old(self).next_id()
                < usize::MAX),
            r matches Ok(id) ==> {
                &&& id == old(self).next_id()
                &&& !old(self).spec_alive(id)
                &&& final(self).alive_seq() === old(self).alive_seq().push(id)
                &&& final(self).next_id() == id + 1
                &&& final(self).pending_removal() === old(self).pending_removal()
                &&& final(self).spec_transform(id) is None
                &&& final(self).spec_card(id) is None
                &&& final(self).spec_renderable(id) is None
                &&& final(self).spec_draggable(id) is None
                &&& final(self).spec_clickable(id) is None
                &&& final(self).spec_stack(id) is None
                &&& final(self).spec_droppable(id) is None
                &&& forall|o: EntityId|
                    o != id ==> {
                        &&& final(self).spec_transform(o) == old(self).spec_transform(o)
                        &&& final(self).spec_card(o) == old(self).spec_card(o)
                        &&& final(self).spec_renderable(o) == old(self).spec_renderable(o)
                        &&& final(self).spec_draggable(o) == old(self).spec_draggable(o)
                        &&& final(self).spec_clickable(o) == old(self).spec_clickable(o)
                        &&& final(self).spec_stack(o) == old(self).spec_stack(o)
                        &&& final(self).spec_droppable(o) == old(self).spec_droppable(o)
                    }
            },
            r is Err ==> *final(self) == *old(self) && r == Err::<EntityId, EcsError>(
                EcsError::CapacityReached,
            ),
    {
        let r = self.entity_manager.create_entity();
        proof {
            if r is Ok {
                assert forall|o: EntityId|
                    o != r->Ok_0 implies self.spec_alive(o) == old(self).spec_alive(o) by {
                    if old(self).alive_seq().contains(o) {
                        let j = choose|j: int|
                            0 <= j < old(self).alive_seq().len() && old(self).alive_seq()[j] == o;
                        assert(self.alive_seq()[j] == o);
                    } else if self.alive_seq().contains(o) {
                        let j = choose|j: int|
                            0 <= j < self.alive_seq().len() && self.alive_seq()[j] == o;
                        assert(j < old(self).alive_seq().len());
                    }
                }
            }
        }
        r
    }

    /// Marks an entity for removal and detaches all its components at once.
    /// The entity stays alive until the next housekeeping pass. Removing a
    /// dead entity changes nothing.
    pub fn remove_entity(&mut self, entity_id: EntityId)
        requires
            old(self).wf(),
        ensures
            final(self).wf(),
            final(self).alive_seq() === old(self).alive_seq(),
            final(self).next_id() == old(self).next_id(),
            final(self).pending_removal() === if old(self).spec_alive(entity_id) && !old(
                self,
            ).pending_removal().contains(entity_id) {
                old(self).pending_removal().push(entity_id)
            } else {
                old(self).pending_removal()
            },
            final(self).spec_transform(entity_id) is None,
            final(self).spec_card(entity_id) is None,
            final(self).spec_renderable(entity_id) is None,
            final(self).spec_draggable(entity_id) is None,
            final(self).spec_clickable(entity_id) is None,
            final(self).spec_stack(entity_id) is None,
            final(self).spec_droppable(entity_id) is None,
            forall|o: EntityId|
                o != entity_id ==> {
                    &&& final(self).spec_transform(o) == old(self).spec_transform(o)
                    &&& final(self).spec_card(o) == old(self).spec_card(o)
                    &&& final(self).spec_renderable(o) == old(self).spec_renderable(o)
                    &&& final(self).spec_draggable(o) == old(self).spec_draggable(o)
                    &&& final(self).spec_clickable(o) == old(self).spec_clickable(o)
                    &&& final(self).spec_stack(o) == old(self).spec_stack(o)
                    &&& final(self).spec_droppable(o) == old(self).spec_droppable(o)
                },
    {
        self.entity_manager.mark_entity_for_removal(entity_id);
        self.transforms.remove(entity_id);
        self.card_infos.remove(entity_id);
        self.renderables.remove(entity_id);
        self.draggables.remove(entity_id);
        self.clickables.remove(entity_id);
        self.stacks.remove(entity_id);
        self.droppables.remove(entity_id);
    }

    /// Whether the entity is alive.
    pub fn entity_exists(&self, entity_id: EntityId) -> (r: bool)
        ensures
            r == self.spec_alive(entity_id),
    {
        self.entity_manager.is_entity_active(entity_id)
    }

    /// How many entities are alive.
    pub fn entity_count(&self) -> (r: usize)
        ensures
            r == self.alive_seq().len(),
    {
        self.entity_manager.entity_count()
    }

    /// The identifiers of all alive entities, in creation order.
    pub fn get_all_entities(&self) -> (r: Vec<EntityId>)
        ensures
            r@ === self.alive_seq(),
    {
        self.entity_manager.active_ids()
    }

    /// The housekeeping pass: removes every entity marked for removal and
    /// clears the pending set. Components of surviving entities are kept.
    pub fn update(&mut self)
        requires
            old(self).wf(),
        ensures
            final(self).wf(),
            final(self).next_id() == old(self).next_id(),
            final(self).pending_removal() === Seq::<EntityId>::empty(),
            forall|id: EntityId|
                final(self).spec_alive(id) <==> (old(self).spec_alive(id) && !old(
                    self,
                ).pending_removal().contains(id)),
            forall|id: EntityId|
                final(self).spec_alive(id) ==> {
                    &&& final(self).spec_transform(id) == old(self).spec_transform(id)
                    &&& final(self).spec_card(id) == old(self).spec_card(id)
                    &&& final(self).spec_renderable(id) == old(self).spec_renderable(id)
                    &&& final(self).spec_draggable(id) == old(self).spec_draggable(id)
                    &&& final(self).spec_clickable(id) == old(self).spec_clickable(id)
                    &&& final(self).spec_stack(id) == old(self).spec_stack(id)
                    &&& final(self).spec_droppable(id) == old(self).spec_droppable(id)
                },
            forall|id: EntityId|
                !final(self).spec_alive(id) ==> {
                    &&& final(self).spec_transform(id) is None
                    &&& final(self).spec_card(id) is None
                    &&& final(self).spec_renderable(id) is None
                    &&& final(self).spec_draggable(id) is None
                    &&& final(self).spec_clickable(id) is None
                    &&& final(self).spec_stack(id) is None
                    &&& final(self).spec_droppable(id) is None
                },
    {
        self.entity_manager.update();
        proof {
            assert forall|id: EntityId|
                self.spec_alive(id) <==> (old(self).spec_alive(id) && !old(
                    self,
                ).pending_removal().contains(id)) by {
                assert(self.entity_manager.spec_is_active(id) <==> (old(
                    self,
                ).entity_manager.spec_is_active(id) && !old(
                    self,
                ).entity_manager.pending_removal().contains(id)));
            }
        }
    }

    /// Removes every entity and every component at once.
    pub fn clear(&mut self)
        requires
            old(self).wf(),
        ensures
            final(self).wf(),
            final(self).alive_seq() === Seq::<EntityId>::empty(),
            final(self).pending_removal() === Seq::<EntityId>::empty(),
            final(self).next_id() == old(self).next_id(),
    {
        self.entity_manager.clear_all_entities();
        self.transforms.clear();
        self.card_infos.clear();
        self.renderables.clear();
        self.draggables.clear();
        self.clickables.clear();
        self.stacks.clear();
        self.droppables.clear();
    }
}

/// The transform, if there is one, lies within the coordinate domain.
pub open spec fn transform_bounded(t: Option<Transform>) -> bool {
    match t {
        Some(t) => {
            &&& -COORD_LIMIT <= t.position.x <= COORD_LIMIT
            &&& -COORD_LIMIT <= t.position.y <= COORD_LIMIT
            &&& -Z_LIMIT <= t.z_index <= Z_LIMIT
        },
        None => true,
    }
}

/// The renderable's box, if there is one, has bounded nonnegative sides.
pub open spec fn renderable_bounded(r: Option<Renderable>) -> bool {
    match r {
        Some(r) => 0 <= r.width <= SIZE_LIMIT && 0 <= r.height <= SIZE_LIMIT,
        None => true,
    }
}

/// The drop box, if there is one, has bounded nonnegative sides.
pub open spec fn droppable_bounded(d: Option<Droppable>) -> bool {
    match d {
        Some(d) => 0 <= d.width <= SIZE_LIMIT && 0 <= d.height <= SIZE_LIMIT,
        None => true,
    }
}

/// The two worlds agree on alive entities, pending removals and the next id.
pub open spec fn entities_eq(a: World, b: World) -> bool {
    &&& a.alive_seq() === b.alive_seq()
    &&& a.pending_removal() === b.pending_removal()
    &&& a.next_id() == b.next_id()
}

/// The two worlds hold the same transforms.
pub open spec fn transforms_eq(a: World, b: World) -> bool {
    forall|id: EntityId| #[trigger] a.spec_transform(id) == b.spec_transform(id)
}

/// The two worlds hold the same card identities.
pub open spec fn cards_eq(a: World, b: World) -> bool {
    forall|id: EntityId| #[trigger] a.spec_card(id) == b.spec_card(id)
}

/// The two worlds hold the same renderables.
pub open spec fn renderables_eq(a: World, b: World) -> bool {
    forall|id: EntityId| #[trigger] a.spec_renderable(id) == b.spec_renderable(id)
}

/// The two worlds hold the same drag bookkeeping.
pub open spec fn draggables_eq(a: World, b: World) -> bool {
    forall|id: EntityId| #[trigger] a.spec_draggable(id) == b.spec_draggable(id)
}

/// The two worlds hold the same click bookkeeping.
pub open spec fn clickables_eq(a: World, b: World) -> bool {
    forall|id: EntityId| #[trigger] a.spec_clickable(id) == b.spec_clickable(id)
}

/// The two worlds hold the same stacks.
pub open spec fn stacks_eq(a: World, b: World) -> bool {
    forall|id: EntityId| #[trigger] a.spec_stack(id) == b.spec_stack(id)
}

/// The two worlds hold the same drop-target markers.
pub open spec fn droppables_eq(a: World, b: World) -> bool {
    forall|id: EntityId| #[trigger] a.spec_droppable(id) == b.spec_droppable(id)
}

/// Bounded boxes stay bounded when neither transforms, renderables nor
/// drop-target markers changed.
pub proof fn lemma_boxes_wf_preserved(a: World, b: World)
    requires
        a.boxes_wf(),
        transforms_eq(b, a),
        renderables_eq(b, a),
        droppables_eq(b, a),
    ensures
        b.boxes_wf(),
{
    assert forall|id: EntityId| transform_bounded(#[trigger] b.spec_transform(id)) by {
        assert(b.spec_transform(id) == a.spec_transform(id));
        assert(transform_bounded(a.spec_transform(id)));
    }
    assert forall|id: EntityId| renderable_bounded(#[trigger] b.spec_renderable(id)) by {
        assert(b.spec_renderable(id) == a.spec_renderable(id));
        assert(renderable_bounded(a.spec_renderable(id)));
    }
    assert forall|id: EntityId| droppable_bounded(#[trigger] b.spec_droppable(id)) by {
        assert(b.spec_droppable(id) == a.spec_droppable(id));
        assert(droppable_bounded(a.spec_droppable(id)));
    }
}

/// The alive entities that carry a component in `storage`, in increasing
/// order.
fn ids_with<T>(em: &EntityManager, storage: &ComponentStorage<T>) -> (r: Vec<EntityId>)
    requires
        em.wf(),
    ensures
        forall|id: EntityId|
            r@.contains(id) <==> (em.spec_is_active(id) && storage.spec_get(id) is Some),
        forall|a: int, b: int| 0 <= a < b < r@.len() ==> r@[a] < r@[b],
{
    let alive = em.active_ids();
    let mut r: Vec<EntityId> = Vec::new();
    let mut i: usize = 0;
    while i < alive.len()
        invariant
            em.wf(),
            alive@ === em.active(),
            i <= alive@.len(),
            forall|a: int|
                0 <= a < r@.len() ==> exists|j: int|
                    0 <= j < i && alive@[j] == #[trigger] r@[a] && storage.spec_get(r@[a]) is Some,
            forall|j: int|
                0 <= j < i && storage.spec_get(#[trigger] alive@[j]) is Some ==> r@.contains(
                    alive@[j],
                ),
            forall|a: int, b: int| 0 <= a < b < r@.len() ==> r@[a] < r@[b],
        decreases alive@.len() - i,
    {
        let id = alive[i];
        if storage.has(id) {
            proof {
                assert forall|a: int| 0 <= a < r@.len() implies r@[a] < id by {
                    let j = choose|j: int|
                        0 <= j < i && alive@[j] == r@[a] && storage.spec_get(r@[a]) is Some;
                    assert(alive@[j] < alive@[i as int]);
                }
            }
            let ghost before = r@;
            r.push(id);
            proof {
                assert forall|j: int|
                    0 <= j < i + 1 && storage.spec_get(#[trigger] alive@[j]) is Some implies r@
                    .contains(alive@[j]) by {
                    if j == i {
                        assert(r@[r@.len() - 1] == alive@[j]);
                    } else {
                        let a = choose|a: int| 0 <= a < before.len() && before[a] == alive@[j];
                        assert(r@[a] == alive@[j]);
                    }
                }
            }
        }
        i = i + 1;
    }
    proof {
        assert forall|id: EntityId|
            r@.contains(id) <==> (em.spec_is_active(id) && storage.spec_get(id) is Some) by {
            if r@.contains(id) {
                let a = choose|a: int| 0 <= a < r@.len() && r@[a] == id;
                let j = choose|j: int|
                    0 <= j < alive@.len() && alive@[j] == r@[a] && storage.spec_get(r@[a]) is Some;
                assert(em.active()[j] == id);
            }
            if em.spec_is_active(id) && storage.spec_get(id) is Some {
                let j = choose|j: int| 0 <= j < em.active().len() && em.active()[j] == id;
                assert(storage.spec_get(alive@[j]) is Some);
            }
        }
    }
    r
}

impl World {
    /// Attaches a transform to an alive entity, replacing any it had; fails
    /// exactly when the entity is not alive, and then changes nothing.
    pub fn add_transform(&mut self, id: EntityId, component: Transform) -> (r: Result<
        (),
        EcsError,
    >)
        requires
            old(self).wf(),
        ensures
            final(self).wf(),
            (r is Ok) <==> old(self).spec_alive(id),
            r is Err ==> *final(self) == *old(self) && r == Err::<(), EcsError>(
                EcsError::MissingEntity,
            ),
            r is Ok ==> {
                &&& entities_eq(*final(self), *old(self))
                &&& final(self).spec_transform(id) == Some(component)
                &&& forall|o: EntityId|
                    o != id ==> final(self).spec_transform(o) == old(self).spec_transform(o)
                &&& cards_eq(*final(self), *old(self))
                &&& renderables_eq(*final(self), *old(self))
                &&& draggables_eq(*final(self), *old(self))
                &&& clickables_eq(*final(self), *old(self))
                &&& stacks_eq(*final(self), *old(self))
                &&& droppables_eq(*final(self), *old(self))
            },
    {
        if !self.entity_exists(id) {
            return Err(EcsError::MissingEntity);
        }
        self.transforms.add(id, component);
        Ok(())
    }

    /// Attaches a card identity to an alive entity, replacing any it had;
    /// fails exactly when the entity is not alive, and then changes nothing.
    pub fn add_card_info(&mut self, id: EntityId, component: CardInfo) -> (r: Result<
        (),
        EcsError,
    >)
        requires
            old(self).wf(),
        ensures
            final(self).wf(),
            (r is Ok) <==> old(self).spec_alive(id),
            r is Err ==> *final(self) == *old(self) && r == Err::<(), EcsError>(
                EcsError::MissingEntity,
            ),
            r is Ok ==> {
                &&& entities_eq(*final(self), *old(self))
                &&& final(self).spec_card(id) == Some(component)
                &&& forall|o: EntityId|
                    o != id ==> final(self).spec_card(o) == old(self).spec_card(o)
                &&& transforms_eq(*final(self), *old(self))
                &&& renderables_eq(*final(self), *old(self))
                &&& draggables_eq(*final(self), *old(self))
                &&& clickables_eq(*final(self), *old(self))
                &&& stacks_eq(*final(self), *old(self))
                &&& droppables_eq(*final(self), *old(self))
            },
    {
        if !self.entity_exists(id) {
            return Err(EcsError::MissingEntity);
        }
        self.card_infos.add(id, component);
        Ok(())
    }

    /// Attaches a renderable to an alive entity, replacing any it had; fails
    /// exactly when the entity is not alive, and then changes nothing.
    pub fn add_renderable(&mut self, id: EntityId, component: Renderable) -> (r: Result<
        (),
        EcsError,
    >)
        requires
            old(self).wf(),
        ensures
            final(self).wf(),
            (r is Ok) <==> old(self).spec_alive(id),
            r is Err ==> *final(self) == *old(self) && r == Err::<(), EcsError>(
                EcsError::MissingEntity,
            ),
            r is Ok ==> {
                &&& entities_eq(*final(self), *old(self))
                &&& final(self).spec_renderable(id) == Some(component)
                &&& forall|o: EntityId|
                    o != id ==> final(self).spec_renderable(o) == old(self).spec_renderable(o)
                &&& transforms_eq(*final(self), *old(self))
                &&& cards_eq(*final(self), *old(self))
                &&& draggables_eq(*final(self), *old(self))
                &&& clickables_eq(*final(self), *old(self))
                &&& stacks_eq(*final(self), *old(self))
                &&& droppables_eq(*final(self), *old(self))
            },
    {
        if !self.entity_exists(id) {
            return Err(EcsError::MissingEntity);
        }
        self.renderables.add(id, component);
        Ok(())
    }

    /// Attaches drag bookkeeping to an alive entity, replacing any it had;
    /// fails exactly when the entity is not alive, and then changes nothing.
    pub fn add_draggable(&mut self, id: EntityId, component: Draggable) -> (r: Result<
        (),
        EcsError,
    >)
        requires
            old(self).wf(),
        ensures
            final(self).wf(),
            (r is Ok) <==> old(self).spec_alive(id),
            r is Err ==> *final(self) == *old(self) && r == Err::<(), EcsError>(
                EcsError::MissingEntity,
            ),
            r is Ok ==> {
                &&& entities_eq(*final(self), *old(self))
                &&& final(self).spec_draggable(id) == Some(component)
                &&& forall|o: EntityId|
                    o != id ==> final(self).spec_draggable(o) == old(self).spec_draggable(o)
                &&& transforms_eq(*final(self), *old(self))
                &&& cards_eq(*final(self), *old(self))
                &&& renderables_eq(*final(self), *old(self))
                &&& clickables_eq(*final(self), *old(self))
                &&& stacks_eq(*final(self), *old(self))
                &&& droppables_eq(*final(self), *old(self))
            },
    {
        if !self.entity_exists(id) {
            return Err(EcsError::MissingEntity);
        }
        self.draggables.add(id, component);
        Ok(())
    }

    /// Attaches click bookkeeping to an alive entity, replacing any it had;
    /// fails exactly when the entity is not alive, and then changes nothing.
    pub fn add_clickable(&mut self, id: EntityId, component: Clickable) -> (r: Result<
        (),
        EcsError,
    >)
        requires
            old(self).wf(),
        ensures
            final(self).wf(),
            (r is Ok) <==> old(self).spec_alive(id),
            r is Err ==> *final(self) == *old(self) && r == Err::<(), EcsError>(
                EcsError::MissingEntity,
            ),
            r is Ok ==> {
                &&& entities_eq(*final(self), *old(self))
                &&& final(self).spec_clickable(id) == Some(component)
                &&& forall|o: EntityId|
                    o != id ==> final(self).spec_clickable(o) == old(self).spec_clickable(o)
                &&& transforms_eq(*final(self), *old(self))
                &&& cards_eq(*final(self), *old(self))
                &&& renderables_eq(*final(self), *old(self))
                &&& draggables_eq(*final(self), *old(self))
                &&& stacks_eq(*final(self), *old(self))
                &&& droppables_eq(*final(self), *old(self))
            },
    {
        if !self.entity_exists(id) {
            return Err(EcsError::MissingEntity);
        }
        self.clickables.add(id, component);
        Ok(())
    }

    /// Attaches a stack container to an alive entity, replacing any it had;
    /// fails exactly when the entity is not alive, and then changes nothing.
    pub fn add_stack(&mut self, id: EntityId, component: StackContainer) -> (r: Result<
        (),
        EcsError,
    >)
        requires
            old(self).wf(),
        ensures
            final(self).wf(),
            (r is Ok) <==> old(self).spec_alive(id),
            r is Err ==> *final(self) == *old(self) && r == Err::<(), EcsError>(
                EcsError::MissingEntity,
            ),
            r is Ok ==> {
                &&& entities_eq(*final(self), *old(self))
                &&& final(self).spec_stack(id) == Some(component)
                &&& forall|o: EntityId|
                    o != id ==> final(self).spec_stack(o) == old(self).spec_stack(o)
                &&& transforms_eq(*final(self), *old(self))
                &&& cards_eq(*final(self), *old(self))
                &&& renderables_eq(*final(self), *old(self))
                &&& draggables_eq(*final(self), *old(self))
                &&& clickables_eq(*final(self), *old(self))
                &&& droppables_eq(*final(self), *old(self))
            },
    {
        if !self.entity_exists(id) {
            return Err(EcsError::MissingEntity);
        }
        self.stacks.add(id, component);
        Ok(())
    }

    /// Attaches a drop-target marker to an alive entity, replacing any it
    /// had; fails exactly when the entity is not alive, and then changes
    /// nothing.
    pub fn add_droppable(&mut self, id: EntityId, component: Droppable) -> (r: Result<
        (),
        EcsError,
    >)
        requires
            old(self).wf(),
        ensures
            final(self).wf(),
            (r is Ok) <==> old(self).spec_alive(id),
            r is Err ==> *final(self) == *old(self) && r == Err::<(), EcsError>(
                EcsError::MissingEntity,
            ),
            r is Ok ==> {
                &&& entities_eq(*final(self), *old(self))
                &&& final(self).spec_droppable(id) == Some(component)
                &&& forall|o: EntityId|
                    o != id ==> final(self).spec_droppable(o) == old(self).spec_droppable(o)
                &&& transforms_eq(*final(self), *old(self))
                &&& cards_eq(*final(self), *old(self))
                &&& renderables_eq(*final(self), *old(self))
                &&& draggables_eq(*final(self), *old(self))
                &&& clickables_eq(*final(self), *old(self))
                &&& stacks_eq(*final(self), *old(self))
            },
    {
        if !self.entity_exists(id) {
            return Err(EcsError::MissingEntity);
        }
        self.droppables.add(id, component);
        Ok(())
    }

    /// The transform of an alive entity, if it has one.
    pub fn get_transform(&self, id: EntityId) -> (r: Option<&Transform>)
        ensures
            match r {
                Some(v) => self.spec_transform(id) == Some(*v),
                None => self.spec_transform(id) is None,
            },
    {
        if !self.entity_exists(id) {
            return None;
        }
        self.transforms.get(id)
    }

    /// The card identity of an alive entity, if it has one.
    pub fn get_card_info(&self, id: EntityId) -> (r: Option<&CardInfo>)
        ensures
            match r {
                Some(v) => self.spec_card(id) == Some(*v),
                None => self.spec_card(id) is None,
            },
    {
        if !self.entity_exists(id) {
            return None;
        }
        self.card_infos.get(id)
    }

    /// The renderable of an alive entity, if it has one.
    pub fn get_renderable(&self, id: EntityId) -> (r: Option<&Renderable>)
        ensures
            match r {
                Some(v) => self.spec_renderable(id) == Some(*v),
                None => self.spec_renderable(id) is None,
            },
    {
        if !self.entity_exists(id) {
            return None;
        }
        self.renderables.get(id)
    }

    /// The drag bookkeeping of an alive entity, if it has any.
    pub fn get_draggable(&self, id: EntityId) -> (r: Option<&Draggable>)
        ensures
            match r {
                Some(v) => self.spec_draggable(id) == Some(*v),
                None => self.spec_draggable(id) is None,
            },
    {
        if !self.entity_exists(id) {
            return None;
        }
        self.draggables.get(id)
    }

    /// The click bookkeeping of an alive entity, if it has any.
    pub fn get_clickable(&self, id: EntityId) -> (r: Option<&Clickable>)
        ensures
            match r {
                Some(v) => self.spec_clickable(id) == Some(*v),
                None => self.spec_clickable(id) is None,
            },
    {
        if !self.entity_exists(id) {
            return None;
        }
        self.clickables.get(id)
    }

    /// The stack container of an alive entity, if it has one.
    pub fn get_stack(&self, id: EntityId) -> (r: Option<&StackContainer>)
        ensures
            match r {
                Some(v) => self.spec_stack(id) == Some(*v),
                None => self.spec_stack(id) is None,
            },
    {
        if !self.entity_exists(id) {
            return None;
        }
        self.stacks.get(id)
    }

    /// The drop-target marker of an alive entity, if it has one.
    pub fn get_droppable(&self, id: EntityId) -> (r: Option<&Droppable>)
        ensures
            match r {
                Some(v) => self.spec_droppable(id) == Some(*v),
                None => self.spec_droppable(id) is None,
            },
    {
        if !self.entity_exists(id) {
            return None;
        }
        self.droppables.get(id)
    }

    /// Whether an alive entity carries a transform.
    pub fn has_transform(&self, id: EntityId) -> (r: bool)
        ensures
            r == (self.spec_transform(id) is Some),
    {
        self.entity_exists(id) && self.transforms.has(id)
    }

    /// Whether an alive entity carries a card identity.
    pub fn has_card_info(&self, id: EntityId) -> (r: bool)
        ensures
            r == (self.spec_card(id) is Some),
    {
        self.entity_exists(id) && self.card_infos.has(id)
    }

    /// Whether an alive entity carries drag bookkeeping.
    pub fn has_draggable(&self, id: EntityId) -> (r: bool)
        ensures
            r == (self.spec_draggable(id) is Some),
    {
        self.entity_exists(id) && self.draggables.has(id)
    }

    /// Whether an alive entity carries a stack container.
    pub fn has_stack(&self, id: EntityId) -> (r: bool)
        ensures
            r == (self.spec_stack(id) is Some),
    {
        self.entity_exists(id) && self.stacks.has(id)
    }

    /// Detaches the drag bookkeeping from an alive entity and returns it.
    pub fn remove_draggable(&mut self, id: EntityId) -> (r: Option<Draggable>)
        requires
            old(self).wf(),
        ensures
            final(self).wf(),
            r == old(self).spec_draggable(id),
            entities_eq(*final(self), *old(self)),
            final(self).spec_draggable(id) is None,
            forall|o: EntityId|
                o != id ==> final(self).spec_draggable(o) == old(self).spec_draggable(o),
            transforms_eq(*final(self), *old(self)),
            cards_eq(*final(self), *old(self)),
            renderables_eq(*final(self), *old(self)),
            clickables_eq(*final(self), *old(self)),
            stacks_eq(*final(self), *old(self)),
            droppables_eq(*final(self), *old(self)),
    {
        if !self.entity_exists(id) {
            return None;
        }
        self.draggables.remove(id)
    }

    /// The alive entities that carry a stack container, in increasing order.
    pub fn get_entities_with_stack(&self) -> (r: Vec<EntityId>)
        requires
            self.wf(),
        ensures
            forall|id: EntityId| r@.contains(id) <==> self.spec_stack(id) is Some,
            forall|a: int, b: int| 0 <= a < b < r@.len() ==> r@[a] < r@[b],
    {
        let r = ids_with(&self.entity_manager, &self.stacks);
        proof {
            assert forall|id: EntityId| r@.contains(id) <==> self.spec_stack(id) is Some by {
                assert(r@.contains(id) <==> (self.entity_manager.spec_is_active(id)
                    && self.stacks.spec_get(id) is Some));
            }
        }
        r
    }

    /// The alive entities that carry a card identity, in increasing order.
    pub fn get_entities_with_card_info(&self) -> (r: Vec<EntityId>)
        requires
            self.wf(),
        ensures
            forall|id: EntityId| r@.contains(id) <==> self.spec_card(id) is Some,
            forall|a: int, b: int| 0 <= a < b < r@.len() ==> r@[a] < r@[b],
    {
        let r = ids_with(&self.entity_manager, &self.card_infos);
        proof {
            assert forall|id: EntityId| r@.contains(id) <==> self.spec_card(id) is Some by {
                assert(r@.contains(id) <==> (self.entity_manager.spec_is_active(id)
                    && self.card_infos.spec_get(id) is Some));
            }
        }
        r
    }

    /// The alive entities that carry drag bookkeeping, in increasing order.
    pub fn get_entities_with_draggable(&self) -> (r: Vec<EntityId>)
        requires
            self.wf(),
        ensures
            forall|id: EntityId| r@.contains(id) <==> self.spec_draggable(id) is Some,
            forall|a: int, b: int| 0 <= a < b < r@.len() ==> r@[a] < r@[b],
    {
        let r = ids_with(&self.entity_manager, &self.draggables);
        proof {
            assert forall|id: EntityId| r@.contains(id) <==> self.spec_draggable(id) is Some by {
                assert(r@.contains(id) <==> (self.entity_manager.spec_is_active(id)
                    && self.draggables.spec_get(id) is Some));
            }
        }
        r
    }

    /// The alive entities that carry a drop-target marker, in increasing
    /// order.
    pub fn get_entities_with_droppable(&self) -> (r: Vec<EntityId>)
        requires
            self.wf(),
        ensures
            forall|id: EntityId| r@.contains(id) <==> self.spec_droppable(id) is Some,
            forall|a: int, b: int| 0 <= a < b < r@.len() ==> r@[a] < r@[b],
    {
        let r = ids_with(&self.entity_manager, &self.droppables);
        proof {
            assert forall|id: EntityId| r@.contains(id) <==> self.spec_droppable(id) is Some by {
                assert(r@.contains(id) <==> (self.entity_manager.spec_is_active(id)
                    && self.droppables.spec_get(id) is Some));
            }
        }
        r
    }

    /// The alive entities that carry a renderable, in increasing order.
    pub fn get_entities_with_renderable(&self) -> (r: Vec<EntityId>)
        requires
            self.wf(),
        ensures
            forall|id: EntityId| r@.contains(id) <==> self.spec_renderable(id) is Some,
            forall|a: int, b: int| 0 <= a < b < r@.len() ==> r@[a] < r@[b],
    {
        let r = ids_with(&self.entity_manager, &self.renderables);
        proof {
            assert forall|id: EntityId| r@.contains(id) <==> self.spec_renderable(id) is Some by {
                assert(r@.contains(id) <==> (self.entity_manager.spec_is_active(id)
                    && self.renderables.spec_get(id) is Some));
            }
        }
        r
    }

    /// The entity whose visible box contains the point and is drawn in front
    /// of every other such box: the hit with the highest draw order, ties
    /// going to the lowest entity id.
    pub fn get_entity_at_position(&self, x: i64, y: i64) -> (r: Option<EntityId>)
        requires
            self.wf(),
            self.boxes_wf(),
        ensures
            match r {
                Some(e) => self.hit_at(e, x, y) && forall|o: EntityId|
                    self.hit_at(o, x, y) ==> (self.z_at(o) < self.z_at(e) || (self.z_at(o)
                        == self.z_at(e) && e <= o)),
                None => forall|o: EntityId| !self.hit_at(o, x, y),
            },
    {
        let alive = self.get_all_entities();
        let mut best: Option<EntityId> = None;
        let mut i: usize = 0;
        while i < alive.len()
            invariant
                self.wf(),
                self.boxes_wf(),
                alive@ === self.alive_seq(),
                i <= alive@.len(),
                match best {
                    Some(e) => self.hit_at(e, x, y) && (exists|k: int|
                        0 <= k < i && alive@[k] == e) && forall|j: int|
                        0 <= j < i && self.hit_at(#[trigger] alive@[j], x, y) ==> (self.z_at(
                            alive@[j],
                        ) < self.z_at(e) || (self.z_at(alive@[j]) == self.z_at(e) && e
                            <= alive@[j])),
                    None => forall|j: int| 0 <= j < i ==> !self.hit_at(#[trigger] alive@[j], x, y),
                },
            decreases alive@.len() - i,
        {
            let id = alive[i];
            let mut is_hit = false;
            match (self.get_transform(id), self.get_renderable(id)) {
                (Some(t), Some(rend)) => {
                    if rend.visible && t.position.x <= x && x <= t.position.x + rend.width
                        && t.position.y <= y && y <= t.position.y + rend.height {
                        is_hit = true;
                    }
                },
                _ => {},
            }
            if is_hit {
                let z = match self.get_transform(id) {
                    Some(t) => t.z_index,
                    None => 0,
                };
                match best {
                    Some(e) => {
                        let best_z = match self.get_transform(e) {
                            Some(t) => t.z_index,
                            None => 0,
                        };
                        if z > best_z {
                            best = Some(id);
                        }
                    },
                    None => {
                        best = Some(id);
                    },
                }
            }
            i = i + 1;
        }
        proof {
            match best {
                Some(e) => {
                    assert forall|o: EntityId| self.hit_at(o, x, y) implies (self.z_at(o)
                        < self.z_at(e) || (self.z_at(o) == self.z_at(e) && e <= o)) by {
                        assert(self.spec_alive(o));
                        let j = choose|j: int|
                            0 <= j < self.alive_seq().len() && self.alive_seq()[j] == o;
                        assert(self.hit_at(alive@[j], x, y));
                    }
                },
                None => {
                    assert forall|o: EntityId| !self.hit_at(o, x, y) by {
                        if self.hit_at(o, x, y) {
                            let j = choose|j: int|
                                0 <= j < self.alive_seq().len() && self.alive_seq()[j] == o;
                            assert(self.hit_at(alive@[j], x, y));
                        }
                    }
                },
            }
        }
        best
    }
}

} // verus!

verus! {

/// One entry of the render boundary: a visible entity's position, box and
/// draw order.
#[derive(Clone, Copy, Debug, PartialEq, Eq, Structural)]
pub struct RenderItem {
    pub id: EntityId,
    pub x: i64,
    pub y: i64,
    pub width: i64,
    pub height: i64,
    pub z: i64,
}

/// The entity shows on screen: a transform and a visible renderable.
pub open spec fn spec_visible(w: World, id: EntityId) -> bool {
    w.spec_transform(id) is Some && (w.spec_renderable(id) matches Some(r) && r.visible)
}

/// The entry reports exactly its entity's position, box and draw order.
pub open spec fn render_item_matches(w: World, item: RenderItem) -> bool {
    &&& w.spec_transform(item.id) matches Some(t) && t.position.x == item.x && t.position.y
        == item.y && t.z_index == item.z
    &&& w.spec_renderable(item.id) matches Some(r) && r.visible && r.width == item.width
        && r.height == item.height
}

/// The list holds an entry for the entity.
pub open spec fn render_list_has(s: Seq<RenderItem>, id: EntityId) -> bool {
    exists|k: int| 0 <= k < s.len() && (#[trigger] s[k]).id == id
}

impl World {
    /// The render boundary: every visible entity's position, box and draw
    /// order, sorted back to front (ascending draw order) for painting. Each
    /// visible entity appears exactly once and every entry reports its
    /// entity faithfully.
    #[verifier::rlimit(100)]
    #[verifier::spinoff_prover]
    pub fn render_list(&self) -> (r: Vec<RenderItem>)
        requires
            self.wf(),
        ensures
            forall|a: int, b: int| 0 <= a < b < r@.len() ==> r@[a].z <= r@[b].z,
            forall|k: int| 0 <= k < r@.len() ==> render_item_matches(*self, #[trigger] r@[k]),
            forall|id: EntityId| #[trigger] spec_visible(*self, id) ==> render_list_has(r@, id),
            forall|a: int, b: int| 0 <= a < b < r@.len() ==> r@[a].id != r@[b].id,
    {
        proof {
            broadcast use vstd::multiset::group_multiset_axioms;

        }
        // Collect the visible entities, one entry each.
        let alive = self.get_all_entities();
        proof {
            self.lemma_wf_alive_distinct();
        }
        let mut items: Vec<RenderItem> = Vec::new();
        let mut i: usize = 0;
        while i < alive.len()
            invariant
                self.wf(),
                alive@ === self.alive_seq(),
                forall|a: int, b: int| 0 <= a < b < alive@.len() ==> alive@[a] < alive@[b],
                i <= alive@.len(),
                forall|k: int|
                    0 <= k < items@.len() ==> render_item_matches(*self, #[trigger] items@[k]),
                forall|k: int|
                    0 <= k < items@.len() ==> exists|j: int|
                        0 <= j < i && alive@[j] == (#[trigger] items@[k]).id,
                forall|j: int|
                    0 <= j < i && spec_visible(*self, #[trigger] alive@[j]) ==> render_list_has(
                        items@,
                        alive@[j],
                    ),
                forall|a: int, b: int|
                    0 <= a < b < items@.len() ==> items@[a].id < items@[b].id,
            decreases alive@.len() - i,
        {
            let id = alive[i];
            let visible = match (self.get_transform(id), self.get_renderable(id)) {
                (Some(_), Some(rend)) => rend.visible,
                _ => false,
            };
            if visible {
                let (tx, ty, tz) = match self.get_transform(id) {
                    Some(t) => (t.position.x, t.position.y, t.z_index),
                    None => (0, 0, 0),
                };
                let (rw, rh) = match self.get_renderable(id) {
                    Some(rend) => (rend.width, rend.height),
                    None => (0, 0),
                };
                proof {
                    // Entries follow the strictly increasing alive order.
                    assert forall|a: int| 0 <= a < items@.len() implies items@[a].id < id by {
                        let j = choose|j: int| 0 <= j < i && alive@[j] == items@[a].id;
                        assert(alive@[j] < alive@[i as int]);
                    }
                }
                let ghost before = items@;
                items.push(RenderItem { id, x: tx, y: ty, width: rw, height: rh, z: tz });
                proof {
                    assert forall|k: int|
                        0 <= k < items@.len() implies exists|j: int|
                        0 <= j < i + 1 && alive@[j] == (#[trigger] items@[k]).id by {
                        if k < before.len() {
                            assert(items@[k] == before[k]);
                            let j = choose|j: int| 0 <= j < i && alive@[j] == before[k].id;
                        } else {
                            assert(items@[k].id == alive@[i as int]);
                        }
                    }
                    assert forall|j: int|
                        0 <= j < i + 1 && spec_visible(*self, #[trigger] alive@[j])
                            implies render_list_has(items@, alive@[j]) by {
                        if j == i {
                            assert((items@[items@.len() - 1]).id == alive@[j]);
                        } else {
                            assert(render_list_has(before, alive@[j]));
                            let k = choose|k: int|
                                0 <= k < before.len() && (#[trigger] before[k]).id == alive@[j];
                            assert((items@[k]).id == alive@[j]);
                        }
                    }
                }
            } else {
                proof {
                    assert forall|j: int|
                        0 <= j < i + 1 && spec_visible(*self, #[trigger] alive@[j])
                            implies render_list_has(items@, alive@[j]) by {
                        if j < i {
                        } else {
                            assert(!spec_visible(*self, alive@[j]));
                        }
                    }
                }
            }
            i = i + 1;
        }
        let ghost cands = items@;
        proof {
            cands.to_multiset_ensures();
        }

        // Sort back to front by draw order.
        let mut rest = items;
        let mut out: Vec<RenderItem> = Vec::new();
        proof {
            out@.to_multiset_ensures();
            assert(out@.to_multiset().add(rest@.to_multiset()) =~= cands.to_multiset()) by {
                assert forall|v: RenderItem|
                    out@.to_multiset().add(rest@.to_multiset()).count(v) == cands.to_multiset().count(
                    v,
                ) by {
                    assert(!out@.contains(v));
                }
            }
        }
        while rest.len() > 0
            invariant
                self.wf(),
                out@.to_multiset().add(rest@.to_multiset()) =~= cands.to_multiset(),
                out@.len() + rest@.len() == cands.len(),
                forall|k: int|
                    0 <= k < cands.len() ==> render_item_matches(*self, #[trigger] cands[k]),
                forall|a: int, b: int| 0 <= a < b < cands.len() ==> cands[a].id < cands[b].id,
                forall|a: int, b: int| 0 <= a < b < out@.len() ==> out@[a].z <= out@[b].z,
                forall|a: int, b: int|
                    0 <= a < out@.len() && 0 <= b < rest@.len() ==> out@[a].z <= rest@[b].z,
                forall|k: int| 0 <= k < out@.len() ==> cands.to_multiset().contains(
                    #[trigger] out@[k],
                ),
                forall|k: int| 0 <= k < rest@.len() ==> cands.to_multiset().contains(
                    #[trigger] rest@[k],
                ),
            decreases rest@.len(),
        {
            let mut min_idx: usize = 0;
            let mut j: usize = 1;
            while j < rest.len()
                invariant
                    rest@.len() > 0,
                    min_idx < j <= rest@.len(),
                    forall|q: int| 0 <= q < j ==> rest@[min_idx as int].z <= #[trigger] rest@[q].z,
                decreases rest@.len() - j,
            {
                if rest[j].z < rest[min_idx].z {
                    proof {
                        assert forall|q: int|
                            0 <= q < j + 1 implies rest@[j as int].z <= #[trigger] rest@[q].z by {
                            if q < j {
                                assert(rest@[min_idx as int].z <= rest@[q].z);
                            }
                        }
                    }
                    min_idx = j;
                }
                j = j + 1;
            }
            let ghost pre_rest = rest@;
            let ghost pre_out = out@;
            let picked = rest.remove(min_idx);
            out.push(picked);
            proof {
                broadcast use vstd::multiset::group_multiset_axioms;

                pre_rest.to_multiset_ensures();
                vstd::seq_lib::to_multiset_remove(pre_rest, min_idx as int);
                vstd::seq_lib::to_multiset_build(pre_out, picked);
                assert(out@.to_multiset() =~= pre_out.to_multiset().insert(picked));
                assert(rest@.to_multiset() =~= pre_rest.to_multiset().remove(picked));
                assert(out@.to_multiset().add(rest@.to_multiset()) =~= cands.to_multiset());
                pre_rest.remove_ensures(min_idx as int);
                assert forall|a: int, b: int|
                    0 <= a < b < out@.len() implies out@[a].z <= out@[b].z by {
                    if b == out@.len() - 1 {
                        assert(out@[a] == pre_out[a]);
                        assert(pre_out[a].z <= pre_rest[min_idx as int].z);
                    }
                }
                assert forall|a: int, b: int|
                    0 <= a < out@.len() && 0 <= b < rest@.len() implies #[trigger] out@[a].z
                    <= #[trigger] rest@[b].z by {
                    let src: int = if b < min_idx as int {
                        b
                    } else {
                        b + 1
                    };
                    assert(rest@[b] == pre_rest[src]);
                    if a < out@.len() - 1 {
                        assert(pre_out[a].z <= pre_rest[src].z);
                    } else {
                        assert(pre_rest[min_idx as int].z <= pre_rest[src].z);
                    }
                }
                assert forall|k: int| 0 <= k < rest@.len() implies cands.to_multiset().contains(
                    #[trigger] rest@[k],
                ) by {
                    let src: int = if k < min_idx as int {
                        k
                    } else {
                        k + 1
                    };
                    assert(rest@[k] == pre_rest[src]);
                }
            }
        }
        proof {
            broadcast use vstd::multiset::group_multiset_axioms;

            out@.to_multiset_ensures();
            rest@.to_multiset_ensures();
            assert(out@.to_multiset() == cands.to_multiset()) by {
                assert forall|v: RenderItem|
                    out@.to_multiset().count(v) == cands.to_multiset().count(v) by {
                    assert(!rest@.contains(v));
                    assert(out@.to_multiset().add(rest@.to_multiset()).count(v)
                        == cands.to_multiset().count(v));
                }
                assert(out@.to_multiset() =~= cands.to_multiset());
            }
            // Each entry came from the candidates, so it is faithful.
            assert forall|k: int|
                0 <= k < out@.len() implies render_item_matches(*self, #[trigger] out@[k]) by {
                assert(cands.to_multiset().contains(out@[k]));
                assert(cands.contains(out@[k]));
                let c = choose|c: int| 0 <= c < cands.len() && cands[c] == out@[k];
                assert(render_item_matches(*self, cands[c]));
            }
            // Every visible entity's candidate survives the sort.
            assert forall|id: EntityId| #[trigger]
                spec_visible(*self, id) implies render_list_has(out@, id) by {
                assert(self.spec_alive(id));
                let j = choose|j: int|
                    0 <= j < self.alive_seq().len() && self.alive_seq()[j] == id;
                assert(render_list_has(cands, self.alive_seq()[j]));
                let k = choose|k: int| 0 <= k < cands.len() && (#[trigger] cands[k]).id == id;
                assert(cands.to_multiset().contains(cands[k])) by {
                    cands.to_multiset_ensures();
                }
                assert(out@.to_multiset().add(rest@.to_multiset()).count(cands[k])
                    == cands.to_multiset().count(cands[k]));
                assert(rest@.len() == 0);
                assert(rest@.to_multiset().count(cands[k]) == 0) by {
                    rest@.to_multiset_ensures();
                    assert(!rest@.contains(cands[k]));
                }
                assert(out@.to_multiset().count(cands[k]) > 0);
                assert(out@.contains(cands[k]));
                let m = choose|m: int| 0 <= m < out@.len() && out@[m] == cands[k];
                assert((out@[m]).id == id);
            }
            // No entity appears twice: candidate ids are strictly increasing.
            assert forall|a: int, b: int|
                0 <= a < b < out@.len() implies out@[a].id != out@[b].id by {
                if out@[a].id == out@[b].id {
                    if out@[a] == out@[b] {
                        crate::system::lemma_dup_has_two_slots(out@, cands, a, b);
                        let (c1, c2): (int, int) = choose|c1: int, c2: int|
                            0 <= c1 < cands.len() && 0 <= c2 < cands.len() && c1 != c2 && cands[c1]
                                == out@[a] && cands[c2] == out@[a];
                        assert(cands[c1].id != cands[c2].id || cands[c2].id != cands[c1].id);
                    } else {
                        assert(cands.to_multiset().contains(out@[a]));
                        assert(cands.to_multiset().contains(out@[b]));
                        assert(cands.contains(out@[a]) && cands.contains(out@[b]));
                        let c1 = choose|c1: int| 0 <= c1 < cands.len() && cands[c1] == out@[a];
                        let c2 = choose|c2: int| 0 <= c2 < cands.len() && cands[c2] == out@[b];
                        assert(c1 != c2);
                        assert(cands[c1].id != cands[c2].id || cands[c2].id != cands[c1].id);
                    }
                }
            }
        }
        out
    }
}

} // verus!
