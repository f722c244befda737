//! The drag interaction state machine: pointer-down picks up a card (and the
//! run above it in a tableau), pointer-move carries the group, pointer-up
//! either commits the move through the rule engine or reverts the whole group
//! to its recorded positions — all or nothing.

use vstd::prelude::*;

use crate::component::{Draggable, Droppable, Renderable, StackType, Transform};
use crate::constants::{DRAG_BASE_Z, DRAG_OPACITY, FULL_OPACITY};
use crate::solitaire::{
    move_card_stack, move_run_post, spec_can_move_stack, stack_has_card, stacks_wf,
};
use crate::utils::{clamp, clamped, Vec2};
use crate::world::{
    cards_eq, clickables_eq, draggables_eq, droppables_eq, entities_eq, renderables_eq, stacks_eq,
    transforms_eq, World,
};
use crate::{EcsError, EntityId, COORD_LIMIT, MAX_ENTITIES, POINTER_LIMIT};

verus! {

/// The drag machine: idle, or holding a lead entity together with the group
/// picked up with it and the stack the group came from.
pub struct DragSystem {
    lead: Option<EntityId>,
    group: Vec<EntityId>,
    from_stack: Option<EntityId>,
}

impl DragSystem {
    pub open spec fn is_idle(&self) -> bool {
        self.spec_lead() is None
    }

    pub closed spec fn spec_lead(&self) -> Option<EntityId> {
        self.lead
    }

    pub closed spec fn spec_group(&self) -> Seq<EntityId> {
        self.group@
    }

    pub closed spec fn spec_from_stack(&self) -> Option<EntityId> {
        self.from_stack
    }

    pub fn new() -> (r: Self)
        ensures
            r.is_idle(),
    {
        DragSystem { lead: None, group: Vec::new(), from_stack: None }
    }

    /// Whether no drag is in flight.
    pub fn is_idle_exec(&self) -> (r: bool)
        ensures
            r == self.is_idle(),
    {
        self.lead.is_none()
    }
}

/// The entity the hit test selects at the pointer: a visible box containing
/// the point, drawn in front of every other such box (ties to the lowest
/// id).
pub open spec fn best_hit(w: World, x: i64, y: i64, e: EntityId) -> bool {
    w.hit_at(e, x, y) && forall|o: EntityId|
        w.hit_at(o, x, y) ==> (w.z_at(o) < w.z_at(e) || (w.z_at(o) == w.z_at(e) && e <= o))
}

/// At most one entity is the hit test's selection.
pub proof fn lemma_best_hit_unique(w: World, x: i64, y: i64, e1: EntityId, e2: EntityId)
    requires
        best_hit(w, x, y, e1),
        best_hit(w, x, y, e2),
    ensures
        e1 == e2,
{
    assert(w.hit_at(e1, x, y) && w.hit_at(e2, x, y));
    assert(w.z_at(e2) < w.z_at(e1) || (w.z_at(e2) == w.z_at(e1) && e1 <= e2));
    assert(w.z_at(e1) < w.z_at(e2) || (w.z_at(e1) == w.z_at(e2) && e2 <= e1));
}

/// The stack holding the card, when one does; with exclusive membership it
/// is unique.
pub open spec fn spec_home_stack(w: World, lead: EntityId) -> Option<EntityId> {
    if exists|sid: EntityId| #[trigger] stack_has_card(w, sid, lead) {
        Some(choose|sid: EntityId| stack_has_card(w, sid, lead))
    } else {
        None
    }
}

/// The group a lead picks up: the contiguous run from the lead's index to
/// the top of its tableau, or the lead alone when it sits in no tableau.
pub open spec fn spec_drag_group(w: World, lead: EntityId) -> Seq<EntityId> {
    match spec_home_stack(w, lead) {
        Some(sid) => if w.spec_stack(sid)->Some_0.stack_type matches StackType::Tableau { .. } {
            crate::solitaire::run_from(w.spec_stack(sid)->Some_0, lead)
        } else {
            seq![lead]
        },
        None => seq![lead],
    }
}

/// The lead can be picked up: it carries drag bookkeeping, it is no stack,
/// and every member of its group carries drag bookkeeping, a transform and a
/// renderable.
pub open spec fn spec_pickable(w: World, lead: EntityId) -> bool {
    &&& w.spec_draggable(lead) is Some
    &&& w.spec_stack(lead) is None
    &&& forall|k: int|
        0 <= k < spec_drag_group(w, lead).len() ==> (w.spec_draggable(
            #[trigger] spec_drag_group(w, lead)[k],
        ) is Some && w.spec_transform(spec_drag_group(w, lead)[k]) is Some && w.spec_renderable(
            spec_drag_group(w, lead)[k],
        ) is Some)
}

/// A drag can start at the pointer: the hit test selects a pickable lead.
pub open spec fn pick_possible(w: World, x: i64, y: i64) -> bool {
    exists|e: EntityId| #[trigger] best_hit(w, x, y, e) && spec_pickable(w, e)
}

/// The point lies in the entity's drop box.
pub open spec fn droppable_hit(w: World, x: i64, y: i64, e: EntityId) -> bool {
    w.spec_transform(e) matches Some(t) && w.spec_droppable(e) matches Some(d) && t.position.x <= x
        <= t.position.x + d.width && t.position.y <= y <= t.position.y + d.height
}

/// The drop target at the pointer: a drop box containing the point, outside
/// the dragged group, drawn in front of every other such box (ties to the
/// lowest id).
pub open spec fn best_drop(w: World, x: i64, y: i64, group: Seq<EntityId>, e: EntityId) -> bool {
    &&& droppable_hit(w, x, y, e)
    &&& !group.contains(e)
    &&& forall|o: EntityId|
        droppable_hit(w, x, y, o) && !group.contains(o) ==> (w.z_at(o) < w.z_at(e) || (w.z_at(o)
            == w.z_at(e) && e <= o))
}

/// At most one entity is the drop target.
pub proof fn lemma_best_drop_unique(
    w: World,
    x: i64,
    y: i64,
    group: Seq<EntityId>,
    e1: EntityId,
    e2: EntityId,
)
    requires
        best_drop(w, x, y, group, e1),
        best_drop(w, x, y, group, e2),
    ensures
        e1 == e2,
{
    assert(w.z_at(e2) < w.z_at(e1) || (w.z_at(e2) == w.z_at(e1) && e1 <= e2));
    assert(w.z_at(e1) < w.z_at(e2) || (w.z_at(e1) == w.z_at(e2) && e2 <= e1));
}

/// Some drop box outside the group lies under the pointer.
pub open spec fn drop_target_exists(w: World, x: i64, y: i64, group: Seq<EntityId>) -> bool {
    exists|e: EntityId| #[trigger] best_drop(w, x, y, group, e)
}

/// The drop target under the pointer (meaningful when one exists; it is then
/// unique).
pub open spec fn the_drop(w: World, x: i64, y: i64, group: Seq<EntityId>) -> EntityId {
    choose|e: EntityId| best_drop(w, x, y, group, e)
}

/// When the run move a release delegates to cannot be carried out — the
/// source stack is gone, or the held card is in it while the target has no
/// stack, or the rules accept the move but the target or a run card lacks a
/// transform. A release treats this slice as an invalid drop and reverts;
/// nothing propagates as a failure.
pub open spec fn release_error(w: World, lead: EntityId, from: EntityId, t: EntityId) -> bool {
    ||| w.spec_stack(from) is None
    ||| (stack_has_card(w, from, lead) && (w.spec_stack(t) is None || (spec_can_move_stack(
        w,
        lead,
        from,
        t,
    ) && (w.spec_transform(t) is None || !crate::solitaire::run_all_have_transforms(
        w,
        from,
        lead,
    )))))
}

/// The release at this pointer commits: the machine holds a group from a
/// recorded source pile, a drop target lies under the pointer, the rules
/// accept the run on it, and nothing the move needs is missing.
pub open spec fn release_commits(w: World, d: DragSystem, x: i64, y: i64) -> bool {
    &&& !d.is_idle()
    &&& d.spec_from_stack() is Some
    &&& drop_target_exists(w, x, y, d.spec_group())
    &&& spec_can_move_stack(
        w,
        d.spec_group()[0],
        d.spec_from_stack()->Some_0,
        the_drop(w, x, y, d.spec_group()),
    )
    &&& !release_error(
        w,
        d.spec_group()[0],
        d.spec_from_stack()->Some_0,
        the_drop(w, x, y, d.spec_group()),
    )
}

/// What a committing release leaves behind: the run moved onto the drop
/// target under the pointer (`move_run_post`), the group turned opaque and
/// still again, and the lead sits in exactly that target stack.
pub open spec fn commit_post(w0: World, w1: World, d: DragSystem, x: i64, y: i64) -> bool {
    let grp = d.spec_group();
    let from = d.spec_from_stack()->Some_0;
    let t = the_drop(w0, x, y, grp);
    &&& best_drop(w0, x, y, grp, t)
    &&& (exists|w_mid: World|
        #[trigger] move_run_post(w0, w_mid, grp[0], from, t) && looks_restored(w_mid, w1, grp))
    &&& stack_has_card(w1, t, grp[0])
    &&& forall|s: EntityId| s != t ==> !stack_has_card(w1, s, grp[0])
}

/// What restoring the group's looks after a commit leaves behind: each
/// member that still carries drag bookkeeping is no longer dragging, each
/// that still carries a renderable is fully opaque again, and nothing else —
/// transforms, cards, stacks, entities, clicks, drop boxes — changes.
pub open spec fn looks_restored(w0: World, w1: World, group: Seq<EntityId>) -> bool {
    &&& forall|k: int|
        0 <= k < group.len() ==> #[trigger] w1.spec_draggable(group[k]) == (match w0.spec_draggable(
            group[k],
        ) {
            Some(d) => Some(Draggable { is_dragging: false, ..d }),
            None => None,
        })
    &&& forall|k: int|
        0 <= k < group.len() ==> #[trigger] w1.spec_renderable(group[k]) == (
        match w0.spec_renderable(group[k]) {
            Some(r) => Some(Renderable { opacity: FULL_OPACITY, ..r }),
            None => None,
        })
    &&& forall|o: EntityId|
        !group.contains(o) ==> #[trigger] w1.spec_draggable(o) == w0.spec_draggable(o)
    &&& forall|o: EntityId|
        !group.contains(o) ==> #[trigger] w1.spec_renderable(o) == w0.spec_renderable(o)
    &&& transforms_eq(w1, w0)
    &&& cards_eq(w1, w0)
    &&& stacks_eq(w1, w0)
    &&& entities_eq(w1, w0)
    &&& clickables_eq(w1, w0)
    &&& droppables_eq(w1, w0)
}

/// Every group member carries drag bookkeeping whose recorded origin lies in
/// the coordinate domain, and a transform and a renderable.
pub open spec fn group_held(w: World, group: Seq<EntityId>) -> bool {
    forall|k: int|
        0 <= k < group.len() ==> ((w.spec_draggable(#[trigger] group[k]) matches Some(d)
            && -COORD_LIMIT <= d.original_position.x <= COORD_LIMIT && -COORD_LIMIT
            <= d.original_position.y <= COORD_LIMIT && -crate::Z_LIMIT <= d.original_z_index
            <= crate::Z_LIMIT && -(POINTER_LIMIT + COORD_LIMIT) <= d.drag_offset.x <= POINTER_LIMIT
            + COORD_LIMIT && -(POINTER_LIMIT + COORD_LIMIT) <= d.drag_offset.y <= POINTER_LIMIT
            + COORD_LIMIT) && w.spec_transform(group[k]) is Some && w.spec_renderable(group[k])
            is Some && w.spec_stack(group[k]) is None)
}

/// What picking a group up leaves behind: each member records the pointer's
/// offset from its position, its position and draw order as the origin to
/// revert to, turns translucent, and is raised above the board in group
/// order; positions do not move at pick-up. Everything else is untouched.
pub open spec fn pick_post(w0: World, w1: World, group: Seq<EntityId>, x: i64, y: i64) -> bool {
    &&& group.no_duplicates()
    &&& forall|k: int|
        0 <= k < group.len() ==> ((w0.spec_draggable(#[trigger] group[k]) matches Some(d0)
            && w0.spec_transform(group[k]) matches Some(t0) && w0.spec_renderable(group[k])
            matches Some(r0) && w1.spec_draggable(group[k]) == Some(
            Draggable {
                is_dragging: true,
                drag_offset: Vec2 { x: (x - t0.position.x) as i64, y: (y - t0.position.y) as i64 },
                original_position: t0.position,
                original_z_index: t0.z_index,
                ..d0
            },
        ) && w1.spec_transform(group[k]) == Some(
            Transform { z_index: (DRAG_BASE_Z + k) as i64, ..t0 },
        ) && w1.spec_renderable(group[k]) == Some(Renderable { opacity: DRAG_OPACITY, ..r0 })))
    &&& forall|o: EntityId|
        !group.contains(o) ==> #[trigger] w1.spec_draggable(o) == w0.spec_draggable(o)
    &&& forall|o: EntityId|
        !group.contains(o) ==> #[trigger] w1.spec_transform(o) == w0.spec_transform(o)
    &&& forall|o: EntityId|
        !group.contains(o) ==> #[trigger] w1.spec_renderable(o) == w0.spec_renderable(o)
    &&& entities_eq(w1, w0)
    &&& cards_eq(w1, w0)
    &&& stacks_eq(w1, w0)
    &&& clickables_eq(w1, w0)
    &&& droppables_eq(w1, w0)
}

/// What carrying the group leaves behind: each member stands at the pointer
/// minus its recorded offset, confined to the coordinate domain; draw order,
/// scale and rotation are kept. Everything else is untouched.
pub open spec fn move_post(w0: World, w1: World, group: Seq<EntityId>, x: i64, y: i64) -> bool {
    &&& forall|k: int|
        0 <= k < group.len() ==> ((w0.spec_draggable(#[trigger] group[k]) matches Some(d)
            && w0.spec_transform(group[k]) matches Some(t0) && w1.spec_transform(group[k]) == Some(
            Transform {
                position: Vec2 {
                    x: clamped((x - d.drag_offset.x) as i64, (-COORD_LIMIT) as i64, COORD_LIMIT),
                    y: clamped((y - d.drag_offset.y) as i64, (-COORD_LIMIT) as i64, COORD_LIMIT),
                },
                ..t0
            },
        )))
    &&& forall|o: EntityId|
        !group.contains(o) ==> #[trigger] w1.spec_transform(o) == w0.spec_transform(o)
    &&& entities_eq(w1, w0)
    &&& cards_eq(w1, w0)
    &&& stacks_eq(w1, w0)
    &&& draggables_eq(w1, w0)
    &&& renderables_eq(w1, w0)
    &&& clickables_eq(w1, w0)
    &&& droppables_eq(w1, w0)
}

/// What reverting the group leaves behind: each member stands again at its
/// recorded origin position and draw order, fully opaque and no longer
/// dragging. Everything else is untouched.
pub open spec fn revert_post(w0: World, w1: World, group: Seq<EntityId>) -> bool {
    &&& forall|k: int|
        0 <= k < group.len() ==> ((w0.spec_draggable(#[trigger] group[k]) matches Some(d0)
            && w0.spec_transform(group[k]) matches Some(t0) && w0.spec_renderable(group[k])
            matches Some(r0) && w1.spec_transform(group[k]) == Some(
            Transform { position: d0.original_position, z_index: d0.original_z_index, ..t0 },
        ) && w1.spec_draggable(group[k]) == Some(Draggable { is_dragging: false, ..d0 })
            && w1.spec_renderable(group[k]) == Some(Renderable { opacity: FULL_OPACITY, ..r0 })))
    &&& forall|o: EntityId|
        !group.contains(o) ==> #[trigger] w1.spec_transform(o) == w0.spec_transform(o)
    &&& forall|o: EntityId|
        !group.contains(o) ==> #[trigger] w1.spec_draggable(o) == w0.spec_draggable(o)
    &&& forall|o: EntityId|
        !group.contains(o) ==> #[trigger] w1.spec_renderable(o) == w0.spec_renderable(o)
    &&& entities_eq(w1, w0)
    &&& cards_eq(w1, w0)
    &&& stacks_eq(w1, w0)
    &&& clickables_eq(w1, w0)
    &&& droppables_eq(w1, w0)
}

/// Reverting a picked-up group restores every transform of the world —
/// positions and draw order bit for bit — whatever happened in between, as
/// long as the recorded origins stayed intact.
pub open spec fn revert_ready(w0: World, w: World, group: Seq<EntityId>) -> bool {
    &&& group.no_duplicates()
    &&& forall|k: int|
        0 <= k < group.len() ==> ((w.spec_draggable(#[trigger] group[k]) matches Some(d)
            && w0.spec_transform(group[k]) matches Some(t0) && d.original_position == t0.position
            && d.original_z_index == t0.z_index && (w.spec_transform(group[k]) matches Some(t)
            && t.scale == t0.scale && t.rotation == t0.rotation) && w.spec_renderable(group[k])
            is Some))
    &&& forall|o: EntityId|
        !group.contains(o) ==> #[trigger] w.spec_transform(o) == w0.spec_transform(o)
}

/// When some member of the hit lead's group lacks a component the pick
/// needs, no drag can start at this pointer position.
pub proof fn lemma_unpickable_member(w: World, x: i64, y: i64, lead: EntityId, k: int)
    requires
        best_hit(w, x, y, lead),
        0 <= k < spec_drag_group(w, lead).len(),
        !(w.spec_draggable(spec_drag_group(w, lead)[k]) is Some && w.spec_transform(
            spec_drag_group(w, lead)[k],
        ) is Some && w.spec_renderable(spec_drag_group(w, lead)[k]) is Some),
    ensures
        !pick_possible(w, x, y),
{
    if pick_possible(w, x, y) {
        let e = choose|e: EntityId| #[trigger] best_hit(w, x, y, e) && spec_pickable(w, e);
        lemma_best_hit_unique(w, x, y, e, lead);
    }
}

/// Picking a group up leaves it ready to revert to the pre-pick world.
pub proof fn lemma_pick_makes_revert_ready(w0: World, w1: World, group: Seq<EntityId>, x: i64, y: i64)
    requires
        pick_post(w0, w1, group, x, y),
    ensures
        revert_ready(w0, w1, group),
{
}

/// Carrying the group keeps it ready to revert to the pre-pick world.
pub proof fn lemma_move_keeps_revert_ready(
    w0: World,
    w1: World,
    w2: World,
    group: Seq<EntityId>,
    x: i64,
    y: i64,
)
    requires
        revert_ready(w0, w1, group),
        move_post(w1, w2, group, x, y),
    ensures
        revert_ready(w0, w2, group),
{
    assert forall|k: int|
        0 <= k < group.len() implies ((w2.spec_draggable(#[trigger] group[k]) matches Some(d)
        && w0.spec_transform(group[k]) matches Some(t0) && d.original_position == t0.position
        && d.original_z_index == t0.z_index && (w2.spec_transform(group[k]) matches Some(t)
        && t.scale == t0.scale && t.rotation == t0.rotation) && w2.spec_renderable(group[k])
        is Some)) by {
        assert(w2.spec_draggable(group[k]) == w1.spec_draggable(group[k]));
        assert(w2.spec_renderable(group[k]) == w1.spec_renderable(group[k]));
    }
}

/// Reverting a group that is ready restores every transform of the world to
/// its pre-pick value, bit for bit.
pub proof fn lemma_revert_restores_transforms(
    w0: World,
    w: World,
    w1: World,
    group: Seq<EntityId>,
)
    requires
        revert_ready(w0, w, group),
        revert_post(w, w1, group),
    ensures
        transforms_eq(w1, w0),
{
    assert forall|id: EntityId| #[trigger] w1.spec_transform(id) == w0.spec_transform(id) by {
        if group.contains(id) {
            let k = choose|k: int| 0 <= k < group.len() && group[k] == id;
            assert(w.spec_draggable(group[k]) is Some);
            let t0 = w0.spec_transform(group[k])->Some_0;
            assert(w1.spec_transform(group[k]) == Some(t0));
        }
    }
}

/// A committed run move leaves the moved card in exactly the destination
/// stack: present there, absent from every other stack.
pub proof fn lemma_commit_exclusive(
    w0: World,
    w1: World,
    card_id: EntityId,
    from_id: EntityId,
    to_id: EntityId,
)
    requires
        stacks_wf(w0),
        w0.spec_stack(from_id) is Some,
        w0.spec_stack(to_id) is Some,
        stack_has_card(w0, from_id, card_id),
        move_run_post(w0, w1, card_id, from_id, to_id),
    ensures
        stack_has_card(w1, to_id, card_id),
        forall|s: EntityId| s != to_id ==> !stack_has_card(w1, s, card_id),
{
    crate::solitaire::lemma_move_run_preserves_stacks_wf(w0, w1, card_id, from_id, to_id);
    let ft = w0.spec_stack(from_id)->Some_0;
    ft.cards@.index_of_first_ensures(card_id);
    let idx = ft.cards@.index_of_first(card_id)->Some_0;
    let run = ft.cards@.skip(idx);
    let t1 = w1.spec_stack(to_id)->Some_0;
    let base = if from_id == to_id {
        ft.cards@.take(idx)
    } else {
        w0.spec_stack(to_id)->Some_0.cards@
    };
    assert(stack_has_card(w1, to_id, card_id)) by {
        assert(run[0] == ft.cards@[idx]);
        assert(t1.cards@[base.len() as int] == run[0]);
    }
    assert forall|s: EntityId| s != to_id implies !stack_has_card(w1, s, card_id) by {
        if stack_has_card(w1, s, card_id) {
            assert(s == to_id);
        }
    }
}

} // verus!

verus! {

/// Picking a group up keeps the board's boxes bounded and its stack
/// invariants intact: positions do not move, only draw orders rise to a
/// small constant, and no stack's card list changes.
pub proof fn lemma_pick_preserves_board(
    w0: World,
    w1: World,
    group: Seq<EntityId>,
    x: i64,
    y: i64,
)
    requires
        w0.boxes_wf(),
        stacks_wf(w0),
        group.len() <= MAX_ENTITIES + 1,
        pick_post(w0, w1, group, x, y),
    ensures
        w1.boxes_wf(),
        stacks_wf(w1),
{
    assert forall|o: EntityId| crate::world::transform_bounded(
        #[trigger] w1.spec_transform(o),
    ) by {
        if group.contains(o) {
            let j = choose|j: int| 0 <= j < group.len() && group[j] == o;
            assert(w0.spec_transform(group[j]) is Some);
            assert(crate::world::transform_bounded(w0.spec_transform(group[j])));
            assert(w1.spec_transform(group[j]) is Some);
        } else {
            assert(w1.spec_transform(o) == w0.spec_transform(o));
            assert(crate::world::transform_bounded(w0.spec_transform(o)));
        }
    }
    assert forall|o: EntityId| crate::world::renderable_bounded(
        #[trigger] w1.spec_renderable(o),
    ) by {
        if group.contains(o) {
            let j = choose|j: int| 0 <= j < group.len() && group[j] == o;
            assert(w0.spec_renderable(group[j]) is Some);
            assert(crate::world::renderable_bounded(w0.spec_renderable(group[j])));
        } else {
            assert(w1.spec_renderable(o) == w0.spec_renderable(o));
            assert(crate::world::renderable_bounded(w0.spec_renderable(o)));
        }
    }
    assert forall|o: EntityId| crate::world::droppable_bounded(
        #[trigger] w1.spec_droppable(o),
    ) by {
        assert(w1.spec_droppable(o) == w0.spec_droppable(o));
        assert(crate::world::droppable_bounded(w0.spec_droppable(o)));
    }
    assert forall|sid: EntityId| #[trigger] crate::solitaire::stack_cards_ok(w1, sid) by {
        assert(crate::solitaire::stack_cards_ok(w0, sid));
        if w1.spec_stack(sid) is Some {
            let cs = w1.spec_stack(sid)->Some_0.cards@;
            assert(w1.spec_stack(sid) == w0.spec_stack(sid));
            assert forall|i: int|
                0 <= i < cs.len() implies w1.spec_card(#[trigger] cs[i]) is Some by {
                assert(w0.spec_card(cs[i]) is Some);
                assert(w1.spec_card(cs[i]) == w0.spec_card(cs[i]));
            }
        }
    }
    assert forall|s1: EntityId, s2: EntityId, id: EntityId|
        #[trigger] stack_has_card(w1, s1, id) && #[trigger] stack_has_card(w1, s2, id) implies s1
        == s2 by {
        assert(w1.spec_stack(s1) == w0.spec_stack(s1));
        assert(w1.spec_stack(s2) == w0.spec_stack(s2));
        assert(stack_has_card(w0, s1, id) && stack_has_card(w0, s2, id));
    }
    assert forall|sid: EntityId, id: EntityId| #[trigger]
        stack_has_card(w1, sid, id) implies w1.spec_stack(id) is None by {
        assert(w1.spec_stack(sid) == w0.spec_stack(sid));
        assert(stack_has_card(w0, sid, id));
        assert(w1.spec_stack(id) == w0.spec_stack(id));
    }
    assert forall|sid: EntityId| #[trigger] crate::solitaire::stack_anchor_ok(w1, sid) by {
        assert(crate::solitaire::stack_anchor_ok(w0, sid));
        if w1.spec_stack(sid) is Some && w1.spec_transform(sid) is Some {
            assert(w1.spec_stack(sid) == w0.spec_stack(sid));
            if group.contains(sid) {
                // The pick changes only the draw order; the anchor position
                // stays where it was.
                let j = choose|j: int| 0 <= j < group.len() && group[j] == sid;
                let t0 = w0.spec_transform(group[j])->Some_0;
                assert(w1.spec_transform(group[j]) == Some(
                    Transform { z_index: (DRAG_BASE_Z + j) as i64, ..t0 },
                ));
            } else {
                assert(w1.spec_transform(sid) == w0.spec_transform(sid));
            }
        }
    }
}

impl DragSystem {
    /// Pointer-down: picks up the draggable entity under the pointer, and —
    /// when it sits in a tableau — the whole run above it, as one group. The
    /// drag starts exactly when such an entity is hit and every group member
    /// carries drag bookkeeping, a transform and a renderable; otherwise
    /// nothing changes.
    #[verifier::rlimit(100)]
    #[verifier::spinoff_prover]
    pub fn pointer_down(&mut self, world: &mut World, x: i64, y: i64)
        requires
            old(self).is_idle(),
            old(world).wf(),
            old(world).boxes_wf(),
            stacks_wf(*old(world)),
            -POINTER_LIMIT <= x <= POINTER_LIMIT,
            -POINTER_LIMIT <= y <= POINTER_LIMIT,
        ensures
            final(world).wf(),
            final(world).boxes_wf(),
            stacks_wf(*final(world)),
            final(world).alive_seq() === old(world).alive_seq(),
            final(world).pending_removal() === old(world).pending_removal(),
            final(self).is_idle() ==> *final(world) == *old(world),
            (!final(self).is_idle()) == pick_possible(*old(world), x, y),
            !final(self).is_idle() ==> {
                &&& pick_post(*old(world), *final(world), final(self).spec_group(), x, y)
                &&& group_held(*final(world), final(self).spec_group())
                &&& final(self).spec_group().len() >= 1
                &&& final(self).spec_lead() == Some(final(self).spec_group()[0])
                &&& best_hit(*old(world), x, y, final(self).spec_group()[0])
                &&& spec_pickable(*old(world), final(self).spec_group()[0])
                &&& final(self).spec_group() === spec_drag_group(
                    *old(world),
                    final(self).spec_group()[0],
                )
                &&& final(self).spec_from_stack() == spec_home_stack(
                    *old(world),
                    final(self).spec_group()[0],
                )
                &&& (final(self).spec_from_stack() matches Some(sid) ==> stack_has_card(
                    *old(world),
                    sid,
                    final(self).spec_group()[0],
                ))
            },
    {
        let lead = match world.get_entity_at_position(x, y) {
            Some(e) => e,
            None => {
                proof {
                    if pick_possible(*world, x, y) {
                        let e = choose|e: EntityId|
                            #[trigger] best_hit(*world, x, y, e) && spec_pickable(*world, e);
                        assert(world.hit_at(e, x, y));
                    }
                }
                return ;
            },
        };
        if !world.has_draggable(lead) || world.has_stack(lead) {
            proof {
                assert(best_hit(*world, x, y, lead));
                if pick_possible(*world, x, y) {
                    let e = choose|e: EntityId|
                        #[trigger] best_hit(*world, x, y, e) && spec_pickable(*world, e);
                    lemma_best_hit_unique(*world, x, y, e, lead);
                }
            }
            return ;
        }
        // The group: the run above the lead in its tableau, or the lead alone.
        let mut group: Vec<EntityId> = Vec::new();
        let mut from_stack: Option<EntityId> = None;
        let stack_ids = world.get_entities_with_stack();
        let mut si: usize = 0;
        while si < stack_ids.len() && from_stack.is_none()
            invariant
                world.wf(),
                stacks_wf(*world),
                si <= stack_ids@.len(),
                forall|id: EntityId| stack_ids@.contains(id) <==> world.spec_stack(id) is Some,
                from_stack is None ==> forall|j: int|
                    0 <= j < si ==> !stack_has_card(*world, #[trigger] stack_ids@[j], lead),
                from_stack matches Some(sid) ==> stack_has_card(*world, sid, lead),
            decreases stack_ids@.len() - si,
        {
            let sid = stack_ids[si];
            let found = match world.get_stack(sid) {
                Some(st) => st.contains_card(lead),
                None => false,
            };
            if found {
                from_stack = Some(sid);
            }
            si = si + 1;
        }
        match from_stack {
            Some(sid) => {
                let st = match world.get_stack(sid) {
                    Some(st) => st,
                    None => {
                        proof {
                            assert(false);
                        }
                        return ;
                    },
                };
                if matches!(st.stack_type, StackType::Tableau { .. }) {
                    let idx = match st.get_card_index(lead) {
                        Some(i) => i,
                        None => {
                            proof {
                                assert(false);
                            }
                            return ;
                        },
                    };
                    proof {
                        let cards = st.cards@;
                        cards.index_of_first_ensures(lead);
                        let iof = cards.index_of_first(lead)->Some_0;
                        assert(iof == idx as int) by {
                            if iof < idx as int {
                                assert(cards[iof] == lead);
                            }
                        }
                    }
                    group = st.cards_from_index(idx);
                } else {
                    group.push(lead);
                }
            },
            None => {
                group.push(lead);
            },
        }
        proof {
            // The found stack is the spec's home stack: membership is
            // exclusive, so any witness agrees with the one found.
            assert(from_stack == spec_home_stack(*world, lead)) by {
                match from_stack {
                    Some(sid) => {
                        assert(stack_has_card(*world, sid, lead));
                        let c = choose|c: EntityId| stack_has_card(*world, c, lead);
                        assert(stack_has_card(*world, c, lead));
                    },
                    None => {
                        if exists|c: EntityId| #[trigger] stack_has_card(*world, c, lead) {
                            let c = choose|c: EntityId| #[trigger] stack_has_card(*world, c, lead);
                            assert(stack_has_card(*world, c, lead));
                            assert(world.spec_stack(c) is Some);
                            assert(stack_ids@.contains(c));
                            let j = choose|j: int|
                                0 <= j < stack_ids@.len() && stack_ids@[j] == c;
                            assert(stack_ids@[j] == c);
                            assert(0 <= j < si);
                            assert(!stack_has_card(*world, stack_ids@[j], lead));
                        }
                    },
                }
            }
            // The group is distinct, headed by the lead, and is the spec's
            // drag group.
            if from_stack is Some && (world.spec_stack(from_stack->Some_0)->Some_0.stack_type
                matches StackType::Tableau { .. }) {
                let sid = from_stack->Some_0;
                let cards = world.spec_stack(sid)->Some_0.cards@;
                assert(crate::solitaire::stack_cards_ok(*world, sid));
                let iof = cards.index_of_first(lead)->Some_0;
                assert(group@ === cards.skip(iof));
                assert(group@.no_duplicates()) by {
                    assert forall|a: int, b: int|
                        0 <= a < b < group@.len() implies group@[a] != group@[b] by {
                        assert(group@[a] == cards[iof + a] && group@[b] == cards[iof + b]);
                    }
                }
                assert(group@[0] == cards[iof]);
                assert(group@.len() >= 1);
            } else {
                assert(group@ =~= seq![lead]);
            }
            assert(group@ === spec_drag_group(*world, lead));
        }
        // Every member must be holdable, or the drag does not start.
        let mut k: usize = 0;
        while k < group.len()
            invariant
                world == old(world),
                old(world).wf(),
                old(world).boxes_wf(),
                stacks_wf(*old(world)),
                old(self).is_idle(),
                self == old(self),
                k <= group@.len(),
                best_hit(*world, x, y, lead),
                world.spec_draggable(lead) is Some,
                world.spec_stack(lead) is None,
                group@ === spec_drag_group(*world, lead),
                forall|j: int|
                    0 <= j < k ==> (world.spec_draggable(#[trigger] group@[j]) is Some
                        && world.spec_transform(group@[j]) is Some && world.spec_renderable(
                        group@[j],
                    ) is Some),
            decreases group@.len() - k,
        {
            let m = group[k];
            if !world.has_draggable(m) || !world.has_transform(m) {
                proof {
                    lemma_unpickable_member(*world, x, y, lead, k as int);
                }
                return ;
            }
            match world.get_renderable(m) {
                Some(_) => {},
                None => {
                    proof {
                        lemma_unpickable_member(*world, x, y, lead, k as int);
                    }
                    return ;
                },
            }
            k = k + 1;
        }
        proof {
            if from_stack is Some && (world.spec_stack(from_stack->Some_0)->Some_0.stack_type
                matches StackType::Tableau { .. }) {
                crate::solitaire::lemma_stack_len_bounded(*world, from_stack->Some_0);
            }
            assert(group@.len() <= MAX_ENTITIES + 1);
            assert(group@.no_duplicates());
            assert(group@[0] == lead);
            // The whole group checked out, so the pick is possible, with
            // this lead as the selection.
            assert(spec_pickable(*world, lead));
            assert(pick_possible(*world, x, y)) by {
                assert(best_hit(*world, x, y, lead) && spec_pickable(*world, lead));
            }
        }
        let ghost w0 = *world;
        let ghost grp = group@;

        // Record each member's origin, raise it and turn it translucent.
        let mut k: usize = 0;
        while k < group.len()
            invariant
                world.wf(),
                group@ === grp,
                k <= grp.len(),
                grp.len() <= MAX_ENTITIES + 1,
                grp.no_duplicates(),
                -POINTER_LIMIT <= x <= POINTER_LIMIT,
                -POINTER_LIMIT <= y <= POINTER_LIMIT,
                w0 == *old(world),
                grp[0] == lead,
                grp === spec_drag_group(w0, lead),
                from_stack == spec_home_stack(w0, lead),
                best_hit(w0, x, y, lead),
                spec_pickable(w0, lead),
                pick_possible(w0, x, y),
                w0.boxes_wf(),
                forall|j: int|
                    0 <= j < grp.len() ==> (w0.spec_draggable(#[trigger] grp[j]) is Some
                        && w0.spec_transform(grp[j]) is Some && w0.spec_renderable(grp[j]) is Some),
                entities_eq(*world, w0),
                cards_eq(*world, w0),
                stacks_eq(*world, w0),
                clickables_eq(*world, w0),
                droppables_eq(*world, w0),
                forall|j: int|
                    0 <= j < k ==> ((w0.spec_draggable(#[trigger] grp[j]) matches Some(d0)
                        && w0.spec_transform(grp[j]) matches Some(t0) && w0.spec_renderable(grp[j])
                        matches Some(r0) && world.spec_draggable(grp[j]) == Some(
                        Draggable {
                            is_dragging: true,
                            drag_offset: Vec2 {
                                x: (x - t0.position.x) as i64,
                                y: (y - t0.position.y) as i64,
                            },
                            original_position: t0.position,
                            original_z_index: t0.z_index,
                            ..d0
                        },
                    ) && world.spec_transform(grp[j]) == Some(
                        Transform { z_index: (DRAG_BASE_Z + j) as i64, ..t0 },
                    ) && world.spec_renderable(grp[j]) == Some(
                        Renderable { opacity: DRAG_OPACITY, ..r0 },
                    ))),
                forall|o: EntityId|
                    !grp.take(k as int).contains(o) ==> #[trigger] world.spec_draggable(o)
                        == w0.spec_draggable(o),
                forall|o: EntityId|
                    !grp.take(k as int).contains(o) ==> #[trigger] world.spec_transform(o)
                        == w0.spec_transform(o),
                forall|o: EntityId|
                    !grp.take(k as int).contains(o) ==> #[trigger] world.spec_renderable(o)
                        == w0.spec_renderable(o),
            decreases grp.len() - k,
        {
            let m = group[k];
            proof {
                assert(!grp.take(k as int).contains(m)) by {
                    if grp.take(k as int).contains(m) {
                        let j = choose|j: int| 0 <= j < k && grp.take(k as int)[j] == m;
                        assert(grp[j] == grp[k as int]);
                    }
                }
            }
            let t = match world.get_transform(m) {
                Some(t) => *t,
                None => {
                    proof {
                        assert(false);
                    }
                    return ;
                },
            };
            let d = match world.get_draggable(m) {
                Some(d) => *d,
                None => {
                    proof {
                        assert(false);
                    }
                    return ;
                },
            };
            let rend = match world.get_renderable(m) {
                Some(r) => *r,
                None => {
                    proof {
                        assert(false);
                    }
                    return ;
                },
            };
            proof {
                assert(crate::world::transform_bounded(w0.spec_transform(m)));
            }
            let _ = world.add_draggable(
                m,
                Draggable {
                    is_dragging: true,
                    drag_offset: Vec2 { x: x - t.position.x, y: y - t.position.y },
                    original_position: t.position,
                    original_z_index: t.z_index,
                    ..d
                },
            );
            let _ = world.add_transform(
                m,
                Transform { z_index: DRAG_BASE_Z + (k as i64), ..t },
            );
            let _ = world.add_renderable(m, Renderable { opacity: DRAG_OPACITY, ..rend });
            proof {
                let prev = grp.take(k as int);
                assert forall|j: int|
                    0 <= j < k + 1 implies ((w0.spec_draggable(#[trigger] grp[j]) matches Some(d0)
                    && w0.spec_transform(grp[j]) matches Some(t0) && w0.spec_renderable(grp[j])
                    matches Some(r0) && world.spec_draggable(grp[j]) == Some(
                    Draggable {
                        is_dragging: true,
                        drag_offset: Vec2 {
                            x: (x - t0.position.x) as i64,
                            y: (y - t0.position.y) as i64,
                        },
                        original_position: t0.position,
                        original_z_index: t0.z_index,
                        ..d0
                    },
                ) && world.spec_transform(grp[j]) == Some(
                    Transform { z_index: (DRAG_BASE_Z + j) as i64, ..t0 },
                ) && world.spec_renderable(grp[j]) == Some(
                    Renderable { opacity: DRAG_OPACITY, ..r0 },
                ))) by {
                    if j < k {
                        assert(grp[j] != m) by {
                            assert(grp.no_duplicates());
                        }
                    }
                }
                assert forall|o: EntityId|
                    !grp.take(k + 1).contains(o) implies #[trigger] world.spec_draggable(o)
                    == w0.spec_draggable(o) by {
                    assert(o != m) by {
                        assert(grp.take(k + 1)[k as int] == m);
                    }
                    assert(!prev.contains(o)) by {
                        if prev.contains(o) {
                            let j = choose|j: int| 0 <= j < k && prev[j] == o;
                            assert(grp.take(k + 1)[j] == o);
                        }
                    }
                }
                assert forall|o: EntityId|
                    !grp.take(k + 1).contains(o) implies #[trigger] world.spec_transform(o)
                    == w0.spec_transform(o) by {
                    assert(o != m) by {
                        assert(grp.take(k + 1)[k as int] == m);
                    }
                    assert(!prev.contains(o)) by {
                        if prev.contains(o) {
                            let j = choose|j: int| 0 <= j < k && prev[j] == o;
                            assert(grp.take(k + 1)[j] == o);
                        }
                    }
                }
                assert forall|o: EntityId|
                    !grp.take(k + 1).contains(o) implies #[trigger] world.spec_renderable(o)
                    == w0.spec_renderable(o) by {
                    assert(o != m) by {
                        assert(grp.take(k + 1)[k as int] == m);
                    }
                    assert(!prev.contains(o)) by {
                        if prev.contains(o) {
                            let j = choose|j: int| 0 <= j < k && prev[j] == o;
                            assert(grp.take(k + 1)[j] == o);
                        }
                    }
                }
            }
            k = k + 1;
        }
        proof {
            assert(grp.take(grp.len() as int) =~= grp);
            assert(pick_post(w0, *world, grp, x, y));
            lemma_pick_preserves_board(w0, *world, grp, x, y);
        }
        proof {
            assert(group_held(*world, grp)) by {
                assert forall|j: int|
                    0 <= j < grp.len() implies ((world.spec_draggable(#[trigger] grp[j])
                    matches Some(d) && -COORD_LIMIT <= d.original_position.x <= COORD_LIMIT
                    && -COORD_LIMIT <= d.original_position.y <= COORD_LIMIT && -crate::Z_LIMIT
                    <= d.original_z_index <= crate::Z_LIMIT && -(POINTER_LIMIT + COORD_LIMIT)
                    <= d.drag_offset.x <= POINTER_LIMIT + COORD_LIMIT && -(POINTER_LIMIT
                    + COORD_LIMIT) <= d.drag_offset.y <= POINTER_LIMIT + COORD_LIMIT)
                    && world.spec_transform(grp[j]) is Some && world.spec_renderable(grp[j])
                    is Some && world.spec_stack(grp[j]) is None) by {
                    assert(crate::world::transform_bounded(w0.spec_transform(grp[j])));
                    assert(world.spec_stack(grp[j]) is None) by {
                        assert(world.spec_stack(grp[j]) == w0.spec_stack(grp[j]));
                        if grp =~= seq![lead] {
                            assert(grp[j] == lead);
                        } else {
                            assert(stack_has_card(w0, from_stack->Some_0, grp[j]));
                        }
                    }
                }
            }
        }
        self.lead = Some(lead);
        self.group = group;
        self.from_stack = from_stack;
    }
}

} // verus!

verus! {

impl DragSystem {
    /// Pointer-move: carries every group member to the pointer minus its
    /// recorded offset, confined to the coordinate domain. Idle drags ignore
    /// the event.
    #[verifier::rlimit(100)]
    #[verifier::spinoff_prover]
    pub fn pointer_move(&self, world: &mut World, x: i64, y: i64)
        requires
            old(world).wf(),
            old(world).boxes_wf(),
            stacks_wf(*old(world)),
            -POINTER_LIMIT <= x <= POINTER_LIMIT,
            -POINTER_LIMIT <= y <= POINTER_LIMIT,
            !self.is_idle() ==> group_held(*old(world), self.spec_group())
                && self.spec_group().no_duplicates(),
        ensures
            final(world).wf(),
            final(world).boxes_wf(),
            stacks_wf(*final(world)),
            final(world).alive_seq() === old(world).alive_seq(),
            final(world).pending_removal() === old(world).pending_removal(),
            self.is_idle() ==> *final(world) == *old(world),
            !self.is_idle() ==> move_post(*old(world), *final(world), self.spec_group(), x, y)
                && group_held(*final(world), self.spec_group()),
    {
        if self.lead.is_none() {
            return ;
        }
        let ghost w0 = *world;
        let ghost grp = self.spec_group();
        let mut k: usize = 0;
        while k < self.group.len()
            invariant
                world.wf(),
                self.spec_group() === grp,
                k <= grp.len(),
                grp.no_duplicates(),
                -POINTER_LIMIT <= x <= POINTER_LIMIT,
                -POINTER_LIMIT <= y <= POINTER_LIMIT,
                group_held(w0, grp),
                w0.boxes_wf(),
                entities_eq(*world, w0),
                cards_eq(*world, w0),
                stacks_eq(*world, w0),
                draggables_eq(*world, w0),
                renderables_eq(*world, w0),
                clickables_eq(*world, w0),
                droppables_eq(*world, w0),
                forall|j: int|
                    0 <= j < k ==> ((w0.spec_draggable(#[trigger] grp[j]) matches Some(d)
                        && w0.spec_transform(grp[j]) matches Some(t0) && world.spec_transform(
                        grp[j],
                    ) == Some(
                        Transform {
                            position: Vec2 {
                                x: clamped(
                                    (x - d.drag_offset.x) as i64,
                                    (-COORD_LIMIT) as i64,
                                    COORD_LIMIT,
                                ),
                                y: clamped(
                                    (y - d.drag_offset.y) as i64,
                                    (-COORD_LIMIT) as i64,
                                    COORD_LIMIT,
                                ),
                            },
                            ..t0
                        },
                    ))),
                forall|o: EntityId|
                    !grp.take(k as int).contains(o) ==> #[trigger] world.spec_transform(o)
                        == w0.spec_transform(o),
            decreases grp.len() - k,
        {
            let m = self.group[k];
            proof {
                assert(!grp.take(k as int).contains(m)) by {
                    if grp.take(k as int).contains(m) {
                        let j = choose|j: int| 0 <= j < k && grp.take(k as int)[j] == m;
                        assert(grp[j] == grp[k as int]);
                    }
                }
                assert(w0.spec_draggable(grp[k as int]) is Some);
            }
            let d = match world.get_draggable(m) {
                Some(d) => *d,
                None => {
                    proof {
                        assert(false);
                    }
                    return ;
                },
            };
            let t = match world.get_transform(m) {
                Some(t) => *t,
                None => {
                    proof {
                        assert(false);
                    }
                    return ;
                },
            };
            let nx = clamp(x - d.drag_offset.x, -COORD_LIMIT, COORD_LIMIT);
            let ny = clamp(y - d.drag_offset.y, -COORD_LIMIT, COORD_LIMIT);
            let _ = world.add_transform(m, Transform { position: Vec2 { x: nx, y: ny }, ..t });
            proof {
                let prev = grp.take(k as int);
                assert forall|j: int|
                    0 <= j < k + 1 implies ((w0.spec_draggable(#[trigger] grp[j]) matches Some(d2)
                    && w0.spec_transform(grp[j]) matches Some(t0) && world.spec_transform(grp[j])
                    == Some(
                    Transform {
                        position: Vec2 {
                            x: clamped(
                                (x - d2.drag_offset.x) as i64,
                                (-COORD_LIMIT) as i64,
                                COORD_LIMIT,
                            ),
                            y: clamped(
                                (y - d2.drag_offset.y) as i64,
                                (-COORD_LIMIT) as i64,
                                COORD_LIMIT,
                            ),
                        },
                        ..t0
                    },
                ))) by {
                    if j < k {
                        assert(grp[j] != m) by {
                            assert(grp.no_duplicates());
                        }
                    }
                }
                assert forall|o: EntityId|
                    !grp.take(k + 1).contains(o) implies #[trigger] world.spec_transform(o)
                    == w0.spec_transform(o) by {
                    assert(o != m) by {
                        assert(grp.take(k + 1)[k as int] == m);
                    }
                    assert(!prev.contains(o)) by {
                        if prev.contains(o) {
                            let j = choose|j: int| 0 <= j < k && prev[j] == o;
                            assert(grp.take(k + 1)[j] == o);
                        }
                    }
                }
            }
            k = k + 1;
        }
        proof {
            assert(grp.take(grp.len() as int) =~= grp);
            assert(move_post(w0, *world, grp, x, y));
            lemma_carry_preserves_board(w0, *world, grp, x, y);
            assert(group_held(*world, grp)) by {
                assert forall|j: int|
                    0 <= j < grp.len() implies ((world.spec_draggable(#[trigger] grp[j])
                    matches Some(d) && -COORD_LIMIT <= d.original_position.x <= COORD_LIMIT
                    && -COORD_LIMIT <= d.original_position.y <= COORD_LIMIT && -crate::Z_LIMIT
                    <= d.original_z_index <= crate::Z_LIMIT && -(POINTER_LIMIT + COORD_LIMIT)
                    <= d.drag_offset.x <= POINTER_LIMIT + COORD_LIMIT && -(POINTER_LIMIT
                    + COORD_LIMIT) <= d.drag_offset.y <= POINTER_LIMIT + COORD_LIMIT)
                    && world.spec_transform(grp[j]) is Some && world.spec_renderable(grp[j])
                    is Some && world.spec_stack(grp[j]) is None) by {
                    assert(world.spec_draggable(grp[j]) == w0.spec_draggable(grp[j]));
                    assert(world.spec_renderable(grp[j]) == w0.spec_renderable(grp[j]));
                    assert(world.spec_stack(grp[j]) == w0.spec_stack(grp[j]));
                }
            }
        }
    }
}

/// Carrying the group keeps the board's boxes bounded and its stack
/// invariants intact: the carried positions are clamped to the coordinate
/// domain, no carried entity is a stack, and no stack's card list changes.
pub proof fn lemma_carry_preserves_board(
    w0: World,
    w1: World,
    group: Seq<EntityId>,
    x: i64,
    y: i64,
)
    requires
        w0.boxes_wf(),
        stacks_wf(w0),
        group_held(w0, group),
        move_post(w0, w1, group, x, y),
    ensures
        w1.boxes_wf(),
        stacks_wf(w1),
{
    assert forall|o: EntityId| crate::world::transform_bounded(
        #[trigger] w1.spec_transform(o),
    ) by {
        if group.contains(o) {
            let j = choose|j: int| 0 <= j < group.len() && group[j] == o;
            assert(w0.spec_draggable(group[j]) is Some);
            assert(crate::world::transform_bounded(w0.spec_transform(group[j])));
            assert(w1.spec_transform(group[j]) is Some);
        } else {
            assert(w1.spec_transform(o) == w0.spec_transform(o));
            assert(crate::world::transform_bounded(w0.spec_transform(o)));
        }
    }
    assert forall|o: EntityId| crate::world::renderable_bounded(
        #[trigger] w1.spec_renderable(o),
    ) by {
        assert(w1.spec_renderable(o) == w0.spec_renderable(o));
        assert(crate::world::renderable_bounded(w0.spec_renderable(o)));
    }
    assert forall|o: EntityId| crate::world::droppable_bounded(
        #[trigger] w1.spec_droppable(o),
    ) by {
        assert(w1.spec_droppable(o) == w0.spec_droppable(o));
        assert(crate::world::droppable_bounded(w0.spec_droppable(o)));
    }
    assert forall|sid: EntityId| #[trigger] crate::solitaire::stack_cards_ok(w1, sid) by {
        assert(crate::solitaire::stack_cards_ok(w0, sid));
        if w1.spec_stack(sid) is Some {
            let cs = w1.spec_stack(sid)->Some_0.cards@;
            assert(w1.spec_stack(sid) == w0.spec_stack(sid));
            assert forall|i: int|
                0 <= i < cs.len() implies w1.spec_card(#[trigger] cs[i]) is Some by {
                assert(w0.spec_card(cs[i]) is Some);
                assert(w1.spec_card(cs[i]) == w0.spec_card(cs[i]));
            }
        }
    }
    assert forall|s1: EntityId, s2: EntityId, id: EntityId|
        #[trigger] stack_has_card(w1, s1, id) && #[trigger] stack_has_card(w1, s2, id) implies s1
        == s2 by {
        assert(w1.spec_stack(s1) == w0.spec_stack(s1));
        assert(w1.spec_stack(s2) == w0.spec_stack(s2));
        assert(stack_has_card(w0, s1, id) && stack_has_card(w0, s2, id));
    }
    assert forall|sid: EntityId, id: EntityId| #[trigger]
        stack_has_card(w1, sid, id) implies w1.spec_stack(id) is None by {
        assert(w1.spec_stack(sid) == w0.spec_stack(sid));
        assert(stack_has_card(w0, sid, id));
        assert(w1.spec_stack(id) == w0.spec_stack(id));
    }
    assert forall|sid: EntityId| #[trigger] crate::solitaire::stack_anchor_ok(w1, sid) by {
        assert(crate::solitaire::stack_anchor_ok(w0, sid));
        if w1.spec_stack(sid) is Some && w1.spec_transform(sid) is Some {
            assert(w1.spec_stack(sid) == w0.spec_stack(sid));
            assert(!group.contains(sid)) by {
                if group.contains(sid) {
                    let j = choose|j: int| 0 <= j < group.len() && group[j] == sid;
                    assert(w0.spec_stack(group[j]) is None);
                }
            }
            assert(w1.spec_transform(sid) == w0.spec_transform(sid));
        }
    }
}

} // verus!

verus! {

impl DragSystem {
    /// Pointer-up: over a drop target the rules accept, commits the group
    /// through the rule engine; anywhere else — or when the rules refuse —
    /// reverts every member to its recorded origin, all or nothing. The drag
    /// ends either way. `Ok(true)` means a move was committed.
    #[verifier::rlimit(100)]
    #[verifier::spinoff_prover]
    pub fn pointer_up(&mut self, world: &mut World, x: i64, y: i64) -> (r: Result<bool, EcsError>)
        requires
            old(world).wf(),
            old(world).boxes_wf(),
            stacks_wf(*old(world)),
            -POINTER_LIMIT <= x <= POINTER_LIMIT,
            -POINTER_LIMIT <= y <= POINTER_LIMIT,
            !old(self).is_idle() ==> group_held(*old(world), old(self).spec_group()) && old(
                self,
            ).spec_group().no_duplicates() && old(self).spec_group().len() >= 1 && old(
                self,
            ).spec_lead() == Some(old(self).spec_group()[0]),
        ensures
            final(world).wf(),
            final(world).boxes_wf(),
            stacks_wf(*final(world)),
            final(self).is_idle(),
            final(world).alive_seq() === old(world).alive_seq(),
            final(world).pending_removal() === old(world).pending_removal(),
            old(self).is_idle() ==> r == Ok::<bool, EcsError>(false) && *final(world) == *old(
                world,
            ),
            r is Ok,
            r == Ok::<bool, EcsError>(true) <==> release_commits(*old(world), *old(self), x, y),
            (!old(self).is_idle() && r == Ok::<bool, EcsError>(false)) ==> revert_post(
                *old(world),
                *final(world),
                old(self).spec_group(),
            ),
            r == Ok::<bool, EcsError>(true) ==> commit_post(
                *old(world),
                *final(world),
                *old(self),
                x,
                y,
            ),
    {
        let lead = match self.lead {
            Some(l) => l,
            None => {
                self.lead = None;
                return Ok(false);
            },
        };
        let ghost w0 = *world;
        let ghost grp = self.spec_group();

        // The drop target: the droppable box under the pointer that is drawn
        // in front, the group itself excluded.
        let target = find_drop_target(world, &self.group, x, y);

        // Commit through the rule engine when a target was found.
        match (target, self.from_stack) {
            (Some(t), Some(from)) => {
                match crate::solitaire::move_card_stack(world, lead, from, t) {
                    Ok(true) => {
                        let ghost w_moved = *world;
                        self.restore_group_looks(world);
                        proof {
                            let ft = w0.spec_stack(from)->Some_0;
                            ft.cards@.index_of_first_ensures(lead);
                            lemma_commit_exclusive(w0, w_moved, lead, from, t);
                            assert forall|s: EntityId|
                                s != t implies !stack_has_card(*world, s, lead) by {
                                assert(world.spec_stack(s) == w_moved.spec_stack(s));
                                assert(!stack_has_card(w_moved, s, lead));
                            }
                            assert(stack_has_card(*world, t, lead)) by {
                                assert(world.spec_stack(t) == w_moved.spec_stack(t));
                            }
                            assert(move_run_post(w0, w_moved, grp[0], from, t) && looks_restored(
                                w_moved,
                                *world,
                                grp,
                            ));
                        }
                        self.lead = None;
                        self.group = Vec::new();
                        self.from_stack = None;
                        Ok(true)
                    },
                    Ok(false) => {
                        self.revert_group(world);
                        self.lead = None;
                        self.group = Vec::new();
                        self.from_stack = None;
                        Ok(false)
                    },
                    Err(_) => {
                        // Missing stack or transform data at the drop site:
                        // the rule does not apply, so the drop is invalid and
                        // the whole group reverts — never a propagated
                        // failure.
                        self.revert_group(world);
                        self.lead = None;
                        self.group = Vec::new();
                        self.from_stack = None;
                        Ok(false)
                    },
                }
            },
            _ => {
                self.revert_group(world);
                self.lead = None;
                self.group = Vec::new();
                self.from_stack = None;
                Ok(false)
            },
        }
    }

    /// Puts every group member back at its recorded origin, fully opaque and
    /// no longer dragging.
    #[verifier::rlimit(100)]
    #[verifier::spinoff_prover]
    fn revert_group(&self, world: &mut World)
        requires
            old(world).wf(),
            old(world).boxes_wf(),
            stacks_wf(*old(world)),
            group_held(*old(world), self.spec_group()),
            self.spec_group().no_duplicates(),
        ensures
            final(world).wf(),
            final(world).boxes_wf(),
            stacks_wf(*final(world)),
            revert_post(*old(world), *final(world), self.spec_group()),
    {
        let ghost w0 = *world;
        let ghost grp = self.spec_group();
        let mut k: usize = 0;
        while k < self.group.len()
            invariant
                world.wf(),
                self.spec_group() === grp,
                k <= grp.len(),
                grp.no_duplicates(),
                group_held(w0, grp),
                w0.boxes_wf(),
                entities_eq(*world, w0),
                cards_eq(*world, w0),
                stacks_eq(*world, w0),
                clickables_eq(*world, w0),
                droppables_eq(*world, w0),
                forall|j: int|
                    0 <= j < k ==> ((w0.spec_draggable(#[trigger] grp[j]) matches Some(d0)
                        && w0.spec_transform(grp[j]) matches Some(t0) && w0.spec_renderable(grp[j])
                        matches Some(r0) && world.spec_transform(grp[j]) == Some(
                        Transform {
                            position: d0.original_position,
                            z_index: d0.original_z_index,
                            ..t0
                        },
                    ) && world.spec_draggable(grp[j]) == Some(
                        Draggable { is_dragging: false, ..d0 },
                    ) && world.spec_renderable(grp[j]) == Some(
                        Renderable { opacity: FULL_OPACITY, ..r0 },
                    ))),
                forall|o: EntityId|
                    !grp.take(k as int).contains(o) ==> #[trigger] world.spec_transform(o)
                        == w0.spec_transform(o),
                forall|o: EntityId|
                    !grp.take(k as int).contains(o) ==> #[trigger] world.spec_draggable(o)
                        == w0.spec_draggable(o),
                forall|o: EntityId|
                    !grp.take(k as int).contains(o) ==> #[trigger] world.spec_renderable(o)
                        == w0.spec_renderable(o),
            decreases grp.len() - k,
        {
            let m = self.group[k];
            proof {
                assert(!grp.take(k as int).contains(m)) by {
                    if grp.take(k as int).contains(m) {
                        let j = choose|j: int| 0 <= j < k && grp.take(k as int)[j] == m;
                        assert(grp[j] == grp[k as int]);
                    }
                }
                assert(w0.spec_draggable(grp[k as int]) is Some);
            }
            let d = match world.get_draggable(m) {
                Some(d) => *d,
                None => {
                    proof {
                        assert(false);
                    }
                    return ;
                },
            };
            let t = match world.get_transform(m) {
                Some(t) => *t,
                None => {
                    proof {
                        assert(false);
                    }
                    return ;
                },
            };
            let rend = match world.get_renderable(m) {
                Some(r) => *r,
                None => {
                    proof {
                        assert(false);
                    }
                    return ;
                },
            };
            let _ = world.add_transform(
                m,
                Transform { position: d.original_position, z_index: d.original_z_index, ..t },
            );
            let _ = world.add_draggable(m, Draggable { is_dragging: false, ..d });
            let _ = world.add_renderable(m, Renderable { opacity: FULL_OPACITY, ..rend });
            proof {
                let prev = grp.take(k as int);
                assert forall|j: int|
                    0 <= j < k + 1 implies ((w0.spec_draggable(#[trigger] grp[j]) matches Some(d0)
                    && w0.spec_transform(grp[j]) matches Some(t0) && w0.spec_renderable(grp[j])
                    matches Some(r0) && world.spec_transform(grp[j]) == Some(
                    Transform { position: d0.original_position, z_index: d0.original_z_index, ..t0 },
                ) && world.spec_draggable(grp[j]) == Some(Draggable { is_dragging: false, ..d0 })
                    && world.spec_renderable(grp[j]) == Some(
                    Renderable { opacity: FULL_OPACITY, ..r0 },
                ))) by {
                    if j < k {
                        assert(grp[j] != m) by {
                            assert(grp.no_duplicates());
                        }
                    }
                }
                assert forall|o: EntityId|
                    !grp.take(k + 1).contains(o) implies #[trigger] world.spec_transform(o)
                    == w0.spec_transform(o) by {
                    assert(o != m) by {
                        assert(grp.take(k + 1)[k as int] == m);
                    }
                    assert(!prev.contains(o)) by {
                        if prev.contains(o) {
                            let j = choose|j: int| 0 <= j < k && prev[j] == o;
                            assert(grp.take(k + 1)[j] == o);
                        }
                    }
                }
                assert forall|o: EntityId|
                    !grp.take(k + 1).contains(o) implies #[trigger] world.spec_draggable(o)
                    == w0.spec_draggable(o) by {
                    assert(o != m) by {
                        assert(grp.take(k + 1)[k as int] == m);
                    }
                    assert(!prev.contains(o)) by {
                        if prev.contains(o) {
                            let j = choose|j: int| 0 <= j < k && prev[j] == o;
                            assert(grp.take(k + 1)[j] == o);
                        }
                    }
                }
                assert forall|o: EntityId|
                    !grp.take(k + 1).contains(o) implies #[trigger] world.spec_renderable(o)
                    == w0.spec_renderable(o) by {
                    assert(o != m) by {
                        assert(grp.take(k + 1)[k as int] == m);
                    }
                    assert(!prev.contains(o)) by {
                        if prev.contains(o) {
                            let j = choose|j: int| 0 <= j < k && prev[j] == o;
                            assert(grp.take(k + 1)[j] == o);
                        }
                    }
                }
            }
            k = k + 1;
        }
        proof {
            assert(grp.take(grp.len() as int) =~= grp);
            assert(revert_post(w0, *world, grp));
            lemma_revert_preserves_board(w0, *world, grp);
        }
    }

    /// After a committed move, turns every group member opaque again and
    /// marks it no longer dragging; transforms and stacks are untouched.
    #[verifier::rlimit(100)]
    #[verifier::spinoff_prover]
    fn restore_group_looks(&self, world: &mut World)
        requires
            old(world).wf(),
            old(world).boxes_wf(),
            stacks_wf(*old(world)),
            self.spec_group().no_duplicates(),
        ensures
            final(world).wf(),
            final(world).boxes_wf(),
            stacks_wf(*final(world)),
            looks_restored(*old(world), *final(world), self.spec_group()),
    {
        let ghost w0 = *world;
        let ghost grp = self.spec_group();
        let mut k: usize = 0;
        while k < self.group.len()
            invariant
                world.wf(),
                self.spec_group() === grp,
                grp.no_duplicates(),
                k <= grp.len(),
                w0.boxes_wf(),
                stacks_wf(w0),
                entities_eq(*world, w0),
                cards_eq(*world, w0),
                stacks_eq(*world, w0),
                transforms_eq(*world, w0),
                clickables_eq(*world, w0),
                droppables_eq(*world, w0),
                forall|j: int|
                    0 <= j < k ==> #[trigger] world.spec_draggable(grp[j]) == (
                    match w0.spec_draggable(grp[j]) {
                        Some(d) => Some(Draggable { is_dragging: false, ..d }),
                        None => None,
                    }),
                forall|j: int|
                    0 <= j < k ==> #[trigger] world.spec_renderable(grp[j]) == (
                    match w0.spec_renderable(grp[j]) {
                        Some(r) => Some(Renderable { opacity: FULL_OPACITY, ..r }),
                        None => None,
                    }),
                forall|o: EntityId|
                    !grp.take(k as int).contains(o) ==> #[trigger] world.spec_draggable(o)
                        == w0.spec_draggable(o),
                forall|o: EntityId|
                    !grp.take(k as int).contains(o) ==> #[trigger] world.spec_renderable(o)
                        == w0.spec_renderable(o),
            decreases grp.len() - k,
        {
            let m = self.group[k];
            proof {
                assert(!grp.take(k as int).contains(m)) by {
                    if grp.take(k as int).contains(m) {
                        let j = choose|j: int| 0 <= j < k && grp.take(k as int)[j] == m;
                        assert(grp[j] == grp[k as int]);
                    }
                }
            }
            match world.get_draggable(m) {
                Some(d) => {
                    let nd = Draggable { is_dragging: false, ..*d };
                    let _ = world.add_draggable(m, nd);
                },
                None => {},
            }
            match world.get_renderable(m) {
                Some(rd) => {
                    let nr = Renderable { opacity: FULL_OPACITY, ..*rd };
                    let _ = world.add_renderable(m, nr);
                },
                None => {},
            }
            proof {
                let prev = grp.take(k as int);
                assert forall|j: int|
                    0 <= j < k + 1 implies #[trigger] world.spec_draggable(grp[j]) == (
                    match w0.spec_draggable(grp[j]) {
                        Some(d) => Some(Draggable { is_dragging: false, ..d }),
                        None => None,
                    }) by {
                    if j < k {
                        assert(grp[j] != m) by {
                            assert(grp.no_duplicates());
                        }
                    }
                }
                assert forall|j: int|
                    0 <= j < k + 1 implies #[trigger] world.spec_renderable(grp[j]) == (
                    match w0.spec_renderable(grp[j]) {
                        Some(r) => Some(Renderable { opacity: FULL_OPACITY, ..r }),
                        None => None,
                    }) by {
                    if j < k {
                        assert(grp[j] != m) by {
                            assert(grp.no_duplicates());
                        }
                    }
                }
                assert forall|o: EntityId|
                    !grp.take(k + 1).contains(o) implies #[trigger] world.spec_draggable(o)
                    == w0.spec_draggable(o) by {
                    assert(o != m) by {
                        assert(grp.take(k + 1)[k as int] == m);
                    }
                    assert(!prev.contains(o)) by {
                        if prev.contains(o) {
                            let j = choose|j: int| 0 <= j < k && prev[j] == o;
                            assert(grp.take(k + 1)[j] == o);
                        }
                    }
                }
                assert forall|o: EntityId|
                    !grp.take(k + 1).contains(o) implies #[trigger] world.spec_renderable(o)
                    == w0.spec_renderable(o) by {
                    assert(o != m) by {
                        assert(grp.take(k + 1)[k as int] == m);
                    }
                    assert(!prev.contains(o)) by {
                        if prev.contains(o) {
                            let j = choose|j: int| 0 <= j < k && prev[j] == o;
                            assert(grp.take(k + 1)[j] == o);
                        }
                    }
                }
            }
            k = k + 1;
        }
        proof {
            assert(grp.take(grp.len() as int) =~= grp);
        }
        proof {
            assert forall|o: EntityId| crate::world::transform_bounded(
                #[trigger] world.spec_transform(o),
            ) by {
                assert(world.spec_transform(o) == w0.spec_transform(o));
                assert(crate::world::transform_bounded(w0.spec_transform(o)));
            }
            assert forall|o: EntityId| crate::world::droppable_bounded(
                #[trigger] world.spec_droppable(o),
            ) by {
                assert(world.spec_droppable(o) == w0.spec_droppable(o));
                assert(crate::world::droppable_bounded(w0.spec_droppable(o)));
            }
            assert forall|sid: EntityId| #[trigger] crate::solitaire::stack_cards_ok(
                *world,
                sid,
            ) by {
                assert(crate::solitaire::stack_cards_ok(w0, sid));
                if world.spec_stack(sid) is Some {
                    let cs = world.spec_stack(sid)->Some_0.cards@;
                    assert(world.spec_stack(sid) == w0.spec_stack(sid));
                    assert forall|i2: int|
                        0 <= i2 < cs.len() implies world.spec_card(#[trigger] cs[i2]) is Some by {
                        assert(w0.spec_card(cs[i2]) is Some);
                        assert(world.spec_card(cs[i2]) == w0.spec_card(cs[i2]));
                    }
                }
            }
            assert forall|s1: EntityId, s2: EntityId, id: EntityId|
                #[trigger] stack_has_card(*world, s1, id) && #[trigger] stack_has_card(
                *world,
                s2,
                id,
            ) implies s1 == s2 by {
                assert(world.spec_stack(s1) == w0.spec_stack(s1));
                assert(world.spec_stack(s2) == w0.spec_stack(s2));
                assert(stack_has_card(w0, s1, id) && stack_has_card(w0, s2, id));
            }
            assert forall|sid: EntityId, id: EntityId| #[trigger]
                stack_has_card(*world, sid, id) implies world.spec_stack(id) is None by {
                assert(world.spec_stack(sid) == w0.spec_stack(sid));
                assert(stack_has_card(w0, sid, id));
                assert(world.spec_stack(id) == w0.spec_stack(id));
            }
            assert forall|sid: EntityId| #[trigger] crate::solitaire::stack_anchor_ok(
                *world,
                sid,
            ) by {
                assert(crate::solitaire::stack_anchor_ok(w0, sid));
                if world.spec_stack(sid) is Some && world.spec_transform(sid) is Some {
                    assert(world.spec_stack(sid) == w0.spec_stack(sid));
                    assert(world.spec_transform(sid) == w0.spec_transform(sid));
                }
            }
        }
    }
}

/// Reverting keeps the board's boxes bounded and its stack invariants
/// intact: the restored origins lie in the coordinate domain, no reverted
/// entity is a stack, and no stack's card list changes.
pub proof fn lemma_revert_preserves_board(w0: World, w1: World, group: Seq<EntityId>)
    requires
        w0.boxes_wf(),
        stacks_wf(w0),
        group_held(w0, group),
        revert_post(w0, w1, group),
    ensures
        w1.boxes_wf(),
        stacks_wf(w1),
{
    assert forall|o: EntityId| crate::world::transform_bounded(
        #[trigger] w1.spec_transform(o),
    ) by {
        if group.contains(o) {
            let j = choose|j: int| 0 <= j < group.len() && group[j] == o;
            assert(w0.spec_draggable(group[j]) is Some);
            assert(crate::world::transform_bounded(w0.spec_transform(group[j])));
            assert(w1.spec_transform(group[j]) is Some);
        } else {
            assert(w1.spec_transform(o) == w0.spec_transform(o));
            assert(crate::world::transform_bounded(w0.spec_transform(o)));
        }
    }
    assert forall|o: EntityId| crate::world::renderable_bounded(
        #[trigger] w1.spec_renderable(o),
    ) by {
        if group.contains(o) {
            let j = choose|j: int| 0 <= j < group.len() && group[j] == o;
            assert(w0.spec_renderable(group[j]) is Some);
            assert(crate::world::renderable_bounded(w0.spec_renderable(group[j])));
        } else {
            assert(w1.spec_renderable(o) == w0.spec_renderable(o));
            assert(crate::world::renderable_bounded(w0.spec_renderable(o)));
        }
    }
    assert forall|o: EntityId| crate::world::droppable_bounded(
        #[trigger] w1.spec_droppable(o),
    ) by {
        assert(w1.spec_droppable(o) == w0.spec_droppable(o));
        assert(crate::world::droppable_bounded(w0.spec_droppable(o)));
    }
    assert forall|sid: EntityId| #[trigger] crate::solitaire::stack_cards_ok(w1, sid) by {
        assert(crate::solitaire::stack_cards_ok(w0, sid));
        if w1.spec_stack(sid) is Some {
            let cs = w1.spec_stack(sid)->Some_0.cards@;
            assert(w1.spec_stack(sid) == w0.spec_stack(sid));
            assert forall|i: int|
                0 <= i < cs.len() implies w1.spec_card(#[trigger] cs[i]) is Some by {
                assert(w0.spec_card(cs[i]) is Some);
                assert(w1.spec_card(cs[i]) == w0.spec_card(cs[i]));
            }
        }
    }
    assert forall|s1: EntityId, s2: EntityId, id: EntityId|
        #[trigger] stack_has_card(w1, s1, id) && #[trigger] stack_has_card(w1, s2, id) implies s1
        == s2 by {
        assert(w1.spec_stack(s1) == w0.spec_stack(s1));
        assert(w1.spec_stack(s2) == w0.spec_stack(s2));
        assert(stack_has_card(w0, s1, id) && stack_has_card(w0, s2, id));
    }
    assert forall|sid: EntityId, id: EntityId| #[trigger]
        stack_has_card(w1, sid, id) implies w1.spec_stack(id) is None by {
        assert(w1.spec_stack(sid) == w0.spec_stack(sid));
        assert(stack_has_card(w0, sid, id));
        assert(w1.spec_stack(id) == w0.spec_stack(id));
    }
    assert forall|sid: EntityId| #[trigger] crate::solitaire::stack_anchor_ok(w1, sid) by {
        assert(crate::solitaire::stack_anchor_ok(w0, sid));
        if w1.spec_stack(sid) is Some && w1.spec_transform(sid) is Some {
            assert(w1.spec_stack(sid) == w0.spec_stack(sid));
            assert(!group.contains(sid)) by {
                if group.contains(sid) {
                    let j = choose|j: int| 0 <= j < group.len() && group[j] == sid;
                    assert(w0.spec_stack(group[j]) is None);
                }
            }
            assert(w1.spec_transform(sid) == w0.spec_transform(sid));
        }
    }
}

} // verus!

verus! {

/// The drop target at the pointer, excluding the dragged group: the drop box
/// containing the point that is drawn in front of every other such box, ties
/// going to the lowest id. `None` exactly when no such box lies under the
/// pointer.
pub fn find_drop_target(world: &World, group: &Vec<EntityId>, x: i64, y: i64) -> (r: Option<
    EntityId,
>)
    requires
        world.wf(),
        world.boxes_wf(),
    ensures
        match r {
            Some(t) => best_drop(*world, x, y, group@, t) && drop_target_exists(
                *world,
                x,
                y,
                group@,
            ) && t == the_drop(*world, x, y, group@),
            None => !drop_target_exists(*world, x, y, group@),
        },
{
    let ghost w0 = *world;
    let ghost grp = group@;
        let droppable_ids = world.get_entities_with_droppable();
        let mut target: Option<EntityId> = None;
        let mut i: usize = 0;
        while i < droppable_ids.len()
            invariant
                world.wf(),
                world.boxes_wf(),
                grp === group@,
                i <= droppable_ids@.len(),
                forall|id: EntityId|
                    droppable_ids@.contains(id) <==> world.spec_droppable(id) is Some,
                forall|a: int, b: int|
                    0 <= a < b < droppable_ids@.len() ==> droppable_ids@[a] < droppable_ids@[b],
                match target {
                    Some(t) => droppable_hit(*world, x, y, t) && !grp.contains(t) && (exists|
                        k: int,
                    |
                        0 <= k < i && droppable_ids@[k] == t) && forall|j: int|
                        0 <= j < i && droppable_hit(*world, x, y, #[trigger] droppable_ids@[j])
                            && !grp.contains(droppable_ids@[j]) ==> (world.z_at(droppable_ids@[j])
                            < world.z_at(t) || (world.z_at(droppable_ids@[j]) == world.z_at(t) && t
                            <= droppable_ids@[j])),
                    None => forall|j: int|
                        0 <= j < i ==> !(droppable_hit(*world, x, y, #[trigger] droppable_ids@[j])
                            && !grp.contains(droppable_ids@[j])),
                },
            decreases droppable_ids@.len() - i,
        {
            let did = droppable_ids[i];
            proof {
                assert(droppable_ids@.contains(did)) by {
                    assert(droppable_ids@[i as int] == did);
                }
            }
            if !crate::entity::contains_id(group, did) {
                let hit = match (world.get_transform(did), world.get_droppable(did)) {
                    (Some(t), Some(d)) => {
                        proof {
                            assert(crate::world::transform_bounded(world.spec_transform(did)));
                            assert(crate::world::droppable_bounded(world.spec_droppable(did)));
                        }
                        t.position.x <= x && x <= t.position.x + d.width && t.position.y <= y && y
                            <= t.position.y + d.height
                    },
                    _ => false,
                };
                if hit {
                    let z = match world.get_transform(did) {
                        Some(t) => t.z_index,
                        None => 0,
                    };
                    let better = match target {
                        Some(cur) => {
                            let cur_z = match world.get_transform(cur) {
                                Some(t) => t.z_index,
                                None => 0,
                            };
                            z > cur_z
                        },
                        None => true,
                    };
                    if better {
                        target = Some(did);
                    } else {
                        proof {
                            // The kept target stands in front of, or level
                            // with but before, this hit: it was found at an
                            // earlier, hence lower, id.
                            let cur = target->Some_0;
                            let k = choose|k: int| 0 <= k < i && droppable_ids@[k] == cur;
                            assert(droppable_ids@[k] < droppable_ids@[i as int]);
                        }
                    }
                }
            }
            i = i + 1;
        }
        proof {
            match target {
                Some(t) => {
                    assert(best_drop(w0, x, y, grp, t)) by {
                        assert forall|o: EntityId|
                            droppable_hit(w0, x, y, o) && !grp.contains(o) implies (w0.z_at(o)
                            < w0.z_at(t) || (w0.z_at(o) == w0.z_at(t) && t <= o)) by {
                            assert(w0.spec_droppable(o) is Some);
                            assert(droppable_ids@.contains(o));
                            let j = choose|j: int|
                                0 <= j < droppable_ids@.len() && droppable_ids@[j] == o;
                            assert(droppable_hit(w0, x, y, droppable_ids@[j]));
                        }
                    }
                    assert(drop_target_exists(w0, x, y, grp));
                    assert(the_drop(w0, x, y, grp) == t) by {
                        let e = the_drop(w0, x, y, grp);
                        assert(best_drop(w0, x, y, grp, e));
                        lemma_best_drop_unique(w0, x, y, grp, e, t);
                    }
                },
                None => {
                    assert(!drop_target_exists(w0, x, y, grp)) by {
                        if drop_target_exists(w0, x, y, grp) {
                            let e = choose|e: EntityId| best_drop(w0, x, y, grp, e);
                            assert(w0.spec_droppable(e) is Some);
                            assert(droppable_ids@.contains(e));
                            let j = choose|j: int|
                                0 <= j < droppable_ids@.len() && droppable_ids@[j] == e;
                            assert(droppable_hit(w0, x, y, droppable_ids@[j]) && !grp.contains(
                                droppable_ids@[j],
                            ));
                        }
                    }
                },
            }
        }

        target
    }

} // verus!

verus! {

/// What re-evaluating the highlights leaves behind while a drag is held:
/// every drop box keeps its sides and kinds, and is lit exactly when it is
/// the accepting target under the pointer; nothing else changes.
pub open spec fn highlight_shift(w0: World, w1: World, d: DragSystem, x: i64, y: i64) -> bool {
    &&& transforms_eq(w1, w0)
    &&& cards_eq(w1, w0)
    &&& stacks_eq(w1, w0)
    &&& draggables_eq(w1, w0)
    &&& renderables_eq(w1, w0)
    &&& clickables_eq(w1, w0)
    &&& entities_eq(w1, w0)
    &&& forall|o: EntityId|
        #[trigger] w0.spec_droppable(o) matches Some(d0) ==> (w1.spec_droppable(o) matches Some(
            d1,
        ) && d1.width == d0.width && d1.height == d0.height && d1.drop_types@ === d0.drop_types@
            && d1.is_active == highlight_on(w0, d, x, y, o))
    &&& forall|o: EntityId|
        w0.spec_droppable(o) is None ==> #[trigger] w1.spec_droppable(o) is None
}

/// The drop box is highlighted: it is the drop target under the pointer and
/// the rules accept the held run on it.
pub open spec fn highlight_on(w: World, d: DragSystem, x: i64, y: i64, o: EntityId) -> bool {
    &&& best_drop(w, x, y, d.spec_group(), o)
    &&& d.spec_from_stack() is Some
    &&& spec_can_move_stack(w, d.spec_group()[0], d.spec_from_stack()->Some_0, o)
}

impl DragSystem {
    /// Re-evaluates drop-target highlighting at the pointer: the drop box
    /// under the pointer is marked active exactly when the rules accept the
    /// held run on it, and every other drop box is marked inactive. An idle
    /// drag leaves the world untouched.
    #[verifier::rlimit(100)]
    #[verifier::spinoff_prover]
    pub fn highlight_drop_target(&self, world: &mut World, x: i64, y: i64)
        requires
            old(world).wf(),
            old(world).boxes_wf(),
            stacks_wf(*old(world)),
            -POINTER_LIMIT <= x <= POINTER_LIMIT,
            -POINTER_LIMIT <= y <= POINTER_LIMIT,
            !self.is_idle() ==> self.spec_group().len() >= 1 && self.spec_lead() == Some(
                self.spec_group()[0],
            ),
        ensures
            final(world).wf(),
            final(world).boxes_wf(),
            stacks_wf(*final(world)),
            final(world).alive_seq() === old(world).alive_seq(),
            final(world).pending_removal() === old(world).pending_removal(),
            self.is_idle() ==> *final(world) == *old(world),
            !self.is_idle() ==> highlight_shift(*old(world), *final(world), *self, x, y),
    {
        let lead = match self.lead {
            Some(l) => l,
            None => {
                return ;
            },
        };
        let ghost w0 = *world;
        let ghost grp = self.spec_group();
        let target = find_drop_target(world, &self.group, x, y);
        let valid = match (target, self.from_stack) {
            (Some(t), Some(from)) => crate::solitaire::can_move_stack_check(world, lead, from, t),
            _ => false,
        };
        let droppable_ids = world.get_entities_with_droppable();
        let mut i: usize = 0;
        while i < droppable_ids.len()
            invariant
                world.wf(),
                grp === self.spec_group(),
                grp.len() >= 1,
                self.spec_lead() == Some(grp[0]),
                lead == grp[0],
                w0 == *old(world),
                w0.boxes_wf(),
                stacks_wf(w0),
                i <= droppable_ids@.len(),
                forall|id: EntityId|
                    droppable_ids@.contains(id) <==> w0.spec_droppable(id) is Some,
                forall|a: int, b: int|
                    0 <= a < b < droppable_ids@.len() ==> droppable_ids@[a] < droppable_ids@[b],
                match target {
                    Some(t) => best_drop(w0, x, y, grp, t) && t == the_drop(w0, x, y, grp)
                        && drop_target_exists(w0, x, y, grp),
                    None => !drop_target_exists(w0, x, y, grp),
                },
                valid == (target is Some && self.spec_from_stack() is Some
                    && spec_can_move_stack(
                    w0,
                    grp[0],
                    self.spec_from_stack()->Some_0,
                    target->Some_0,
                )),
                entities_eq(*world, w0),
                transforms_eq(*world, w0),
                cards_eq(*world, w0),
                stacks_eq(*world, w0),
                draggables_eq(*world, w0),
                renderables_eq(*world, w0),
                clickables_eq(*world, w0),
                forall|j: int|
                    0 <= j < i ==> (w0.spec_droppable(#[trigger] droppable_ids@[j]) matches Some(
                        d0,
                    ) && (world.spec_droppable(droppable_ids@[j]) matches Some(d1) && d1.width
                        == d0.width && d1.height == d0.height && d1.drop_types@ === d0.drop_types@
                        && d1.is_active == highlight_on(w0, *self, x, y, droppable_ids@[j]))),
                forall|o: EntityId|
                    !droppable_ids@.take(i as int).contains(o) ==> #[trigger] world.spec_droppable(
                        o,
                    ) == w0.spec_droppable(o),
            decreases droppable_ids@.len() - i,
        {
            let o = droppable_ids[i];
            proof {
                assert(droppable_ids@.contains(o)) by {
                    assert(droppable_ids@[i as int] == o);
                }
                assert(!droppable_ids@.take(i as int).contains(o)) by {
                    if droppable_ids@.take(i as int).contains(o) {
                        let j = choose|j: int|
                            0 <= j < i && droppable_ids@.take(i as int)[j] == o;
                        assert(droppable_ids@[j] == droppable_ids@[i as int]);
                    }
                }
            }
            let active = valid && match target {
                Some(t) => t == o,
                None => false,
            };
            proof {
                assert(active == highlight_on(w0, *self, x, y, o)) by {
                    if highlight_on(w0, *self, x, y, o) {
                        assert(drop_target_exists(w0, x, y, grp));
                        if target is Some {
                            lemma_best_drop_unique(w0, x, y, grp, target->Some_0, o);
                        }
                    }
                }
            }
            let (dw, dh, dtypes) = match world.get_droppable(o) {
                Some(d) => (d.width, d.height, d.drop_types.clone()),
                None => {
                    proof {
                        assert(false);
                    }
                    return ;
                },
            };
            let _ = world.add_droppable(
                o,
                Droppable { width: dw, height: dh, drop_types: dtypes, is_active: active },
            );
            proof {
                let prev = droppable_ids@.take(i as int);
                assert forall|j: int|
                    0 <= j < i + 1 implies (w0.spec_droppable(
                    #[trigger] droppable_ids@[j],
                ) matches Some(d0) && (world.spec_droppable(droppable_ids@[j]) matches Some(d1)
                    && d1.width == d0.width && d1.height == d0.height && d1.drop_types@
                    === d0.drop_types@ && d1.is_active == highlight_on(
                    w0,
                    *self,
                    x,
                    y,
                    droppable_ids@[j],
                ))) by {
                    if j < i {
                        assert(droppable_ids@[j] != o);
                    }
                }
                assert forall|q: EntityId|
                    !droppable_ids@.take(i + 1).contains(q) implies #[trigger] world.spec_droppable(
                    q,
                ) == w0.spec_droppable(q) by {
                    assert(q != o) by {
                        assert(droppable_ids@.take(i + 1)[i as int] == o);
                    }
                    assert(!prev.contains(q)) by {
                        if prev.contains(q) {
                            let j = choose|j: int| 0 <= j < i && prev[j] == q;
                            assert(droppable_ids@.take(i + 1)[j] == q);
                        }
                    }
                }
            }
            i = i + 1;
        }
        proof {
            assert(droppable_ids@.take(droppable_ids@.len() as int) =~= droppable_ids@);
            assert forall|o: EntityId|
                w0.spec_droppable(o) is Some implies (world.spec_droppable(o) is Some && {
                let d0 = w0.spec_droppable(o)->Some_0;
                let d1 = world.spec_droppable(o)->Some_0;
                d1.width == d0.width && d1.height == d0.height && d1.drop_types@ === d0.drop_types@
                    && d1.is_active == highlight_on(w0, *self, x, y, o)
            }) by {
                assert(droppable_ids@.contains(o));
                let j = choose|j: int| 0 <= j < droppable_ids@.len() && droppable_ids@[j] == o;
                assert(w0.spec_droppable(droppable_ids@[j]) is Some);
            }
            assert forall|o: EntityId|
                w0.spec_droppable(o) is None implies #[trigger] world.spec_droppable(
                o,
            ) is None by {
                assert(!droppable_ids@.contains(o));
                assert(world.spec_droppable(o) == w0.spec_droppable(o)) by {
                    if droppable_ids@.take(droppable_ids@.len() as int).contains(o) {
                        assert(droppable_ids@.contains(o));
                    }
                }
            }
            // Boxes and stack invariants: only drop-box highlighting changed,
            // with the box sides kept.
            assert forall|o: EntityId| crate::world::droppable_bounded(
                #[trigger] world.spec_droppable(o),
            ) by {
                assert(crate::world::droppable_bounded(w0.spec_droppable(o)));
                if w0.spec_droppable(o) is Some {
                    assert(droppable_ids@.contains(o));
                }
            }
            assert forall|o: EntityId| crate::world::transform_bounded(
                #[trigger] world.spec_transform(o),
            ) by {
                assert(world.spec_transform(o) == w0.spec_transform(o));
                assert(crate::world::transform_bounded(w0.spec_transform(o)));
            }
            assert forall|o: EntityId| crate::world::renderable_bounded(
                #[trigger] world.spec_renderable(o),
            ) by {
                assert(world.spec_renderable(o) == w0.spec_renderable(o));
                assert(crate::world::renderable_bounded(w0.spec_renderable(o)));
            }
            assert forall|sid: EntityId| #[trigger] crate::solitaire::stack_cards_ok(
                *world,
                sid,
            ) by {
                assert(crate::solitaire::stack_cards_ok(w0, sid));
                if world.spec_stack(sid) is Some {
                    let cs = world.spec_stack(sid)->Some_0.cards@;
                    assert(world.spec_stack(sid) == w0.spec_stack(sid));
                    assert forall|q: int|
                        0 <= q < cs.len() implies world.spec_card(#[trigger] cs[q]) is Some by {
                        assert(w0.spec_card(cs[q]) is Some);
                        assert(world.spec_card(cs[q]) == w0.spec_card(cs[q]));
                    }
                }
            }
            assert forall|s1: EntityId, s2: EntityId, id: EntityId|
                #[trigger] stack_has_card(*world, s1, id) && #[trigger] stack_has_card(
                *world,
                s2,
                id,
            ) implies s1 == s2 by {
                assert(world.spec_stack(s1) == w0.spec_stack(s1));
                assert(world.spec_stack(s2) == w0.spec_stack(s2));
                assert(stack_has_card(w0, s1, id) && stack_has_card(w0, s2, id));
            }
            assert forall|sid: EntityId, id: EntityId| #[trigger]
                stack_has_card(*world, sid, id) implies world.spec_stack(id) is None by {
                assert(world.spec_stack(sid) == w0.spec_stack(sid));
                assert(stack_has_card(w0, sid, id));
                assert(world.spec_stack(id) == w0.spec_stack(id));
            }
            assert forall|sid: EntityId| #[trigger] crate::solitaire::stack_anchor_ok(
                *world,
                sid,
            ) by {
                assert(crate::solitaire::stack_anchor_ok(w0, sid));
                if world.spec_stack(sid) is Some && world.spec_transform(sid) is Some {
                    assert(world.spec_stack(sid) == w0.spec_stack(sid));
                    assert(world.spec_transform(sid) == w0.spec_transform(sid));
                }
            }
        }
    }
}

} // verus!
