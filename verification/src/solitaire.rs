//! The solitaire rule engine: stack well-formedness, placement legality,
//! card movement, stock/waste drawing and recycling, win detection and the
//! greedy auto-complete pass.

use vstd::prelude::*;

use crate::card::{flip_card, foundation_accepts, set_card_position, tableau_accepts};
use crate::component::{CardInfo, StackContainer, StackType, Transform};
use crate::constants::STACK_OFFSET_Y;
use crate::utils::Vec2;
use crate::world::{
    cards_eq, clickables_eq, draggables_eq, droppables_eq, entities_eq, renderables_eq, stacks_eq,
    transforms_eq, World,
};
use crate::{EcsError, EntityId, ANCHOR_LIMIT, MAX_ENTITIES};

verus! {

/// Whether the entity is a stack whose card list holds `id`.
pub open spec fn stack_has_card(w: World, sid: EntityId, id: EntityId) -> bool {
    w.spec_stack(sid) matches Some(st) && st.cards@.contains(id)
}

/// The card list of one stack is sound: no duplicates, and every listed
/// entity is an alive card.
pub open spec fn stack_cards_ok(w: World, sid: EntityId) -> bool {
    match w.spec_stack(sid) {
        Some(st) => st.cards@.no_duplicates() && forall|i: int|
            0 <= i < st.cards@.len() ==> w.spec_card(#[trigger] st.cards@[i]) is Some,
        None => true,
    }
}

/// A stack's anchor (its own transform) stays within the anchor domain, so
/// the per-card offsets a stack adds cannot leave the coordinate domain.
pub open spec fn stack_anchor_ok(w: World, sid: EntityId) -> bool {
    w.spec_stack(sid) is Some ==> match w.spec_transform(sid) {
        Some(t) => -ANCHOR_LIMIT <= t.position.x <= ANCHOR_LIMIT && -ANCHOR_LIMIT <= t.position.y
            <= ANCHOR_LIMIT,
        None => true,
    }
}

/// The board-wide stack invariants: every stack's card list is sound, every
/// card sits in at most one stack, and every stack's anchor is in the anchor
/// domain.
pub open spec fn stacks_wf(w: World) -> bool {
    &&& forall|sid: EntityId| #[trigger] stack_cards_ok(w, sid)
    &&& forall|s1: EntityId, s2: EntityId, id: EntityId|
        #[trigger] stack_has_card(w, s1, id) && #[trigger] stack_has_card(w, s2, id) ==> s1 == s2
    &&& forall|sid: EntityId, id: EntityId| #[trigger]
        stack_has_card(w, sid, id) ==> w.spec_stack(id) is None
    &&& forall|sid: EntityId| #[trigger] stack_anchor_ok(w, sid)
}

/// No stack can list more cards than there are entities.
pub proof fn lemma_stack_len_bounded(w: World, sid: EntityId)
    requires
        w.wf(),
        stacks_wf(w),
        w.spec_stack(sid) is Some,
    ensures
        w.spec_stack(sid)->Some_0.cards@.len() <= MAX_ENTITIES,
{
    let cards = w.spec_stack(sid)->Some_0.cards@;
    let alive = w.alive_seq();
    assert(stack_cards_ok(w, sid));
    w.lemma_wf_alive_distinct();
    cards.unique_seq_to_set();
    alive.unique_seq_to_set();
    assert forall|x: EntityId| cards.to_set().contains(x) implies alive.to_set().contains(x) by {
        let i = choose|i: int| 0 <= i < cards.len() && cards[i] == x;
        assert(w.spec_card(cards[i]) is Some);
    }
    vstd::set_lib::lemma_len_subset(cards.to_set(), alive.to_set());
}

/// Removing one index keeps membership, keeps distinctness, and under
/// distinctness takes the removed value out entirely.
pub proof fn lemma_remove_keeps(s: Seq<EntityId>, i: int)
    requires
        0 <= i < s.len(),
    ensures
        forall|x: EntityId| #[trigger] s.remove(i).contains(x) ==> s.contains(x),
        s.no_duplicates() ==> s.remove(i).no_duplicates(),
        s.no_duplicates() ==> !s.remove(i).contains(s[i]),
        forall|x: EntityId| s.contains(x) && x != s[i] ==> #[trigger] s.remove(i).contains(x),
{
    s.remove_ensures(i);
    let r = s.remove(i);
    assert forall|x: EntityId| #[trigger] r.contains(x) implies s.contains(x) by {
        let j = choose|j: int| 0 <= j < r.len() && r[j] == x;
        if j < i {
            assert(s[j] == x);
        } else {
            assert(s[j + 1] == x);
        }
    }
    if s.no_duplicates() {
        assert forall|a: int, b: int| 0 <= a < b < r.len() implies r[a] != r[b] by {
            let sa: int = if a < i {
                a
            } else {
                a + 1
            };
            let sb: int = if b < i {
                b
            } else {
                b + 1
            };
            assert(r[a] == s[sa] && r[b] == s[sb] && sa < sb);
        }
        if r.contains(s[i]) {
            let j = choose|j: int| 0 <= j < r.len() && r[j] == s[i];
            if j < i {
                assert(s[j] == s[i]);
            } else {
                assert(s[j + 1] == s[i]);
            }
        }
    }
    assert forall|x: EntityId| s.contains(x) && x != s[i] implies #[trigger] r.contains(x) by {
        let j = choose|j: int| 0 <= j < s.len() && s[j] == x;
        if j < i {
            assert(r[j] == x);
        } else {
            assert(r[j - 1] == x);
        }
    }
}

/// `remove_value` on a distinct sequence that holds the value: membership
/// facts and length.
pub proof fn lemma_remove_value_distinct(s: Seq<EntityId>, x: EntityId)
    requires
        s.no_duplicates(),
        s.contains(x),
    ensures
        s.remove_value(x).len() == s.len() - 1,
        !s.remove_value(x).contains(x),
        s.remove_value(x).no_duplicates(),
        forall|o: EntityId| #[trigger] s.remove_value(x).contains(o) ==> s.contains(o),
        forall|o: EntityId| s.contains(o) && o != x ==> #[trigger] s.remove_value(x).contains(o),
{
    s.index_of_first_ensures(x);
    let i = s.index_of_first(x)->Some_0;
    lemma_remove_keeps(s, i);
    s.remove_ensures(i);
}

/// Whether the card may move onto the foundation: the card is face up, the
/// target is a foundation stack, and the foundation rule accepts the card on
/// the current top (the top card's identity, or `None` for an empty
/// foundation).
pub open spec fn spec_can_move_to_foundation(
    w: World,
    card_id: EntityId,
    foundation_id: EntityId,
) -> bool {
    &&& w.spec_card(card_id) matches Some(c)
    &&& c.face_up
    &&& w.spec_stack(foundation_id) matches Some(st)
    &&& st.stack_type matches StackType::Foundation { suit }
    &&& if st.cards@.len() == 0 {
        foundation_accepts(c, suit, None)
    } else {
        w.spec_card(st.cards@.last()) matches Some(top) && foundation_accepts(c, suit, Some(top))
    }
}

/// Whether the card may move onto the tableau column: the card is face up,
/// the target is a tableau stack, and the tableau rule accepts the card on
/// the current top.
pub open spec fn spec_can_move_to_tableau(w: World, card_id: EntityId, tableau_id: EntityId) -> bool {
    &&& w.spec_card(card_id) matches Some(c)
    &&& c.face_up
    &&& w.spec_stack(tableau_id) matches Some(st)
    &&& st.stack_type matches StackType::Tableau { .. }
    &&& if st.cards@.len() == 0 {
        tableau_accepts(c, None)
    } else {
        w.spec_card(st.cards@.last()) matches Some(top) && tableau_accepts(c, Some(top))
    }
}

/// Whether the card may move onto the foundation, by the foundation rule.
pub fn can_move_to_foundation(world: &World, card_id: EntityId, foundation_id: EntityId) -> (r:
    bool)
    ensures
        r == spec_can_move_to_foundation(*world, card_id, foundation_id),
{
    let card = match world.get_card_info(card_id) {
        Some(c) => *c,
        None => {
            return false;
        },
    };
    if !card.face_up {
        return false;
    }
    let foundation = match world.get_stack(foundation_id) {
        Some(st) => st,
        None => {
            return false;
        },
    };
    let suit: usize = match foundation.stack_type {
        StackType::Foundation { suit } => suit,
        _ => {
            return false;
        },
    };
    match foundation.top_card() {
        None => card.rank == 0 && card.suit as usize == suit,
        Some(top_id) => {
            let top = match world.get_card_info(top_id) {
                Some(t) => *t,
                None => {
                    return false;
                },
            };
            card.suit as usize == suit && card.rank as u64 == top.rank as u64 + 1
        },
    }
}

/// Whether the card may move onto the tableau column, by the tableau rule.
pub fn can_move_to_tableau(world: &World, card_id: EntityId, tableau_id: EntityId) -> (r: bool)
    ensures
        r == spec_can_move_to_tableau(*world, card_id, tableau_id),
{
    let card = match world.get_card_info(card_id) {
        Some(c) => *c,
        None => {
            return false;
        },
    };
    if !card.face_up {
        return false;
    }
    let tableau = match world.get_stack(tableau_id) {
        Some(st) => st,
        None => {
            return false;
        },
    };
    match tableau.stack_type {
        StackType::Tableau { .. } => {},
        _ => {
            return false;
        },
    }
    match tableau.top_card() {
        None => card.rank == 12,
        Some(top_id) => {
            let top = match world.get_card_info(top_id) {
                Some(t) => *t,
                None => {
                    return false;
                },
            };
            card.color != top.color && card.rank as u64 + 1 == top.rank as u64
        },
    }
}

/// One foundation is complete: it holds 13 cards and its top card is a king.
/// A listed entity that is a non-foundation stack is passed over; a listed
/// entity with no stack fails the check.
pub open spec fn spec_foundation_complete(w: World, fid: EntityId) -> bool {
    match w.spec_stack(fid) {
        Some(st) => st.stack_type matches StackType::Foundation { .. } ==> {
            &&& st.cards@.len() == 13
            &&& w.spec_card(st.cards@.last()) matches Some(top)
            &&& top.rank == 12
        },
        None => false,
    }
}

/// The win predicate over a list of foundation entities.
pub open spec fn spec_game_clear(w: World, foundation_ids: Seq<EntityId>) -> bool {
    forall|i: int|
        0 <= i < foundation_ids.len() ==> spec_foundation_complete(w, #[trigger] foundation_ids[i])
}

/// The win predicate: true exactly when every listed foundation holds 13
/// cards topped by a king.
pub fn check_game_clear(world: &World, foundation_ids: &Vec<EntityId>) -> (r: bool)
    ensures
        r == spec_game_clear(*world, foundation_ids@),
{
    let mut i: usize = 0;
    while i < foundation_ids.len()
        invariant
            i <= foundation_ids@.len(),
            forall|j: int|
                0 <= j < i ==> spec_foundation_complete(*world, #[trigger] foundation_ids@[j]),
        decreases foundation_ids@.len() - i,
    {
        let fid = foundation_ids[i];
        let foundation = match world.get_stack(fid) {
            Some(st) => st,
            None => {
                return false;
            },
        };
        let is_foundation = match foundation.stack_type {
            StackType::Foundation { .. } => true,
            _ => false,
        };
        if is_foundation {
            if foundation.card_count() != 13 {
                return false;
            }
            match foundation.top_card() {
                Some(top_id) => {
                    match world.get_card_info(top_id) {
                        Some(info) => {
                            if info.rank != 12 {
                                return false;
                            }
                        },
                        None => {
                            return false;
                        },
                    }
                },
                None => {
                    return false;
                },
            }
        }
        i = i + 1;
    }
    true
}

/// The entity is no face-down card: either it carries no card identity or
/// the card lies face up.
pub open spec fn card_face_up_or_absent(w: World, id: EntityId) -> bool {
    match w.spec_card(id) {
        Some(c) => c.face_up,
        None => true,
    }
}

/// A deal is trivially winnable once every card lies face up.
pub fn is_winnable(world: &World) -> (r: bool)
    requires
        world.wf(),
    ensures
        r == forall|id: EntityId| #[trigger] card_face_up_or_absent(*world, id),
{
    let card_ids = world.get_entities_with_card_info();
    let mut i: usize = 0;
    while i < card_ids.len()
        invariant
            world.wf(),
            i <= card_ids@.len(),
            forall|id: EntityId| card_ids@.contains(id) <==> world.spec_card(id) is Some,
            forall|j: int|
                0 <= j < i ==> (world.spec_card(#[trigger] card_ids@[j]) matches Some(c)
                    && c.face_up),
        decreases card_ids@.len() - i,
    {
        let id = card_ids[i];
        match world.get_card_info(id) {
            Some(c) => {
                if !c.face_up {
                    proof {
                        assert(!card_face_up_or_absent(*world, id));
                    }
                    return false;
                }
            },
            None => {
                proof {
                    assert(card_ids@.contains(id)) by {
                        assert(card_ids@[i as int] == id);
                    }
                }
                return false;
            },
        }
        i = i + 1;
    }
    proof {
        assert forall|id: EntityId| #[trigger] card_face_up_or_absent(*world, id) by {
            if world.spec_card(id) is Some {
                assert(card_ids@.contains(id));
                let j = choose|j: int| 0 <= j < card_ids@.len() && card_ids@[j] == id;
                assert(world.spec_card(card_ids@[j]) matches Some(c2) && c2.face_up);
            }
        }
    }
    true
}

/// What a single-card move leaves behind: the card is taken out of the
/// source stack's list and appended to the destination's; the card's
/// transform is recomputed from the destination's anchor (a tableau offsets
/// it vertically by the fixed step times the destination's entry count, the
/// other kinds stack flush) with the entry count as its new draw order; and
/// if the source is a tableau whose remaining top lies face down, that top
/// turns face up (and becomes draggable). Everything else is untouched.
pub open spec fn move_single_post(
    w0: World,
    w1: World,
    card_id: EntityId,
    from_id: EntityId,
    to_id: EntityId,
) -> bool {
    let ft = w0.spec_stack(from_id)->Some_0;
    let tt = w0.spec_stack(to_id)->Some_0;
    let anchor = w0.spec_transform(to_id)->Some_0.position;
    let base = if from_id == to_id {
        ft.cards@.remove_value(card_id)
    } else {
        tt.cards@
    };
    let idx = tt.cards@.len() as int;
    let y_off: int = if tt.stack_type matches StackType::Tableau { .. } {
        STACK_OFFSET_Y * idx
    } else {
        0
    };
    let f_rest = ft.cards@.remove_value(card_id);
    let reveal_id: Option<EntityId> = if from_id != to_id && (ft.stack_type matches
        StackType::Tableau { .. }) && f_rest.len() > 0 {
        Some(f_rest.last())
    } else {
        None
    };
    &&& entities_eq(w1, w0)
    &&& w1.spec_stack(from_id) is Some
    &&& (from_id != to_id ==> {
        let f1 = w1.spec_stack(from_id)->Some_0;
        f1.stack_type == ft.stack_type && f1.max_cards == ft.max_cards && f1.cards@ === f_rest
    })
    &&& w1.spec_stack(to_id) matches Some(t1) && t1.stack_type == tt.stack_type && t1.max_cards
        == tt.max_cards && t1.cards@ === base.push(card_id)
    &&& forall|o: EntityId|
        o != from_id && o != to_id ==> #[trigger] w1.spec_stack(o) == w0.spec_stack(o)
    &&& w1.spec_transform(card_id) matches Some(t) && {
        let t0 = w0.spec_transform(card_id)->Some_0;
        &&& t.position.x == anchor.x
        &&& t.position.y == anchor.y + y_off
        &&& t.z_index == idx
        &&& t.scale == t0.scale
        &&& t.rotation == t0.rotation
    }
    &&& forall|o: EntityId|
        o != card_id ==> #[trigger] w1.spec_transform(o) == w0.spec_transform(o)
    &&& match reveal_id {
        Some(nt) => {
            let c0 = w0.spec_card(nt)->Some_0;
            &&& w0.spec_card(nt) is Some
            &&& w1.spec_card(nt) == Some(CardInfo { face_up: true, ..c0 })
            &&& (forall|o: EntityId| o != nt ==> #[trigger] w1.spec_card(o) == w0.spec_card(o))
            &&& w1.spec_draggable(nt) == if !c0.face_up && w0.spec_draggable(nt) is None {
                Some(crate::component::Draggable::default_spec())
            } else {
                w0.spec_draggable(nt)
            }
            &&& (forall|o: EntityId|
                o != nt ==> #[trigger] w1.spec_draggable(o) == w0.spec_draggable(o))
        },
        None => cards_eq(w1, w0) && draggables_eq(w1, w0),
    }
    &&& renderables_eq(w1, w0)
    &&& clickables_eq(w1, w0)
    &&& droppables_eq(w1, w0)
}

/// Moves one card from one stack to another, whatever the rules say: the
/// rule predicates guard the call sites, not the move itself. Returns
/// `Ok(false)` and changes nothing when the card is not in the source stack.
/// Fails when the source or destination has no stack, or the destination or
/// the card has no transform, and then changes nothing.
pub fn move_card(
    world: &mut World,
    card_id: EntityId,
    from_stack_id: EntityId,
    to_stack_id: EntityId,
) -> (r: Result<bool, EcsError>)
    requires
        old(world).wf(),
        stacks_wf(*old(world)),
    ensures
        final(world).wf(),
        r is Err <==> (old(world).spec_stack(from_stack_id) is None || (stack_has_card(
            *old(world),
            from_stack_id,
            card_id,
        ) && (old(world).spec_transform(to_stack_id) is None || old(world).spec_stack(to_stack_id)
            is None || old(world).spec_transform(card_id) is None))),
        r is Err ==> *final(world) == *old(world),
        r == Ok::<bool, EcsError>(false) <==> (old(world).spec_stack(from_stack_id) matches Some(f)
            && !f.cards@.contains(card_id)),
        r == Ok::<bool, EcsError>(false) ==> *final(world) == *old(world),
        r == Ok::<bool, EcsError>(true) ==> move_single_post(
            *old(world),
            *final(world),
            card_id,
            from_stack_id,
            to_stack_id,
        ),
        r == Ok::<bool, EcsError>(true) ==> stacks_wf(*final(world)),
        old(world).boxes_wf() ==> final(world).boxes_wf(),
{
    let contains = match world.get_stack(from_stack_id) {
        Some(st) => st.contains_card(card_id),
        None => {
            return Err(EcsError::MissingStack);
        },
    };
    if !contains {
        return Ok(false);
    }
    let (to_x, to_y, to_count, to_is_tableau) = {
        let t = match world.get_transform(to_stack_id) {
            Some(t) => *t,
            None => {
                return Err(EcsError::MissingTransform);
            },
        };
        let st = match world.get_stack(to_stack_id) {
            Some(s) => s,
            None => {
                return Err(EcsError::MissingStack);
            },
        };
        let is_tab = matches!(st.stack_type, StackType::Tableau { .. });
        (t.position.x, t.position.y, st.card_count(), is_tab)
    };
    if !world.has_transform(card_id) {
        return Err(EcsError::MissingTransform);
    }
    proof {
        lemma_stack_len_bounded(*world, to_stack_id);
        assert(stack_anchor_ok(*world, to_stack_id));
        assert(stack_cards_ok(*world, from_stack_id));
        assert(stack_cards_ok(*world, to_stack_id));
    }
    let ghost w0 = *world;

    // Take the card out of the source stack.
    let mut from_stack = match world.get_stack(from_stack_id) {
        Some(s) => s.duplicate(),
        None => {
            return Err(EcsError::MissingStack);
        },
    };
    from_stack.remove_card(card_id);
    let _ = world.add_stack(from_stack_id, from_stack);

    // Recompute the card's transform from the destination anchor.
    let y_off: i64 = if to_is_tableau {
        STACK_OFFSET_Y * (to_count as i64)
    } else {
        0
    };
    let _ = set_card_position(world, card_id, to_x, to_y + y_off, to_count as i64);

    // Append the card to the destination stack.
    let mut to_stack = match world.get_stack(to_stack_id) {
        Some(s) => s.duplicate(),
        None => {
            return Err(EcsError::MissingStack);
        },
    };
    to_stack.add_card(card_id);
    let _ = world.add_stack(to_stack_id, to_stack);

    // Turn the new top of a tableau source face up.
    if from_stack_id != to_stack_id {
        let mut new_top: Option<EntityId> = None;
        match world.get_stack(from_stack_id) {
            Some(st) => {
                if matches!(st.stack_type, StackType::Tableau { .. }) {
                    new_top = st.top_card();
                }
            },
            None => {},
        }
        match new_top {
            Some(top_id) => {
                let face_down = match world.get_card_info(top_id) {
                    Some(c) => !c.face_up,
                    None => false,
                };
                if face_down {
                    let _ = flip_card(world, top_id);
                }
            },
            None => {},
        }
    }
    proof {
        let ft = w0.spec_stack(from_stack_id)->Some_0;
        assert(stack_cards_ok(w0, from_stack_id));
        lemma_remove_value_distinct(ft.cards@, card_id);
        let f_rest = ft.cards@.remove_value(card_id);
        if from_stack_id != to_stack_id && (ft.stack_type matches StackType::Tableau { .. })
            && f_rest.len() > 0 {
            let nt = f_rest.last();
            assert(f_rest.contains(nt));
            assert(ft.cards@.contains(nt));
            let k = choose|k: int| 0 <= k < ft.cards@.len() && ft.cards@[k] == nt;
            assert(w0.spec_card(ft.cards@[k]) is Some);
        }
        assert(move_single_post(w0, *world, card_id, from_stack_id, to_stack_id));
        lemma_move_preserves_stacks_wf(w0, *world, card_id, from_stack_id, to_stack_id);
    }
    Ok(true)
}

/// A completed single-card move keeps the board-wide stack invariants.
pub proof fn lemma_move_preserves_stacks_wf(
    w0: World,
    w1: World,
    card_id: EntityId,
    from_id: EntityId,
    to_id: EntityId,
)
    requires
        stacks_wf(w0),
        w0.spec_stack(from_id) is Some,
        w0.spec_stack(to_id) is Some,
        stack_has_card(w0, from_id, card_id),
        move_single_post(w0, w1, card_id, from_id, to_id),
    ensures
        stacks_wf(w1),
{
    let ft = w0.spec_stack(from_id)->Some_0;
    let tt = w0.spec_stack(to_id)->Some_0;
    assert(stack_cards_ok(w0, from_id));
    assert(stack_cards_ok(w0, to_id));
    lemma_remove_value_distinct(ft.cards@, card_id);

    // Membership in a final stack traces back to the initial stacks.
    assert forall|sid: EntityId, id: EntityId|
        #[trigger] stack_has_card(w1, sid, id) implies stack_has_card(w0, sid, id) || (sid == to_id
        && id == card_id) by {
        if sid == from_id && from_id != to_id {
            assert(ft.cards@.contains(id));
        } else if sid == to_id {
            let t1 = w1.spec_stack(to_id)->Some_0;
            let base = if from_id == to_id {
                ft.cards@.remove_value(card_id)
            } else {
                tt.cards@
            };
            if id != card_id {
                let j = choose|j: int| 0 <= j < t1.cards@.len() && t1.cards@[j] == id;
                assert(base.contains(id)) by {
                    if j < base.len() {
                        assert(t1.cards@[j] == base[j]);
                    } else {
                        assert(t1.cards@[j] == card_id);
                    }
                }
                if from_id == to_id {
                    assert(ft.cards@.contains(id));
                }
            }
        }
    }
    // Each final stack's card list is sound.
    assert forall|sid: EntityId| #[trigger] stack_cards_ok(w1, sid) by {
        assert(stack_cards_ok(w0, sid));
        if w1.spec_stack(sid) is Some {
            let st1 = w1.spec_stack(sid)->Some_0;
            if sid == to_id {
                let t1 = w1.spec_stack(to_id)->Some_0;
                let base = if from_id == to_id {
                    ft.cards@.remove_value(card_id)
                } else {
                    tt.cards@
                };
                assert(!base.contains(card_id)) by {
                    if from_id != to_id && base.contains(card_id) {
                        assert(stack_has_card(w0, to_id, card_id));
                        assert(stack_has_card(w0, from_id, card_id));
                    }
                }
                assert(t1.cards@ =~= base.push(card_id));
                assert(t1.cards@.no_duplicates()) by {
                    assert forall|a: int, b: int|
                        0 <= a < b < t1.cards@.len() implies t1.cards@[a] != t1.cards@[b] by {
                        if b == t1.cards@.len() - 1 {
                            assert(base.contains(base[a]));
                        }
                    }
                }
                assert forall|i: int|
                    0 <= i < t1.cards@.len() implies w1.spec_card(#[trigger] t1.cards@[i]) is Some by {
                    let id = t1.cards@[i];
                    if i < base.len() {
                        assert(base.contains(id));
                        if from_id == to_id {
                            assert(ft.cards@.contains(id));
                        }
                        let k = choose|k: int|
                            0 <= k < w0.spec_stack(sid)->Some_0.cards@.len() && w0.spec_stack(
                                sid,
                            )->Some_0.cards@[k] == id;
                        assert(w0.spec_card(id) is Some);
                        assert(w1.spec_card(id) is Some) by {
                            lemma_cards_some_preserved(w0, w1, card_id, from_id, to_id, id);
                        }
                    } else {
                        assert(id == card_id);
                        assert(w0.spec_card(card_id) is Some) by {
                            let k = choose|k: int|
                                0 <= k < ft.cards@.len() && ft.cards@[k] == card_id;
                        }
                        lemma_cards_some_preserved(w0, w1, card_id, from_id, to_id, card_id);
                    }
                }
            } else if sid == from_id {
                let f1 = w1.spec_stack(from_id)->Some_0;
                assert(f1.cards@ === ft.cards@.remove_value(card_id));
                assert forall|i: int|
                    0 <= i < f1.cards@.len() implies w1.spec_card(#[trigger] f1.cards@[i]) is Some by {
                    let id = f1.cards@[i];
                    assert(f1.cards@.contains(id));
                    assert(ft.cards@.contains(id));
                    let k = choose|k: int| 0 <= k < ft.cards@.len() && ft.cards@[k] == id;
                    lemma_cards_some_preserved(w0, w1, card_id, from_id, to_id, id);
                }
            } else {
                let st0 = w0.spec_stack(sid)->Some_0;
                assert forall|i: int|
                    0 <= i < st1.cards@.len() implies w1.spec_card(#[trigger] st1.cards@[i]) is Some by {
                    let id = st1.cards@[i];
                    assert(w0.spec_card(id) is Some);
                    lemma_cards_some_preserved(w0, w1, card_id, from_id, to_id, id);
                }
            }
        }
    }
    // Exclusive membership.
    assert forall|s1: EntityId, s2: EntityId, id: EntityId|
        #[trigger] stack_has_card(w1, s1, id) && #[trigger] stack_has_card(w1, s2, id) implies s1
        == s2 by {
        if id == card_id {
            assert forall|s: EntityId| stack_has_card(w1, s, card_id) implies s == to_id by {
                if s != to_id {
                    assert(stack_has_card(w0, s, card_id));
                    assert(stack_has_card(w0, from_id, card_id));
                    assert(s == from_id);
                    if from_id != to_id {
                        let f1 = w1.spec_stack(from_id)->Some_0;
                        assert(!f1.cards@.contains(card_id));
                    }
                }
            }
        } else {
            assert(stack_has_card(w0, s1, id));
            assert(stack_has_card(w0, s2, id));
        }
    }
    // A listed card is never itself a stack.
    assert forall|sid: EntityId, id: EntityId| #[trigger]
        stack_has_card(w1, sid, id) implies w1.spec_stack(id) is None by {
        assert(stack_has_card(w0, from_id, card_id));
        assert(stack_has_card(w0, sid, id) || (sid == to_id && id == card_id));
        assert(w0.spec_stack(id) is None);
        assert(id != from_id && id != to_id);
        assert(w1.spec_stack(id) == w0.spec_stack(id));
    }
    // Anchors: only the moved card's transform changed, and the moved card is
    // no stack, so every stack keeps its anchor.
    assert forall|sid: EntityId| #[trigger] stack_anchor_ok(w1, sid) by {
        assert(stack_anchor_ok(w0, sid));
        if w1.spec_stack(sid) is Some && w1.spec_transform(sid) is Some {
            assert(sid != card_id) by {
                if sid == card_id {
                    assert(stack_has_card(w0, from_id, card_id));
                    assert(w0.spec_stack(card_id) is None);
                    assert(card_id != from_id && card_id != to_id);
                    assert(w1.spec_stack(card_id) == w0.spec_stack(card_id));
                }
            }
            assert(w1.spec_transform(sid) == w0.spec_transform(sid));
            assert(w1.spec_stack(sid) is Some ==> w0.spec_stack(sid) is Some) by {
                if sid != from_id && sid != to_id {
                    assert(w1.spec_stack(sid) == w0.spec_stack(sid));
                }
            }
        }
    }
}

/// A single-card move never takes a card identity away.
proof fn lemma_cards_some_preserved(
    w0: World,
    w1: World,
    card_id: EntityId,
    from_id: EntityId,
    to_id: EntityId,
    id: EntityId,
)
    requires
        move_single_post(w0, w1, card_id, from_id, to_id),
        w0.spec_card(id) is Some,
    ensures
        w1.spec_card(id) is Some,
{
}

/// Every card listed by the stack carries a transform.
pub open spec fn stack_cards_have_transforms(w: World, sid: EntityId) -> bool {
    forall|i: int|
        0 <= i < w.spec_stack(sid)->Some_0.cards@.len() ==> w.spec_transform(
            #[trigger] w.spec_stack(sid)->Some_0.cards@[i],
        ) is Some
}

/// When recycling the waste into the stock fails: the waste has no stack, or
/// it is non-empty while the stock lacks a stack or transform or some waste
/// card lacks a transform.
pub open spec fn recycle_error(w: World, stock_id: EntityId, waste_id: EntityId) -> bool {
    ||| w.spec_stack(waste_id) is None
    ||| (w.spec_stack(waste_id)->Some_0.cards@.len() > 0 && (w.spec_transform(stock_id) is None
        || w.spec_stack(stock_id) is None || !stack_cards_have_transforms(w, waste_id)))
}

/// A recycle with complete inputs cannot fail: with the waste and stock
/// stacks present, the stock's anchor in place and every waste card carrying
/// a transform, the recycle's error condition is ruled out, so
/// `reset_stock_from_waste` returns `Ok` — `Ok(false)` on an empty waste and
/// the full recycle otherwise.
pub proof fn lemma_recycle_success(w: World, stock_id: EntityId, waste_id: EntityId)
    requires
        w.spec_stack(waste_id) is Some,
        w.spec_stack(stock_id) is Some,
        w.spec_transform(stock_id) is Some,
        stack_cards_have_transforms(w, waste_id),
    ensures
        !recycle_error(w, stock_id, waste_id),
{
}

/// When drawing from the stock fails: the stock has no stack; or it is
/// non-empty while the waste lacks a stack or transform or the stock's top
/// card lacks a transform or identity; or it is empty and the recycle it
/// delegates to fails.
pub open spec fn draw_error(w: World, stock_id: EntityId, waste_id: EntityId) -> bool {
    ||| w.spec_stack(stock_id) is None
    ||| (w.spec_stack(stock_id) matches Some(st) && st.cards@.len() == 0 && recycle_error(
        w,
        stock_id,
        waste_id,
    ))
    ||| (w.spec_stack(stock_id) matches Some(st) && st.cards@.len() > 0 && (w.spec_transform(
        waste_id,
    ) is None || w.spec_stack(waste_id) is None || w.spec_transform(st.cards@.last()) is None
        || w.spec_card(st.cards@.last()) is None))
}

/// What recycling the waste into the stock leaves behind: the waste is
/// empty; the stock holds its old cards followed by the waste's cards in the
/// same relative order they had in the waste; every recycled card lies face
/// down at the stock's anchor, its draw order its position in the recycled
/// run. Everything else is untouched.
pub open spec fn recycle_post(w0: World, w1: World, stock_id: EntityId, waste_id: EntityId) -> bool {
    let ws = w0.spec_stack(waste_id)->Some_0.cards@;
    let st0 = w0.spec_stack(stock_id)->Some_0;
    let anchor = w0.spec_transform(stock_id)->Some_0.position;
    let base = if stock_id == waste_id {
        Seq::<EntityId>::empty()
    } else {
        st0.cards@
    };
    &&& entities_eq(w1, w0)
    &&& w1.spec_stack(waste_id) matches Some(wst) && (waste_id != stock_id ==> wst.cards@.len()
        == 0 && wst.stack_type == w0.spec_stack(waste_id)->Some_0.stack_type && wst.max_cards == w0.spec_stack(
        waste_id,
    )->Some_0.max_cards)
    &&& w1.spec_stack(stock_id) matches Some(sst) && sst.stack_type == st0.stack_type
        && sst.max_cards == st0.max_cards && sst.cards@ === base + ws
    &&& forall|o: EntityId|
        o != stock_id && o != waste_id ==> #[trigger] w1.spec_stack(o) == w0.spec_stack(o)
    &&& forall|i: int|
        0 <= i < ws.len() ==> #[trigger] w1.spec_card(ws[i]) == Some(
            CardInfo { face_up: false, ..w0.spec_card(ws[i])->Some_0 },
        )
    &&& forall|o: EntityId| !ws.contains(o) ==> #[trigger] w1.spec_card(o) == w0.spec_card(o)
    &&& forall|i: int|
        0 <= i < ws.len() ==> #[trigger] w1.spec_transform(ws[i]) == Some(
            Transform {
                position: anchor,
                z_index: i as i64,
                ..w0.spec_transform(ws[i])->Some_0
            },
        )
    &&& forall|o: EntityId|
        !ws.contains(o) ==> #[trigger] w1.spec_transform(o) == w0.spec_transform(o)
    &&& draggables_eq(w1, w0)
    &&& renderables_eq(w1, w0)
    &&& clickables_eq(w1, w0)
    &&& droppables_eq(w1, w0)
}

/// Puts the waste's cards back into the stock, face down, keeping the
/// relative order they had in the waste. Returns `Ok(false)` and changes
/// nothing when the waste is empty. Fails when the waste or stock has no
/// stack, the stock has no transform, or a waste card has no transform, and
/// then changes nothing.
pub fn reset_stock_from_waste(world: &mut World, stock_id: EntityId, waste_id: EntityId) -> (r:
    Result<bool, EcsError>)
    requires
        old(world).wf(),
        stacks_wf(*old(world)),
    ensures
        final(world).wf(),
        r == Ok::<bool, EcsError>(false) <==> (old(world).spec_stack(waste_id) matches Some(w)
            && w.cards@.len() == 0),
        r == Ok::<bool, EcsError>(false) ==> *final(world) == *old(world),
        r is Err ==> *final(world) == *old(world),
        r is Err <==> recycle_error(*old(world), stock_id, waste_id),
        r == Ok::<bool, EcsError>(true) ==> recycle_post(
            *old(world),
            *final(world),
            stock_id,
            waste_id,
        ),
        r == Ok::<bool, EcsError>(true) ==> stacks_wf(*final(world)),
        old(world).boxes_wf() ==> final(world).boxes_wf(),
{
    let waste_cards = match world.get_stack(waste_id) {
        Some(st) => {
            if st.is_empty() {
                return Ok(false);
            }
            st.get_all_cards()
        },
        None => {
            return Err(EcsError::MissingStack);
        },
    };
    let (stock_x, stock_y) = match world.get_transform(stock_id) {
        Some(t) => (t.position.x, t.position.y),
        None => {
            return Err(EcsError::MissingTransform);
        },
    };
    if !world.has_stack(stock_id) {
        return Err(EcsError::MissingStack);
    }
    // All recycled cards must be movable before anything changes.
    let mut i: usize = 0;
    while i < waste_cards.len()
        invariant
            world == old(world),
            old(world).wf(),
            stacks_wf(*old(world)),
            old(world).spec_stack(waste_id) is Some,
            waste_cards@ === old(world).spec_stack(waste_id)->Some_0.cards@,
            waste_cards@.len() > 0,
            i <= waste_cards@.len(),
            forall|j: int|
                0 <= j < i ==> old(world).spec_transform(#[trigger] waste_cards@[j]) is Some,
        decreases waste_cards@.len() - i,
    {
        if !world.has_transform(waste_cards[i]) {
            proof {
                assert(old(world).spec_transform(waste_cards@[i as int]) is None);
            }
            return Err(EcsError::MissingTransform);
        }
        i = i + 1;
    }
    proof {
        lemma_stack_len_bounded(*world, waste_id);
        assert(stack_anchor_ok(*world, stock_id));
        assert(stack_cards_ok(*world, waste_id));
        assert(stack_cards_ok(*world, stock_id));
    }
    let ghost w0 = *world;
    let ghost ws = waste_cards@;
    let ghost base: Seq<EntityId> = if stock_id == waste_id {
        Seq::<EntityId>::empty()
    } else {
        w0.spec_stack(stock_id)->Some_0.cards@
    };

    // Empty the waste.
    let mut new_waste = match world.get_stack(waste_id) {
        Some(st) => st.duplicate(),
        None => {
            return Err(EcsError::MissingStack);
        },
    };
    new_waste.clear_cards();
    let _ = world.add_stack(waste_id, new_waste);

    // Flip each card face down and park it at the stock's anchor.
    let mut i: usize = 0;
    while i < waste_cards.len()
        invariant
            world.wf(),
            waste_cards@ === ws,
            i <= ws.len(),
            ws.len() <= MAX_ENTITIES,
            ws.no_duplicates(),
            -ANCHOR_LIMIT <= stock_x <= ANCHOR_LIMIT,
            -ANCHOR_LIMIT <= stock_y <= ANCHOR_LIMIT,
            forall|j: int| 0 <= j < ws.len() ==> w0.spec_card(#[trigger] ws[j]) is Some,
            forall|j: int| 0 <= j < ws.len() ==> w0.spec_transform(#[trigger] ws[j]) is Some,
            entities_eq(*world, w0),
            world.spec_stack(waste_id) matches Some(wst) && wst.cards@.len() == 0 && wst.stack_type
                == w0.spec_stack(waste_id)->Some_0.stack_type && wst.max_cards == w0.spec_stack(
                waste_id,
            )->Some_0.max_cards,
            forall|o: EntityId|
                o != waste_id ==> #[trigger] world.spec_stack(o) == w0.spec_stack(o),
            forall|j: int|
                0 <= j < i ==> #[trigger] world.spec_card(ws[j]) == Some(
                    CardInfo { face_up: false, ..w0.spec_card(ws[j])->Some_0 },
                ),
            forall|o: EntityId|
                !ws.take(i as int).contains(o) ==> #[trigger] world.spec_card(o) == w0.spec_card(o),
            forall|j: int|
                0 <= j < i ==> #[trigger] world.spec_transform(ws[j]) == Some(
                    Transform {
                        position: Vec2 { x: stock_x, y: stock_y },
                        z_index: j as i64,
                        ..w0.spec_transform(ws[j])->Some_0
                    },
                ),
            forall|o: EntityId|
                !ws.take(i as int).contains(o) ==> #[trigger] world.spec_transform(o)
                    == w0.spec_transform(o),
            draggables_eq(*world, w0),
            renderables_eq(*world, w0),
            clickables_eq(*world, w0),
            droppables_eq(*world, w0),
        decreases ws.len() - i,
    {
        let cid = waste_cards[i];
        proof {
            assert(!ws.take(i as int).contains(cid)) by {
                if ws.take(i as int).contains(cid) {
                    let j = choose|j: int| 0 <= j < i && ws.take(i as int)[j] == cid;
                    assert(ws[j] == ws[i as int]);
                }
            }
        }
        let info = match world.get_card_info(cid) {
            Some(c) => *c,
            None => {
                return Err(EcsError::MissingCard);
            },
        };
        let _ = world.add_card_info(cid, CardInfo { face_up: false, ..info });
        let _ = set_card_position(world, cid, stock_x, stock_y, i as i64);
        proof {
            let ghost prev_take = ws.take(i as int);
            assert forall|j: int|
                0 <= j < i + 1 implies #[trigger] world.spec_card(ws[j]) == Some(
                CardInfo { face_up: false, ..w0.spec_card(ws[j])->Some_0 },
            ) by {
                if j < i {
                    assert(ws[j] != cid) by {
                        assert(ws.no_duplicates());
                    }
                }
            }
            assert forall|j: int|
                0 <= j < i + 1 implies #[trigger] world.spec_transform(ws[j]) == Some(
                Transform {
                    position: Vec2 { x: stock_x, y: stock_y },
                    z_index: j as i64,
                    ..w0.spec_transform(ws[j])->Some_0
                },
            ) by {
                if j < i {
                    assert(ws[j] != cid) by {
                        assert(ws.no_duplicates());
                    }
                }
            }
            assert forall|o: EntityId|
                !ws.take(i + 1).contains(o) implies #[trigger] world.spec_card(o) == w0.spec_card(
                o,
            ) by {
                assert(o != cid) by {
                    assert(ws.take(i + 1)[i as int] == cid);
                }
                assert(!prev_take.contains(o)) by {
                    if prev_take.contains(o) {
                        let j = choose|j: int| 0 <= j < i && prev_take[j] == o;
                        assert(ws.take(i + 1)[j] == o);
                    }
                }
            }
            assert forall|o: EntityId|
                !ws.take(i + 1).contains(o) implies #[trigger] world.spec_transform(o)
                == w0.spec_transform(o) by {
                assert(o != cid) by {
                    assert(ws.take(i + 1)[i as int] == cid);
                }
                assert(!prev_take.contains(o)) by {
                    if prev_take.contains(o) {
                        let j = choose|j: int| 0 <= j < i && prev_take[j] == o;
                        assert(ws.take(i + 1)[j] == o);
                    }
                }
            }
        }
        i = i + 1;
    }

    // Put the cards into the stock, keeping their relative order.
    let mut new_stock = match world.get_stack(stock_id) {
        Some(st) => st.duplicate(),
        None => {
            return Err(EcsError::MissingStack);
        },
    };
    let mut j: usize = 0;
    while j < waste_cards.len()
        invariant
            waste_cards@ === ws,
            j <= ws.len(),
            new_stock.cards@ === base + ws.take(j as int),
            new_stock.stack_type == w0.spec_stack(stock_id)->Some_0.stack_type,
            new_stock.max_cards == w0.spec_stack(stock_id)->Some_0.max_cards,
        decreases ws.len() - j,
    {
        new_stock.add_card(waste_cards[j]);
        proof {
            assert(new_stock.cards@ =~= base + ws.take(j + 1));
        }
        j = j + 1;
    }
    proof {
        assert(ws.take(ws.len() as int) =~= ws);
    }
    let _ = world.add_stack(stock_id, new_stock);
    proof {
        assert(recycle_post(w0, *world, stock_id, waste_id));
        lemma_recycle_preserves_stacks_wf(w0, *world, stock_id, waste_id);
        if w0.boxes_wf() {
            assert forall|o: EntityId| crate::world::transform_bounded(
                #[trigger] world.spec_transform(o),
            ) by {
                if ws.contains(o) {
                    let k = choose|k: int| 0 <= k < ws.len() && ws[k] == o;
                    assert(world.spec_transform(ws[k]) is Some);
                    assert(crate::world::transform_bounded(w0.spec_transform(ws[k])));
                } else {
                    assert(world.spec_transform(o) == w0.spec_transform(o));
                    assert(crate::world::transform_bounded(w0.spec_transform(o)));
                }
            }
            assert forall|o: EntityId| crate::world::renderable_bounded(
                #[trigger] world.spec_renderable(o),
            ) by {
                assert(world.spec_renderable(o) == w0.spec_renderable(o));
                assert(crate::world::renderable_bounded(w0.spec_renderable(o)));
            }
            assert forall|o: EntityId| crate::world::droppable_bounded(
                #[trigger] world.spec_droppable(o),
            ) by {
                assert(world.spec_droppable(o) == w0.spec_droppable(o));
                assert(crate::world::droppable_bounded(w0.spec_droppable(o)));
            }
        }
    }
    Ok(true)
}

/// A completed recycle keeps the board-wide stack invariants.
pub proof fn lemma_recycle_preserves_stacks_wf(
    w0: World,
    w1: World,
    stock_id: EntityId,
    waste_id: EntityId,
)
    requires
        stacks_wf(w0),
        w0.spec_stack(stock_id) is Some,
        w0.spec_stack(waste_id) is Some,
        recycle_post(w0, w1, stock_id, waste_id),
    ensures
        stacks_wf(w1),
{
    let ws = w0.spec_stack(waste_id)->Some_0.cards@;
    let st0 = w0.spec_stack(stock_id)->Some_0;
    let base = if stock_id == waste_id {
        Seq::<EntityId>::empty()
    } else {
        st0.cards@
    };
    let s1 = w1.spec_stack(stock_id)->Some_0;
    assert(stack_cards_ok(w0, stock_id));
    assert(stack_cards_ok(w0, waste_id));

    // Membership in a final stack traces back to the initial stacks.
    assert forall|sid: EntityId, id: EntityId|
        #[trigger] stack_has_card(w1, sid, id) implies (sid == stock_id && (base.contains(id)
        || ws.contains(id))) || (sid != stock_id && sid != waste_id && stack_has_card(
        w0,
        sid,
        id,
    )) by {
        if sid == stock_id {
            let cards = s1.cards@;
            let k = choose|k: int| 0 <= k < cards.len() && cards[k] == id;
            if k < base.len() {
                assert(base[k] == id);
            } else {
                assert(ws[k - base.len()] == id);
            }
        } else if sid == waste_id {
            assert(w1.spec_stack(waste_id)->Some_0.cards@.len() == 0);
        }
    }
    assert forall|sid: EntityId| #[trigger] stack_cards_ok(w1, sid) by {
        assert(stack_cards_ok(w0, sid));
        if w1.spec_stack(sid) is Some {
            let cards1 = w1.spec_stack(sid)->Some_0.cards@;
            if sid == stock_id {
                assert(cards1 === base + ws);
                assert(cards1.no_duplicates()) by {
                    assert forall|a: int, b: int|
                        0 <= a < b < cards1.len() implies cards1[a] != cards1[b] by {
                        if a < base.len() && b >= base.len() {
                            assert(cards1[a] == base[a] && cards1[b] == ws[b - base.len()]);
                            if base[a] == ws[b - base.len()] {
                                assert(stack_has_card(w0, stock_id, cards1[a]));
                                assert(stack_has_card(w0, waste_id, cards1[a])) by {
                                    assert(ws.contains(ws[b - base.len()]));
                                }
                            }
                        }
                    }
                }
                assert forall|k: int|
                    0 <= k < cards1.len() implies w1.spec_card(#[trigger] cards1[k]) is Some by {
                    if k < base.len() {
                        assert(w0.spec_card(base[k]) is Some);
                        if ws.contains(cards1[k]) {
                            let m = choose|m: int| 0 <= m < ws.len() && ws[m] == cards1[k];
                            assert(w1.spec_card(ws[m]) is Some);
                        } else {
                            assert(w1.spec_card(cards1[k]) == w0.spec_card(cards1[k])) by {
                                assert(!ws.contains(cards1[k]));
                            }
                        }
                    } else {
                        assert(w1.spec_card(ws[k - base.len()]) is Some);
                    }
                }
            } else if sid == waste_id {
                assert(cards1.len() == 0);
            } else {
                assert(w1.spec_stack(sid) == w0.spec_stack(sid));
                assert forall|k: int|
                    0 <= k < cards1.len() implies w1.spec_card(#[trigger] cards1[k]) is Some by {
                    assert(w0.spec_card(cards1[k]) is Some);
                    if ws.contains(cards1[k]) {
                        let m = choose|m: int| 0 <= m < ws.len() && ws[m] == cards1[k];
                        assert(w1.spec_card(ws[m]) is Some);
                    } else {
                        assert(w1.spec_card(cards1[k]) == w0.spec_card(cards1[k]));
                    }
                }
            }
        }
    }
    // Exclusive membership.
    assert forall|s1x: EntityId, s2x: EntityId, id: EntityId|
        #[trigger] stack_has_card(w1, s1x, id) && #[trigger] stack_has_card(w1, s2x, id) implies s1x
        == s2x by {
        if s1x != s2x {
            assert(s1x == stock_id || stack_has_card(w0, s1x, id));
            assert(s2x == stock_id || stack_has_card(w0, s2x, id));
            if s1x != stock_id && s2x != stock_id {
                assert(s1x == s2x);
            } else {
                let other = if s1x == stock_id {
                    s2x
                } else {
                    s1x
                };
                assert(stack_has_card(w0, other, id));
                assert(base.contains(id) || ws.contains(id));
                if base.contains(id) {
                    assert(stack_has_card(w0, stock_id, id));
                } else {
                    assert(stack_has_card(w0, waste_id, id));
                }
            }
        }
    }
    // A listed card is never itself a stack.
    assert forall|sid: EntityId, id: EntityId| #[trigger]
        stack_has_card(w1, sid, id) implies w1.spec_stack(id) is None by {
        assert(w0.spec_stack(id) is None) by {
            if sid == stock_id {
                if base.contains(id) {
                    assert(stack_has_card(w0, stock_id, id));
                } else {
                    assert(ws.contains(id));
                    assert(stack_has_card(w0, waste_id, id));
                }
            } else {
                assert(stack_has_card(w0, sid, id));
            }
        }
        assert(id != stock_id && id != waste_id);
        assert(w1.spec_stack(id) == w0.spec_stack(id));
    }
    // Anchors: only card transforms moved, and no card is a stack.
    assert forall|sid: EntityId| #[trigger] stack_anchor_ok(w1, sid) by {
        assert(stack_anchor_ok(w0, sid));
        if w1.spec_stack(sid) is Some && w1.spec_transform(sid) is Some {
            assert(!ws.contains(sid)) by {
                if ws.contains(sid) {
                    assert(stack_has_card(w0, waste_id, sid));
                    assert(w0.spec_stack(sid) is None);
                    assert(sid != stock_id && sid != waste_id);
                    assert(w1.spec_stack(sid) == w0.spec_stack(sid));
                }
            }
            assert(w1.spec_transform(sid) == w0.spec_transform(sid));
            assert(w0.spec_stack(sid) is Some) by {
                if sid != stock_id && sid != waste_id {
                    assert(w1.spec_stack(sid) == w0.spec_stack(sid));
                }
            }
        }
    }
}

/// What drawing from a non-empty stock leaves behind: the stock's top card
/// is popped, turned face up, made draggable, parked at the waste's anchor
/// with the waste's entry count as its draw order, and appended to the
/// waste. Everything else is untouched.
pub open spec fn draw_post(w0: World, w1: World, stock_id: EntityId, waste_id: EntityId) -> bool {
    let st0 = w0.spec_stack(stock_id)->Some_0;
    let top = st0.cards@.last();
    let anchor = w0.spec_transform(waste_id)->Some_0.position;
    let base = if stock_id == waste_id {
        st0.cards@.drop_last()
    } else {
        w0.spec_stack(waste_id)->Some_0.cards@
    };
    let c0 = w0.spec_card(top)->Some_0;
    &&& entities_eq(w1, w0)
    &&& w1.spec_stack(stock_id) is Some
    &&& (stock_id != waste_id ==> {
        let s1 = w1.spec_stack(stock_id)->Some_0;
        s1.stack_type == st0.stack_type && s1.max_cards == st0.max_cards && s1.cards@
            === st0.cards@.drop_last()
    })
    &&& w1.spec_stack(waste_id) matches Some(w1s) && w1s.stack_type == w0.spec_stack(
        waste_id,
    )->Some_0.stack_type && w1s.max_cards == w0.spec_stack(waste_id)->Some_0.max_cards
        && w1s.cards@ === base.push(top)
    &&& forall|o: EntityId|
        o != stock_id && o != waste_id ==> #[trigger] w1.spec_stack(o) == w0.spec_stack(o)
    &&& w1.spec_card(top) == Some(CardInfo { face_up: true, ..c0 })
    &&& forall|o: EntityId| o != top ==> #[trigger] w1.spec_card(o) == w0.spec_card(o)
    &&& w1.spec_transform(top) matches Some(t) && t.position == anchor && t.z_index == base.len()
        && t.scale == w0.spec_transform(top)->Some_0.scale && t.rotation == w0.spec_transform(
        top,
    )->Some_0.rotation
    &&& forall|o: EntityId| o != top ==> #[trigger] w1.spec_transform(o) == w0.spec_transform(o)
    &&& w1.spec_draggable(top) == if w0.spec_draggable(top) is Some {
        w0.spec_draggable(top)
    } else {
        Some(crate::component::Draggable::default_spec())
    }
    &&& forall|o: EntityId| o != top ==> #[trigger] w1.spec_draggable(o) == w0.spec_draggable(o)
    &&& renderables_eq(w1, w0)
    &&& clickables_eq(w1, w0)
    &&& droppables_eq(w1, w0)
}

/// A completed draw keeps the board-wide stack invariants.
pub proof fn lemma_draw_preserves_stacks_wf(
    w0: World,
    w1: World,
    stock_id: EntityId,
    waste_id: EntityId,
)
    requires
        stacks_wf(w0),
        w0.spec_stack(stock_id) is Some,
        w0.spec_stack(waste_id) is Some,
        w0.spec_stack(stock_id)->Some_0.cards@.len() > 0,
        draw_post(w0, w1, stock_id, waste_id),
    ensures
        stacks_wf(w1),
{
    let st0 = w0.spec_stack(stock_id)->Some_0;
    let cards0 = st0.cards@;
    let top = cards0.last();
    let base = if stock_id == waste_id {
        cards0.drop_last()
    } else {
        w0.spec_stack(waste_id)->Some_0.cards@
    };
    assert(stack_cards_ok(w0, stock_id));
    assert(stack_cards_ok(w0, waste_id));
    assert(cards0.contains(top));
    assert(cards0.drop_last() =~= cards0.remove(cards0.len() - 1));
    lemma_remove_keeps(cards0, cards0.len() - 1);
    assert(stack_has_card(w0, stock_id, top));

    // Membership in a final stack traces back to the initial stacks.
    assert forall|sid: EntityId, id: EntityId|
        #[trigger] stack_has_card(w1, sid, id) implies stack_has_card(w0, sid, id) || (sid
        == waste_id && id == top) by {
        if sid == stock_id && stock_id != waste_id {
            assert(cards0.drop_last().contains(id));
            assert(cards0.contains(id));
        } else if sid == waste_id {
            let w1s = w1.spec_stack(waste_id)->Some_0;
            if id != top {
                let j = choose|j: int| 0 <= j < w1s.cards@.len() && w1s.cards@[j] == id;
                assert(base.contains(id)) by {
                    if j < base.len() {
                        assert(w1s.cards@[j] == base[j]);
                    } else {
                        assert(w1s.cards@[j] == top);
                    }
                }
                if stock_id == waste_id {
                    assert(cards0.contains(id));
                }
            }
        }
    }
    assert forall|sid: EntityId| #[trigger] stack_cards_ok(w1, sid) by {
        assert(stack_cards_ok(w0, sid));
        if w1.spec_stack(sid) is Some {
            let cards1 = w1.spec_stack(sid)->Some_0.cards@;
            if sid == waste_id {
                assert(cards1 === base.push(top));
                assert(!base.contains(top)) by {
                    if stock_id != waste_id && base.contains(top) {
                        assert(stack_has_card(w0, waste_id, top));
                    }
                }
                assert(cards1.no_duplicates()) by {
                    assert forall|a: int, b: int|
                        0 <= a < b < cards1.len() implies cards1[a] != cards1[b] by {
                        if b == cards1.len() - 1 {
                            assert(base.contains(base[a]));
                        }
                    }
                }
                assert forall|k: int|
                    0 <= k < cards1.len() implies w1.spec_card(#[trigger] cards1[k]) is Some by {
                    let id = cards1[k];
                    if k < base.len() {
                        assert(base.contains(id));
                        if stock_id == waste_id {
                            assert(cards0.contains(id));
                            let m = choose|m: int| 0 <= m < cards0.len() && cards0[m] == id;
                            assert(w0.spec_card(cards0[m]) is Some);
                        } else {
                            let m = choose|m: int| 0 <= m < base.len() && base[m] == id;
                            assert(w0.spec_card(base[m]) is Some);
                        }
                        assert(w0.spec_card(id) is Some);
                    } else {
                        assert(id == top);
                        assert(w0.spec_card(cards0[cards0.len() - 1]) is Some);
                    }
                }
            } else if sid == stock_id {
                assert(cards1 === cards0.drop_last());
                assert forall|k: int|
                    0 <= k < cards1.len() implies w1.spec_card(#[trigger] cards1[k]) is Some by {
                    assert(cards1[k] == cards0[k]);
                    assert(w0.spec_card(cards0[k]) is Some);
                    assert(cards1[k] != top || w1.spec_card(top) is Some);
                }
            } else {
                assert forall|k: int|
                    0 <= k < cards1.len() implies w1.spec_card(#[trigger] cards1[k]) is Some by {
                    assert(w0.spec_card(cards1[k]) is Some);
                }
            }
        }
    }
    // Exclusive membership.
    assert forall|s1x: EntityId, s2x: EntityId, id: EntityId|
        #[trigger] stack_has_card(w1, s1x, id) && #[trigger] stack_has_card(w1, s2x, id) implies s1x
        == s2x by {
        if id == top {
            assert forall|s: EntityId| stack_has_card(w1, s, top) implies s == waste_id by {
                if s != waste_id {
                    assert(stack_has_card(w0, s, top));
                    assert(s == stock_id);
                    assert(stock_id != waste_id);
                    let s1 = w1.spec_stack(stock_id)->Some_0;
                    assert(!s1.cards@.contains(top));
                }
            }
        } else {
            assert(stack_has_card(w0, s1x, id));
            assert(stack_has_card(w0, s2x, id));
        }
    }
    // A listed card is never itself a stack.
    assert forall|sid: EntityId, id: EntityId| #[trigger]
        stack_has_card(w1, sid, id) implies w1.spec_stack(id) is None by {
        assert(stack_has_card(w0, sid, id) || (sid == waste_id && id == top));
        assert(w0.spec_stack(id) is None);
        assert(id != stock_id && id != waste_id);
        assert(w1.spec_stack(id) == w0.spec_stack(id));
    }
    // Anchors: only the drawn card's transform moved, and it is no stack.
    assert forall|sid: EntityId| #[trigger] stack_anchor_ok(w1, sid) by {
        assert(stack_anchor_ok(w0, sid));
        if w1.spec_stack(sid) is Some && w1.spec_transform(sid) is Some {
            assert(sid != top) by {
                if sid == top {
                    assert(w0.spec_stack(top) is None);
                    assert(top != stock_id && top != waste_id);
                    assert(w1.spec_stack(top) == w0.spec_stack(top));
                }
            }
            assert(w1.spec_transform(sid) == w0.spec_transform(sid));
            assert(w0.spec_stack(sid) is Some) by {
                if sid != stock_id && sid != waste_id {
                    assert(w1.spec_stack(sid) == w0.spec_stack(sid));
                }
            }
        }
    }
}

/// Draws the stock's top card into the waste, face up; when the stock is
/// empty, recycles the waste back into the stock instead. `Ok(false)` means
/// nothing was there to draw or recycle. Fails, changing nothing, when a
/// stack, transform or card identity the operation reads is missing.
pub fn draw_from_stock(world: &mut World, stock_id: EntityId, waste_id: EntityId) -> (r: Result<
    bool,
    EcsError,
>)
    requires
        old(world).wf(),
        stacks_wf(*old(world)),
    ensures
        final(world).wf(),
        r == Ok::<bool, EcsError>(false) <==> ((old(world).spec_stack(stock_id) matches Some(s)
            && s.cards@.len() == 0) && (old(world).spec_stack(waste_id) matches Some(w)
            && w.cards@.len() == 0)),
        r == Ok::<bool, EcsError>(false) ==> *final(world) == *old(world),
        r is Err ==> *final(world) == *old(world),
        r is Err <==> draw_error(*old(world), stock_id, waste_id),
        r == Ok::<bool, EcsError>(true) ==> (if old(world).spec_stack(stock_id)->Some_0.cards@.len()
            == 0 {
            recycle_post(*old(world), *final(world), stock_id, waste_id)
        } else {
            draw_post(*old(world), *final(world), stock_id, waste_id)
        }),
        r == Ok::<bool, EcsError>(true) ==> stacks_wf(*final(world)),
        old(world).boxes_wf() ==> final(world).boxes_wf(),
{
    let stock_len = match world.get_stack(stock_id) {
        Some(st) => st.card_count(),
        None => {
            return Err(EcsError::MissingStack);
        },
    };
    if stock_len == 0 {
        return reset_stock_from_waste(world, stock_id, waste_id);
    }
    // Read and check everything the draw touches before changing anything.
    let (waste_x, waste_y) = match world.get_transform(waste_id) {
        Some(t) => (t.position.x, t.position.y),
        None => {
            return Err(EcsError::MissingTransform);
        },
    };
    if !world.has_stack(waste_id) {
        return Err(EcsError::MissingStack);
    }
    let top = match world.get_stack(stock_id) {
        Some(st) => {
            match st.top_card() {
                Some(id) => id,
                None => {
                    return Err(EcsError::MissingStack);
                },
            }
        },
        None => {
            return Err(EcsError::MissingStack);
        },
    };
    if !world.has_transform(top) {
        return Err(EcsError::MissingTransform);
    }
    let info = match world.get_card_info(top) {
        Some(c) => *c,
        None => {
            return Err(EcsError::MissingCard);
        },
    };
    proof {
        lemma_stack_len_bounded(*world, waste_id);
        lemma_stack_len_bounded(*world, stock_id);
        assert(stack_anchor_ok(*world, waste_id));
        assert(stack_cards_ok(*world, stock_id));
    }
    let ghost w0 = *world;

    // Pop the stock's top card.
    let mut new_stock = match world.get_stack(stock_id) {
        Some(st) => st.duplicate(),
        None => {
            return Err(EcsError::MissingStack);
        },
    };
    new_stock.remove_top_card();
    let _ = world.add_stack(stock_id, new_stock);

    // Park the card at the waste's anchor, above the waste's cards.
    let waste_count = match world.get_stack(waste_id) {
        Some(st) => st.card_count(),
        None => {
            return Err(EcsError::MissingStack);
        },
    };
    let _ = set_card_position(world, top, waste_x, waste_y, waste_count as i64);

    // Turn it face up and make it draggable.
    let _ = world.add_card_info(top, CardInfo { face_up: true, ..info });
    let _ = crate::card::set_card_draggable(world, top, true);

    // Append it to the waste.
    let mut new_waste = match world.get_stack(waste_id) {
        Some(st) => st.duplicate(),
        None => {
            return Err(EcsError::MissingStack);
        },
    };
    new_waste.add_card(top);
    let _ = world.add_stack(waste_id, new_waste);
    proof {
        assert(w0.spec_stack(stock_id)->Some_0.cards@.contains(top)) by {
            assert(w0.spec_stack(stock_id)->Some_0.cards@.last() == top);
        }
        assert(draw_post(w0, *world, stock_id, waste_id));
        lemma_draw_preserves_stacks_wf(w0, *world, stock_id, waste_id);
    }
    Ok(true)
}

/// The contiguous run a card heads in a stack: the cards from the card's
/// index up to the top; empty when the card is not in the stack.
pub open spec fn run_from(ft: StackContainer, card_id: EntityId) -> Seq<EntityId> {
    match ft.cards@.index_of_first(card_id) {
        Some(i) => ft.cards@.skip(i),
        None => Seq::<EntityId>::empty(),
    }
}

/// Whether the run headed by the card may move onto the target stack.
/// Tableau to tableau moves the whole run, judged by its first card against
/// the target's top (a king opens an empty column); a foundation takes a
/// single card only, by the foundation rule; everything else takes a single
/// card, by the tableau rule.
pub open spec fn spec_can_move_stack(
    w: World,
    card_id: EntityId,
    from_id: EntityId,
    to_id: EntityId,
) -> bool {
    &&& w.spec_stack(from_id) matches Some(ft)
    &&& ft.cards@.contains(card_id)
    &&& w.spec_stack(to_id) matches Some(tt)
    &&& {
        let ft = w.spec_stack(from_id)->Some_0;
        let tt = w.spec_stack(to_id)->Some_0;
        let run = run_from(ft, card_id);
        match (ft.stack_type, tt.stack_type) {
            (StackType::Tableau { .. }, StackType::Tableau { .. }) => {
                if tt.cards@.len() == 0 {
                    w.spec_card(card_id) matches Some(c) && c.rank == 12
                } else {
                    (w.spec_card(card_id) matches Some(c) && w.spec_card(tt.cards@.last())
                        matches Some(t) && c.color != t.color && c.rank + 1 == t.rank)
                }
            },
            (_, StackType::Foundation { .. }) => run.len() == 1 && spec_can_move_to_foundation(
                w,
                card_id,
                to_id,
            ),
            _ => run.len() == 1 && spec_can_move_to_tableau(w, card_id, to_id),
        }
    }
}

/// One run card stands re-anchored at the destination: at the anchor, fanned
/// down by the fixed step times its new index when the destination is a
/// tableau, with the new index as its draw order, scale and rotation kept.
pub open spec fn run_card_placed(
    w0: World,
    w1: World,
    id: EntityId,
    anchor: Vec2,
    to_type: StackType,
    new_index: int,
) -> bool {
    w1.spec_transform(id) matches Some(t) && {
        let t0 = w0.spec_transform(id)->Some_0;
        &&& t.position.x == anchor.x
        &&& t.position.y == anchor.y + (if to_type matches StackType::Tableau { .. } {
            (STACK_OFFSET_Y as int) * new_index
        } else {
            0
        })
        &&& t.z_index == new_index
        &&& t.scale == t0.scale
        &&& t.rotation == t0.rotation
    }
}

/// What a run move leaves behind: the run is cut off the source stack and
/// appended, in order, to the destination; each run card is re-anchored at
/// the destination (a tableau fans the cards down by the fixed step times
/// each card's new index, other kinds stack flush), with its new index as
/// its draw order; and if a tableau source keeps a face-down top, that top
/// turns face up. Everything else is untouched.
pub open spec fn move_run_post(
    w0: World,
    w1: World,
    card_id: EntityId,
    from_id: EntityId,
    to_id: EntityId,
) -> bool {
    let ft = w0.spec_stack(from_id)->Some_0;
    let tt = w0.spec_stack(to_id)->Some_0;
    let idx = ft.cards@.index_of_first(card_id)->Some_0;
    let run = ft.cards@.skip(idx);
    let rest = ft.cards@.take(idx);
    let anchor = w0.spec_transform(to_id)->Some_0.position;
    let base = if from_id == to_id {
        rest
    } else {
        tt.cards@
    };
    let reveal_id: Option<EntityId> = if from_id != to_id && (ft.stack_type matches
        StackType::Tableau { .. }) && rest.len() > 0 {
        Some(rest.last())
    } else {
        None
    };
    &&& entities_eq(w1, w0)
    &&& w1.spec_stack(from_id) is Some
    &&& (from_id != to_id ==> {
        let f1 = w1.spec_stack(from_id)->Some_0;
        f1.stack_type == ft.stack_type && f1.max_cards == ft.max_cards && f1.cards@ === rest
    })
    &&& w1.spec_stack(to_id) matches Some(t1) && t1.stack_type == tt.stack_type && t1.max_cards
        == tt.max_cards && t1.cards@ === base + run
    &&& forall|o: EntityId|
        o != from_id && o != to_id ==> #[trigger] w1.spec_stack(o) == w0.spec_stack(o)
    &&& forall|k: int|
        0 <= k < run.len() ==> run_card_placed(
            w0,
            w1,
            #[trigger] run[k],
            anchor,
            tt.stack_type,
            base.len() + k,
        )
    &&& forall|o: EntityId|
        !run.contains(o) ==> #[trigger] w1.spec_transform(o) == w0.spec_transform(o)
    &&& match reveal_id {
        Some(nt) => {
            let c0 = w0.spec_card(nt)->Some_0;
            &&& w0.spec_card(nt) is Some
            &&& w1.spec_card(nt) == Some(CardInfo { face_up: true, ..c0 })
            &&& (forall|o: EntityId| o != nt ==> #[trigger] w1.spec_card(o) == w0.spec_card(o))
            &&& w1.spec_draggable(nt) == if !c0.face_up && w0.spec_draggable(nt) is None {
                Some(crate::component::Draggable::default_spec())
            } else {
                w0.spec_draggable(nt)
            }
            &&& (forall|o: EntityId|
                o != nt ==> #[trigger] w1.spec_draggable(o) == w0.spec_draggable(o))
        },
        None => cards_eq(w1, w0) && draggables_eq(w1, w0),
    }
    &&& renderables_eq(w1, w0)
    &&& clickables_eq(w1, w0)
    &&& droppables_eq(w1, w0)
}

/// A completed run move keeps the board-wide stack invariants.
pub proof fn lemma_move_run_preserves_stacks_wf(
    w0: World,
    w1: World,
    card_id: EntityId,
    from_id: EntityId,
    to_id: EntityId,
)
    requires
        stacks_wf(w0),
        w0.spec_stack(from_id) is Some,
        w0.spec_stack(to_id) is Some,
        stack_has_card(w0, from_id, card_id),
        move_run_post(w0, w1, card_id, from_id, to_id),
    ensures
        stacks_wf(w1),
{
    let ft = w0.spec_stack(from_id)->Some_0;
    let cards0 = ft.cards@;
    assert(stack_cards_ok(w0, from_id));
    assert(stack_cards_ok(w0, to_id));
    cards0.index_of_first_ensures(card_id);
    let idx = cards0.index_of_first(card_id)->Some_0;
    let run = cards0.skip(idx);
    let rest = cards0.take(idx);
    let tt = w0.spec_stack(to_id)->Some_0;
    let base = if from_id == to_id {
        rest
    } else {
        tt.cards@
    };
    assert(forall|k: int| 0 <= k < run.len() ==> run[k] == cards0[idx + k]);
    assert(forall|k: int| 0 <= k < rest.len() ==> rest[k] == cards0[k]);
    assert forall|x: EntityId| #[trigger] run.contains(x) implies cards0.contains(x) by {
        let k = choose|k: int| 0 <= k < run.len() && run[k] == x;
        assert(cards0[idx + k] == x);
    }
    assert forall|x: EntityId| #[trigger] rest.contains(x) implies cards0.contains(x) by {
        let k = choose|k: int| 0 <= k < rest.len() && rest[k] == x;
        assert(cards0[k] == x);
    }
    assert forall|x: EntityId| rest.contains(x) implies !run.contains(x) by {
        if rest.contains(x) && run.contains(x) {
            let a = choose|a: int| 0 <= a < rest.len() && rest[a] == x;
            let b = choose|b: int| 0 <= b < run.len() && run[b] == x;
            assert(cards0[a] == cards0[idx + b]);
        }
    }
    // Membership in a final stack traces back to the initial stacks.
    assert forall|sid: EntityId, id: EntityId|
        #[trigger] stack_has_card(w1, sid, id) implies stack_has_card(w0, sid, id) || (sid == to_id
        && run.contains(id)) by {
        if sid == from_id && from_id != to_id {
            assert(rest.contains(id));
            assert(cards0.contains(id));
        } else if sid == to_id {
            let t1cards = w1.spec_stack(to_id)->Some_0.cards@;
            let j = choose|j: int| 0 <= j < t1cards.len() && t1cards[j] == id;
            if j < base.len() {
                assert(base[j] == id);
                assert(base.contains(id));
                if from_id == to_id {
                    assert(cards0.contains(id));
                }
            } else {
                assert(run[j - base.len()] == id);
                assert(run.contains(id));
            }
        }
    }
    // Soundness of each final card list.
    assert forall|sid: EntityId| #[trigger] stack_cards_ok(w1, sid) by {
        assert(stack_cards_ok(w0, sid));
        if w1.spec_stack(sid) is Some {
            let cards1 = w1.spec_stack(sid)->Some_0.cards@;
            assert forall|k: int|
                0 <= k < cards1.len() implies w1.spec_card(#[trigger] cards1[k]) is Some by {
                let id = cards1[k];
                assert(cards1.contains(id));
                assert(stack_has_card(w1, sid, id));
                assert(stack_has_card(w0, sid, id) || (sid == to_id && run.contains(id)));
                assert(w0.spec_card(id) is Some) by {
                    if stack_has_card(w0, sid, id) {
                        let c0s = w0.spec_stack(sid)->Some_0.cards@;
                        let m = choose|m: int| 0 <= m < c0s.len() && c0s[m] == id;
                        assert(w0.spec_card(c0s[m]) is Some);
                    } else {
                        let m = choose|m: int| 0 <= m < run.len() && run[m] == id;
                        assert(w0.spec_card(cards0[idx + m]) is Some);
                    }
                }
            }
            if sid == to_id {
                let t1cards = w1.spec_stack(to_id)->Some_0.cards@;
                assert(t1cards === base + run);
                assert(base.no_duplicates()) by {
                    if from_id == to_id {
                        assert forall|a: int, b: int|
                            0 <= a < b < rest.len() implies rest[a] != rest[b] by {
                            assert(rest[a] == cards0[a] && rest[b] == cards0[b]);
                        }
                    }
                }
                assert(run.no_duplicates()) by {
                    assert forall|a: int, b: int|
                        0 <= a < b < run.len() implies run[a] != run[b] by {
                        assert(run[a] == cards0[idx + a] && run[b] == cards0[idx + b]);
                    }
                }
                assert forall|x: EntityId| base.contains(x) implies !run.contains(x) by {
                    if base.contains(x) && run.contains(x) {
                        if from_id == to_id {
                            assert(!run.contains(x));
                        } else {
                            assert(stack_has_card(w0, to_id, x));
                            assert(cards0.contains(x));
                            assert(stack_has_card(w0, from_id, x));
                        }
                    }
                }
                assert(t1cards.no_duplicates()) by {
                    assert forall|a: int, b: int|
                        0 <= a < b < t1cards.len() implies t1cards[a] != t1cards[b] by {
                        if a < base.len() && b >= base.len() {
                            assert(t1cards[a] == base[a] && t1cards[b] == run[b - base.len()]);
                            assert(base.contains(base[a]));
                            assert(run.contains(run[b - base.len()]));
                        } else if a >= base.len() {
                            assert(t1cards[a] == run[a - base.len()] && t1cards[b] == run[b
                                - base.len()]);
                        } else {
                            assert(t1cards[a] == base[a] && t1cards[b] == base[b]);
                        }
                    }
                }
            } else if sid == from_id {
                assert(cards1 === rest);
                assert(cards1.no_duplicates()) by {
                    assert forall|a: int, b: int|
                        0 <= a < b < rest.len() implies rest[a] != rest[b] by {
                        assert(rest[a] == cards0[a] && rest[b] == cards0[b]);
                    }
                }
            }
        }
    }
    // Exclusive membership.
    assert forall|s1x: EntityId, s2x: EntityId, id: EntityId|
        #[trigger] stack_has_card(w1, s1x, id) && #[trigger] stack_has_card(w1, s2x, id) implies s1x
        == s2x by {
        if s1x != s2x {
            if run.contains(id) {
                assert(stack_has_card(w0, from_id, id)) by {
                    assert(cards0.contains(id));
                }
                assert forall|s: EntityId| stack_has_card(w1, s, id) implies s == to_id by {
                    if s != to_id {
                        assert(stack_has_card(w0, s, id));
                        assert(s == from_id);
                        assert(from_id != to_id);
                        assert(rest.contains(id));
                        assert(!run.contains(id));
                    }
                }
            } else {
                assert(stack_has_card(w0, s1x, id));
                assert(stack_has_card(w0, s2x, id));
            }
        }
    }
    // A listed card is never itself a stack.
    assert forall|sid: EntityId, id: EntityId| #[trigger]
        stack_has_card(w1, sid, id) implies w1.spec_stack(id) is None by {
        assert(w0.spec_stack(id) is None) by {
            if stack_has_card(w0, sid, id) {
            } else {
                assert(run.contains(id));
                assert(cards0.contains(id));
                assert(stack_has_card(w0, from_id, id));
            }
        }
        assert(id != from_id && id != to_id);
        assert(w1.spec_stack(id) == w0.spec_stack(id));
    }
    // Anchors: only run cards' transforms moved, and no card is a stack.
    assert forall|sid: EntityId| #[trigger] stack_anchor_ok(w1, sid) by {
        assert(stack_anchor_ok(w0, sid));
        if w1.spec_stack(sid) is Some && w1.spec_transform(sid) is Some {
            assert(!run.contains(sid)) by {
                if run.contains(sid) {
                    assert(cards0.contains(sid));
                    assert(stack_has_card(w0, from_id, sid));
                    assert(w0.spec_stack(sid) is None);
                    assert(sid != from_id && sid != to_id);
                    assert(w1.spec_stack(sid) == w0.spec_stack(sid));
                }
            }
            assert(w1.spec_transform(sid) == w0.spec_transform(sid));
            assert(w0.spec_stack(sid) is Some) by {
                if sid != from_id && sid != to_id {
                    assert(w1.spec_stack(sid) == w0.spec_stack(sid));
                }
            }
        }
    }
}

/// Whether the rules allow the run headed by `card_id` in `from_stack_id`
/// to move onto `to_stack_id`, decided executably.
pub fn can_move_stack_check(
    world: &World,
    card_id: EntityId,
    from_stack_id: EntityId,
    to_stack_id: EntityId,
) -> (r: bool)
    ensures
        r == spec_can_move_stack(*world, card_id, from_stack_id, to_stack_id),
{
    let card_index = match world.get_stack(from_stack_id) {
        Some(st) => {
            match st.get_card_index(card_id) {
                Some(i) => i,
                None => {
                    return false;
                },
            }
        },
        None => {
            return false;
        },
    };
    proof {
        let ft = world.spec_stack(from_stack_id)->Some_0;
        assert(ft.cards@.contains(card_id)) by {
            assert(ft.cards@[card_index as int] == card_id);
        }
        ft.cards@.index_of_first_ensures(card_id);
        let iof = ft.cards@.index_of_first(card_id)->Some_0;
        assert(iof == card_index as int) by {
            if iof < card_index as int {
                assert(ft.cards@[iof] == card_id);
            }
        }
    }
    let run_len = match world.get_stack(from_stack_id) {
        Some(st) => st.card_count() - card_index,
        None => {
            proof {
                assert(false);
            }
            return false;
        },
    };
    let from_is_tableau = match world.get_stack(from_stack_id) {
        Some(st) => matches!(st.stack_type, StackType::Tableau { .. }),
        None => false,
    };
    let (to_type, to_empty, to_top) = match world.get_stack(to_stack_id) {
        Some(st) => (st.stack_type, st.is_empty(), st.top_card()),
        None => {
            return false;
        },
    };
    match to_type {
        StackType::Tableau { .. } if from_is_tableau => {
            if to_empty {
                match world.get_card_info(card_id) {
                    Some(c) => c.rank == 12,
                    None => false,
                }
            } else {
                match to_top {
                    Some(top_id) => crate::card::can_stack_card(world, card_id, top_id),
                    None => false,
                }
            }
        },
        StackType::Foundation { .. } => run_len == 1 && can_move_to_foundation(
            world,
            card_id,
            to_stack_id,
        ),
        _ => run_len == 1 && can_move_to_tableau(world, card_id, to_stack_id),
    }
}

/// Every card of the run headed by `card_id` in the source stack carries a
/// transform.
pub open spec fn run_all_have_transforms(w: World, from_id: EntityId, card_id: EntityId) -> bool {
    forall|k: int|
        0 <= k < run_from(w.spec_stack(from_id)->Some_0, card_id).len() ==> w.spec_transform(
            #[trigger] run_from(w.spec_stack(from_id)->Some_0, card_id)[k],
        ) is Some
}

/// Moves the contiguous run headed by `card_id` from one stack to another,
/// when the rules allow it; legality is judged by the run's first card
/// against the destination alone, since a run standing in a tableau was
/// built by legal single moves. Returns `Ok(false)` and changes nothing when
/// the card is not in the source or the rules refuse the move. Fails,
/// changing nothing, when a stack or transform the move reads is missing.
pub fn move_card_stack(
    world: &mut World,
    card_id: EntityId,
    from_stack_id: EntityId,
    to_stack_id: EntityId,
) -> (r: Result<bool, EcsError>)
    requires
        old(world).wf(),
        stacks_wf(*old(world)),
    ensures
        final(world).wf(),
        r is Err ==> *final(world) == *old(world),
        r == Ok::<bool, EcsError>(false) ==> *final(world) == *old(world),
        r == Ok::<bool, EcsError>(false) <==> ((old(world).spec_stack(from_stack_id) matches Some(
            f,
        ) && !f.cards@.contains(card_id)) || (stack_has_card(*old(world), from_stack_id, card_id)
            && old(world).spec_stack(to_stack_id) is Some && !spec_can_move_stack(
            *old(world),
            card_id,
            from_stack_id,
            to_stack_id,
        ))),
        r is Err <==> (old(world).spec_stack(from_stack_id) is None || (stack_has_card(
            *old(world),
            from_stack_id,
            card_id,
        ) && (old(world).spec_stack(to_stack_id) is None || (spec_can_move_stack(
            *old(world),
            card_id,
            from_stack_id,
            to_stack_id,
        ) && (old(world).spec_transform(to_stack_id) is None || !run_all_have_transforms(
            *old(world),
            from_stack_id,
            card_id,
        )))))),
        r == Ok::<bool, EcsError>(true) ==> spec_can_move_stack(
            *old(world),
            card_id,
            from_stack_id,
            to_stack_id,
        ) && move_run_post(*old(world), *final(world), card_id, from_stack_id, to_stack_id),
        r == Ok::<bool, EcsError>(true) ==> stacks_wf(*final(world)),
        old(world).boxes_wf() ==> final(world).boxes_wf(),
{
    // Locate the run.
    let card_index = match world.get_stack(from_stack_id) {
        Some(st) => {
            match st.get_card_index(card_id) {
                Some(i) => i,
                None => {
                    return Ok(false);
                },
            }
        },
        None => {
            return Err(EcsError::MissingStack);
        },
    };
    proof {
        let ft = world.spec_stack(from_stack_id)->Some_0;
        assert(ft.cards@.contains(card_id)) by {
            assert(ft.cards@[card_index as int] == card_id);
        }
        ft.cards@.index_of_first_ensures(card_id);
        let iof = ft.cards@.index_of_first(card_id)->Some_0;
        assert(iof == card_index as int) by {
            if iof < card_index as int {
                assert(ft.cards@[iof] == card_id);
            }
        }
    }
    let run = match world.get_stack(from_stack_id) {
        Some(st) => st.cards_from_index(card_index),
        None => {
            return Err(EcsError::MissingStack);
        },
    };
    // Judge the move by the run's first card against the destination.
    let can_move = {
        let (from_is_tableau, to_type, to_empty, to_top) = {
            let from_is_tableau = match world.get_stack(from_stack_id) {
                Some(st) => matches!(st.stack_type, StackType::Tableau { .. }),
                None => false,
            };
            let to_stack = match world.get_stack(to_stack_id) {
                Some(st) => st,
                None => {
                    return Err(EcsError::MissingStack);
                },
            };
            (from_is_tableau, to_stack.stack_type, to_stack.is_empty(), to_stack.top_card())
        };
        match to_type {
            StackType::Tableau { .. } if from_is_tableau => {
                if to_empty {
                    match world.get_card_info(card_id) {
                        Some(c) => c.rank == 12,
                        None => false,
                    }
                } else {
                    match to_top {
                        Some(top_id) => crate::card::can_stack_card(world, card_id, top_id),
                        None => false,
                    }
                }
            },
            StackType::Foundation { .. } => run.len() == 1 && can_move_to_foundation(
                world,
                card_id,
                to_stack_id,
            ),
            _ => run.len() == 1 && can_move_to_tableau(world, card_id, to_stack_id),
        }
    };
    if !can_move {
        return Ok(false);
    }
    // Read and check everything the move touches before changing anything.
    let (to_x, to_y, to_is_tableau) = {
        let t = match world.get_transform(to_stack_id) {
            Some(t) => *t,
            None => {
                return Err(EcsError::MissingTransform);
            },
        };
        let to_stack = match world.get_stack(to_stack_id) {
            Some(st) => st,
            None => {
                return Err(EcsError::MissingStack);
            },
        };
        (t.position.x, t.position.y, matches!(to_stack.stack_type, StackType::Tableau { .. }))
    };
    let mut i: usize = 0;
    while i < run.len()
        invariant
            world == old(world),
            old(world).wf(),
            stacks_wf(*old(world)),
            old(world).spec_stack(from_stack_id) matches Some(ft) && run@ === run_from(
                ft,
                card_id,
            ) && ft.cards@.contains(card_id),
            old(world).spec_stack(to_stack_id) is Some,
            spec_can_move_stack(*old(world), card_id, from_stack_id, to_stack_id),
            i <= run@.len(),
            forall|j: int| 0 <= j < i ==> old(world).spec_transform(#[trigger] run@[j]) is Some,
        decreases run@.len() - i,
    {
        if !world.has_transform(run[i]) {
            proof {
                assert(old(world).spec_transform(run@[i as int]) is None);
            }
            return Err(EcsError::MissingTransform);
        }
        i = i + 1;
    }
    proof {
        lemma_stack_len_bounded(*world, from_stack_id);
        lemma_stack_len_bounded(*world, to_stack_id);
        assert(stack_anchor_ok(*world, to_stack_id));
        assert(stack_cards_ok(*world, from_stack_id));
        assert(stack_cards_ok(*world, to_stack_id));
    }
    let ghost w0 = *world;
    let ghost ft0 = w0.spec_stack(from_stack_id)->Some_0;
    let ghost run_spec = run@;

    // Cut the run off the source stack.
    let mut from_stack = match world.get_stack(from_stack_id) {
        Some(st) => st.duplicate(),
        None => {
            return Err(EcsError::MissingStack);
        },
    };
    from_stack.remove_cards_from_index(card_index);
    let _ = world.add_stack(from_stack_id, from_stack);

    // Destination entry count: the count after the cut.
    let base_count = match world.get_stack(to_stack_id) {
        Some(st) => st.card_count(),
        None => {
            return Err(EcsError::MissingStack);
        },
    };

    // Re-anchor each run card at the destination.
    let ghost base: Seq<EntityId> = if from_stack_id == to_stack_id {
        ft0.cards@.take(card_index as int)
    } else {
        w0.spec_stack(to_stack_id)->Some_0.cards@
    };
    let ghost w_cut = *world;
    let ghost to_type = w0.spec_stack(to_stack_id)->Some_0.stack_type;
    let ghost anchor = w0.spec_transform(to_stack_id)->Some_0.position;
    let mut i: usize = 0;
    while i < run.len()
        invariant
            world.wf(),
            run@ === run_spec,
            run_spec.no_duplicates(),
            i <= run_spec.len(),
            run_spec.len() <= MAX_ENTITIES,
            base_count == base.len(),
            base_count <= MAX_ENTITIES,
            to_x == anchor.x,
            to_y == anchor.y,
            to_is_tableau == (to_type matches StackType::Tableau { .. }),
            -ANCHOR_LIMIT <= to_x <= ANCHOR_LIMIT,
            -ANCHOR_LIMIT <= to_y <= ANCHOR_LIMIT,
            forall|j: int|
                0 <= j < run_spec.len() ==> w0.spec_transform(#[trigger] run_spec[j]) is Some,
            entities_eq(*world, w0),
            forall|o: EntityId| #[trigger] world.spec_stack(o) == w_cut.spec_stack(o),
            forall|j: int|
                0 <= j < i ==> run_card_placed(
                    w0,
                    *world,
                    #[trigger] run_spec[j],
                    anchor,
                    to_type,
                    base.len() + j,
                ),
            forall|o: EntityId|
                !run_spec.take(i as int).contains(o) ==> #[trigger] world.spec_transform(o)
                    == w0.spec_transform(o),
            cards_eq(*world, w0),
            draggables_eq(*world, w0),
            renderables_eq(*world, w0),
            clickables_eq(*world, w0),
            droppables_eq(*world, w0),
        decreases run_spec.len() - i,
    {
        let cid = run[i];
        proof {
            assert(!run_spec.take(i as int).contains(cid)) by {
                if run_spec.take(i as int).contains(cid) {
                    let j = choose|j: int| 0 <= j < i && run_spec.take(i as int)[j] == cid;
                    assert(run_spec[j] == run_spec[i as int]);
                }
            }
        }
        let y_off: i64 = if to_is_tableau {
            STACK_OFFSET_Y * ((base_count + i) as i64)
        } else {
            0
        };
        let z: i64 = (base_count + i) as i64;
        let _ = set_card_position(world, cid, to_x, to_y + y_off, z);
        proof {
            let ghost prev_take = run_spec.take(i as int);
            assert forall|j: int|
                0 <= j < i + 1 implies run_card_placed(
                w0,
                *world,
                #[trigger] run_spec[j],
                anchor,
                to_type,
                base.len() + j,
            ) by {
                if j < i {
                    assert(run_spec[j] != cid) by {
                        assert(run_spec.no_duplicates());
                    }
                }
            }
            assert forall|o: EntityId|
                !run_spec.take(i + 1).contains(o) implies #[trigger] world.spec_transform(o)
                == w0.spec_transform(o) by {
                assert(o != cid) by {
                    assert(run_spec.take(i + 1)[i as int] == cid);
                }
                assert(!prev_take.contains(o)) by {
                    if prev_take.contains(o) {
                        let j = choose|j: int| 0 <= j < i && prev_take[j] == o;
                        assert(run_spec.take(i + 1)[j] == o);
                    }
                }
            }
        }
        i = i + 1;
    }

    // Append the run to the destination, keeping its order.
    let mut new_to = match world.get_stack(to_stack_id) {
        Some(st) => st.duplicate(),
        None => {
            return Err(EcsError::MissingStack);
        },
    };
    let mut j: usize = 0;
    while j < run.len()
        invariant
            run@ === run_spec,
            j <= run_spec.len(),
            new_to.cards@ === base + run_spec.take(j as int),
            new_to.stack_type == w0.spec_stack(to_stack_id)->Some_0.stack_type,
            new_to.max_cards == w0.spec_stack(to_stack_id)->Some_0.max_cards,
        decreases run_spec.len() - j,
    {
        new_to.add_card(run[j]);
        proof {
            assert(new_to.cards@ =~= base + run_spec.take(j + 1));
        }
        j = j + 1;
    }
    proof {
        assert(run_spec.take(run_spec.len() as int) =~= run_spec);
    }
    let _ = world.add_stack(to_stack_id, new_to);

    // Turn the new top of a tableau source face up.
    if from_stack_id != to_stack_id {
        let mut new_top: Option<EntityId> = None;
        match world.get_stack(from_stack_id) {
            Some(st) => {
                if matches!(st.stack_type, StackType::Tableau { .. }) {
                    new_top = st.top_card();
                }
            },
            None => {},
        }
        match new_top {
            Some(top_id) => {
                let face_down = match world.get_card_info(top_id) {
                    Some(c) => !c.face_up,
                    None => false,
                };
                if face_down {
                    let _ = flip_card(world, top_id);
                }
            },
            None => {},
        }
    }
    proof {
        let rest = ft0.cards@.take(card_index as int);
        assert(stack_cards_ok(w0, from_stack_id));
        if from_stack_id != to_stack_id && (ft0.stack_type matches StackType::Tableau { .. })
            && rest.len() > 0 {
            let nt = rest.last();
            assert(ft0.cards@.contains(nt)) by {
                assert(rest[rest.len() - 1] == ft0.cards@[rest.len() - 1]);
            }
            let k = choose|k: int| 0 <= k < ft0.cards@.len() && ft0.cards@[k] == nt;
            assert(w0.spec_card(ft0.cards@[k]) is Some);
        }
        assert(move_run_post(w0, *world, card_id, from_stack_id, to_stack_id));
        lemma_move_run_preserves_stacks_wf(w0, *world, card_id, from_stack_id, to_stack_id);
        if w0.boxes_wf() {
            assert forall|o: EntityId| crate::world::transform_bounded(
                #[trigger] world.spec_transform(o),
            ) by {
                if run_spec.contains(o) {
                    let k = choose|k: int| 0 <= k < run_spec.len() && run_spec[k] == o;
                    assert(run_card_placed(w0, *world, run_spec[k], anchor, to_type, base.len() + k));
                    assert(crate::world::transform_bounded(w0.spec_transform(run_spec[k])));
                } else {
                    assert(world.spec_transform(o) == w0.spec_transform(o));
                    assert(crate::world::transform_bounded(w0.spec_transform(o)));
                }
            }
            assert forall|o: EntityId| crate::world::renderable_bounded(
                #[trigger] world.spec_renderable(o),
            ) by {
                assert(world.spec_renderable(o) == w0.spec_renderable(o));
                assert(crate::world::renderable_bounded(w0.spec_renderable(o)));
            }
            assert forall|o: EntityId| crate::world::droppable_bounded(
                #[trigger] world.spec_droppable(o),
            ) by {
                assert(world.spec_droppable(o) == w0.spec_droppable(o));
                assert(crate::world::droppable_bounded(w0.spec_droppable(o)));
            }
        }
    }
    Ok(true)
}

/// Some listed tableau's top card, or the waste's top card, may move to some
/// listed foundation.
pub open spec fn spec_any_auto_move(
    w: World,
    tableau_ids: Seq<EntityId>,
    foundation_ids: Seq<EntityId>,
    waste_id: EntityId,
) -> bool {
    ||| exists|i: int, j: int|
        0 <= i < tableau_ids.len() && 0 <= j < foundation_ids.len() && (w.spec_stack(
            #[trigger] tableau_ids[i],
        ) matches Some(st) && st.cards@.len() > 0 && spec_can_move_to_foundation(
            w,
            st.cards@.last(),
            #[trigger] foundation_ids[j],
        ))
    ||| exists|j: int|
        0 <= j < foundation_ids.len() && (w.spec_stack(waste_id) matches Some(st)
            && st.cards@.len() > 0 && spec_can_move_to_foundation(
            w,
            st.cards@.last(),
            #[trigger] foundation_ids[j],
        ))
}

/// Every card entity carries a transform.
pub open spec fn cards_have_transforms(w: World) -> bool {
    forall|id: EntityId| #[trigger] w.spec_card(id) is Some ==> w.spec_transform(id) is Some
}

/// The data a whole auto-completion pass can touch is present: every card
/// has a transform and every listed foundation has one.
pub open spec fn auto_inputs_ok(w: World, foundation_ids: Seq<EntityId>) -> bool {
    &&& cards_have_transforms(w)
    &&& forall|j: int|
        0 <= j < foundation_ids.len() ==> w.spec_transform(#[trigger] foundation_ids[j]) is Some
}

/// One greedy pass of auto-completion: each listed tableau's top card, then
/// the waste's top card, moves to the first listed foundation that accepts
/// it. Returns whether any card moved; callers repeat the pass until it
/// returns `false`. A pass that moves nothing changes nothing, and it moves
/// something exactly when the entry state offered a legal move; the pass
/// cannot fail while its inputs are complete, and a failure aborts it,
/// leaving a state whose stack invariants still hold.
pub fn auto_complete(
    world: &mut World,
    tableau_ids: &Vec<EntityId>,
    foundation_ids: &Vec<EntityId>,
    waste_id: EntityId,
) -> (r: Result<bool, EcsError>)
    requires
        old(world).wf(),
        stacks_wf(*old(world)),
    ensures
        final(world).wf(),
        stacks_wf(*final(world)),
        r matches Ok(moved) ==> (moved <==> spec_any_auto_move(
            *old(world),
            tableau_ids@,
            foundation_ids@,
            waste_id,
        )),
        r == Ok::<bool, EcsError>(false) ==> *final(world) == *old(world),
        auto_inputs_ok(*old(world), foundation_ids@) ==> r is Ok,
        old(world).boxes_wf() ==> final(world).boxes_wf(),
{
    let mut moved_any_card = false;
    let mut i: usize = 0;
    while i < tableau_ids.len()
        invariant
            world.wf(),
            stacks_wf(*world),
            old(world).wf(),
            stacks_wf(*old(world)),
            i <= tableau_ids@.len(),
            old(world).boxes_wf() ==> world.boxes_wf(),
            auto_inputs_ok(*old(world), foundation_ids@) ==> auto_inputs_ok(
                *world,
                foundation_ids@,
            ),
            !moved_any_card ==> *world == *old(world),
            !moved_any_card ==> forall|i2: int, j2: int|
                0 <= i2 < i && 0 <= j2 < foundation_ids@.len() ==> !(old(world).spec_stack(
                    #[trigger] tableau_ids@[i2],
                ) matches Some(st) && st.cards@.len() > 0 && spec_can_move_to_foundation(
                    *old(world),
                    st.cards@.last(),
                    #[trigger] foundation_ids@[j2],
                )),
            moved_any_card ==> spec_any_auto_move(
                *old(world),
                tableau_ids@,
                foundation_ids@,
                waste_id,
            ),
        decreases tableau_ids@.len() - i,
    {
        let tableau_id = tableau_ids[i];
        let top = match world.get_stack(tableau_id) {
            Some(st) => st.top_card(),
            None => None,
        };
        match top {
            Some(top_card_id) => {
                let mut j: usize = 0;
                let mut done = false;
                while j < foundation_ids.len() && !done
                    invariant
                        world.wf(),
                        stacks_wf(*world),
                        old(world).wf(),
                        stacks_wf(*old(world)),
                        0 <= i < tableau_ids@.len(),
                        tableau_id == tableau_ids@[i as int],
                        j <= foundation_ids@.len(),
                        old(world).boxes_wf() ==> world.boxes_wf(),
                        auto_inputs_ok(*old(world), foundation_ids@) ==> auto_inputs_ok(
                            *world,
                            foundation_ids@,
                        ),
                        !moved_any_card ==> *world == *old(world),
                        moved_any_card ==> spec_any_auto_move(
                            *old(world),
                            tableau_ids@,
                            foundation_ids@,
                            waste_id,
                        ),
                        (!done && !moved_any_card) ==> forall|i2: int, j2: int|
                            0 <= i2 < i && 0 <= j2 < foundation_ids@.len() ==> !(old(
                                world,
                            ).spec_stack(#[trigger] tableau_ids@[i2]) matches Some(st)
                                && st.cards@.len() > 0 && spec_can_move_to_foundation(
                                *old(world),
                                st.cards@.last(),
                                #[trigger] foundation_ids@[j2],
                            )),
                        !done ==> (world.spec_stack(tableau_ids@[i as int]) matches Some(st)
                            && st.cards@.len() > 0 && st.cards@.last() == top_card_id),
                        (!done && !moved_any_card) ==> forall|j2: int|
                            0 <= j2 < j ==> !spec_can_move_to_foundation(
                                *old(world),
                                top_card_id,
                                #[trigger] foundation_ids@[j2],
                            ),
                        done ==> moved_any_card,
                    decreases foundation_ids@.len() - j,
                {
                    let foundation_id = foundation_ids[j];
                    if can_move_to_foundation(world, top_card_id, foundation_id) {
                        proof {
                            if auto_inputs_ok(*old(world), foundation_ids@) {
                                // Complete inputs rule the move's failure out.
                                assert(world.spec_card(top_card_id) is Some);
                                assert(world.spec_transform(top_card_id) is Some);
                                assert(world.spec_transform(foundation_ids@[j as int]) is Some);
                            }
                            if !moved_any_card {
                                let w = *old(world);
                                assert(w.spec_stack(tableau_ids@[i as int]) matches Some(st)
                                    && st.cards@.len() > 0 && spec_can_move_to_foundation(
                                    w,
                                    st.cards@.last(),
                                    foundation_ids@[j as int],
                                ));
                                assert(spec_any_auto_move(
                                    w,
                                    tableau_ids@,
                                    foundation_ids@,
                                    waste_id,
                                ));
                            }
                        }
                        let ghost w_pre = *world;
                        match move_card(world, top_card_id, tableau_id, foundation_id) {
                            Ok(did) => {
                                proof {
                                    if !did {
                                        assert(stacks_wf(*world));
                                    }
                                    if auto_inputs_ok(*old(world), foundation_ids@) {
                                        lemma_move_keeps_auto_inputs(
                                            w_pre,
                                            *world,
                                            top_card_id,
                                            tableau_id,
                                            foundation_id,
                                            foundation_ids@,
                                        );
                                    }
                                }
                            },
                            Err(e) => {
                                proof {
                                    if auto_inputs_ok(*old(world), foundation_ids@) {
                                        assert(false);
                                    }
                                }
                                return Err(e);
                            },
                        }
                        moved_any_card = true;
                        done = true;
                    }
                    j = j + 1;
                }
            },
            None => {},
        }
        proof {
            if !moved_any_card {
                assert forall|i2: int, j2: int|
                    0 <= i2 < i + 1 && 0 <= j2 < foundation_ids@.len() implies !(old(
                    world,
                ).spec_stack(#[trigger] tableau_ids@[i2]) matches Some(st) && st.cards@.len() > 0
                    && spec_can_move_to_foundation(
                    *old(world),
                    st.cards@.last(),
                    #[trigger] foundation_ids@[j2],
                )) by {
                    if i2 == i && old(world).spec_stack(tableau_ids@[i2]) is Some {
                        let st = old(world).spec_stack(tableau_ids@[i2])->Some_0;
                        if st.cards@.len() > 0 {
                            assert(!spec_can_move_to_foundation(
                                *old(world),
                                st.cards@.last(),
                                foundation_ids@[j2],
                            ));
                        }
                    }
                }
            }
        }
        i = i + 1;
    }

    proof {
        if !moved_any_card && spec_any_tableau_move(*old(world), tableau_ids@, foundation_ids@) {
            let (i2, j2): (int, int) = choose|i2: int, j2: int|
                0 <= i2 < tableau_ids@.len() && 0 <= j2 < foundation_ids@.len() && (old(
                    world,
                ).spec_stack(#[trigger] tableau_ids@[i2]) matches Some(st) && st.cards@.len() > 0
                    && spec_can_move_to_foundation(
                    *old(world),
                    st.cards@.last(),
                    #[trigger] foundation_ids@[j2],
                ));
            assert(false);
        }
    }

    // The waste's top card, if any, may also go up.
    let waste_top = match world.get_stack(waste_id) {
        Some(st) => st.top_card(),
        None => None,
    };
    match waste_top {
        Some(top_card_id) => {
            let mut j: usize = 0;
            let mut done = false;
            while j < foundation_ids.len() && !done
                invariant
                    world.wf(),
                    stacks_wf(*world),
                    old(world).wf(),
                    stacks_wf(*old(world)),
                    j <= foundation_ids@.len(),
                    old(world).boxes_wf() ==> world.boxes_wf(),
                    auto_inputs_ok(*old(world), foundation_ids@) ==> auto_inputs_ok(
                        *world,
                        foundation_ids@,
                    ),
                    !moved_any_card ==> *world == *old(world),
                    moved_any_card ==> spec_any_auto_move(
                        *old(world),
                        tableau_ids@,
                        foundation_ids@,
                        waste_id,
                    ),
                    !moved_any_card ==> !spec_any_tableau_move(
                        *old(world),
                        tableau_ids@,
                        foundation_ids@,
                    ),
                    !done ==> (world.spec_stack(waste_id) matches Some(st) && st.cards@.len() > 0
                        && st.cards@.last() == top_card_id),
                    (!done && !moved_any_card) ==> forall|j2: int|
                        0 <= j2 < j ==> !spec_can_move_to_foundation(
                            *old(world),
                            top_card_id,
                            #[trigger] foundation_ids@[j2],
                        ),
                    done ==> moved_any_card,
                decreases foundation_ids@.len() - j,
            {
                let foundation_id = foundation_ids[j];
                if can_move_to_foundation(world, top_card_id, foundation_id) {
                    proof {
                        if auto_inputs_ok(*old(world), foundation_ids@) {
                            assert(world.spec_card(top_card_id) is Some);
                            assert(world.spec_transform(top_card_id) is Some);
                            assert(world.spec_transform(foundation_ids@[j as int]) is Some);
                        }
                        if !moved_any_card {
                            let w = *old(world);
                            assert(w.spec_stack(waste_id) matches Some(st) && st.cards@.len() > 0
                                && spec_can_move_to_foundation(
                                w,
                                st.cards@.last(),
                                foundation_ids@[j as int],
                            ));
                            assert(spec_any_auto_move(w, tableau_ids@, foundation_ids@, waste_id));
                        }
                    }
                    let ghost w_pre = *world;
                    match move_card(world, top_card_id, waste_id, foundation_id) {
                        Ok(did) => {
                            proof {
                                if !did {
                                    assert(stacks_wf(*world));
                                }
                                if auto_inputs_ok(*old(world), foundation_ids@) {
                                    lemma_move_keeps_auto_inputs(
                                        w_pre,
                                        *world,
                                        top_card_id,
                                        waste_id,
                                        foundation_id,
                                        foundation_ids@,
                                    );
                                }
                            }
                        },
                        Err(e) => {
                            proof {
                                if auto_inputs_ok(*old(world), foundation_ids@) {
                                    assert(false);
                                }
                            }
                            return Err(e);
                        },
                    }
                    moved_any_card = true;
                    done = true;
                }
                j = j + 1;
            }
        },
        None => {},
    }
    proof {
        if !moved_any_card {
            assert(!spec_any_auto_move(*old(world), tableau_ids@, foundation_ids@, waste_id));
        }
    }
    Ok(moved_any_card)
}

/// A completed single-card move keeps the auto-completion pass's inputs
/// complete: no card identity disappears, the moved card keeps a transform,
/// and no other transform changes.
pub proof fn lemma_move_keeps_auto_inputs(
    w0: World,
    w1: World,
    card_id: EntityId,
    from_id: EntityId,
    to_id: EntityId,
    foundation_ids: Seq<EntityId>,
)
    requires
        w1 == w0 || move_single_post(w0, w1, card_id, from_id, to_id),
        auto_inputs_ok(w0, foundation_ids),
    ensures
        auto_inputs_ok(w1, foundation_ids),
{
    if w1 != w0 {
        assert forall|id: EntityId| #[trigger]
            w1.spec_card(id) is Some implies w1.spec_transform(id) is Some by {
            assert(w0.spec_card(id) is Some || w1.spec_card(id) == w0.spec_card(id));
            if id != card_id {
                assert(w1.spec_transform(id) == w0.spec_transform(id));
            }
        }
        assert forall|j: int|
            0 <= j < foundation_ids.len() implies w1.spec_transform(
            #[trigger] foundation_ids[j],
        ) is Some by {
            if foundation_ids[j] != card_id {
                assert(w1.spec_transform(foundation_ids[j]) == w0.spec_transform(
                    foundation_ids[j],
                ));
            }
        }
    }
}

/// Some listed tableau's top card may move to some listed foundation.
pub open spec fn spec_any_tableau_move(
    w: World,
    tableau_ids: Seq<EntityId>,
    foundation_ids: Seq<EntityId>,
) -> bool {
    exists|i: int, j: int|
        0 <= i < tableau_ids.len() && 0 <= j < foundation_ids.len() && (w.spec_stack(
            #[trigger] tableau_ids[i],
        ) matches Some(st) && st.cards@.len() > 0 && spec_can_move_to_foundation(
            w,
            st.cards@.last(),
            #[trigger] foundation_ids[j],
        ))
}

//
// Laws of the placement rules.
//

/// An empty tableau accepts exactly the kings; a non-empty tableau accepts
/// exactly the cards of the other color one rank below its top card.
pub proof fn lemma_tableau_acceptance(card: CardInfo, top: Option<CardInfo>)
    ensures
        top is None ==> (tableau_accepts(card, top) <==> card.rank == 12),
        top matches Some(t) ==> (tableau_accepts(card, top) <==> (card.color != t.color && card.rank
            + 1 == t.rank)),
{
}

/// An empty foundation of a suit accepts exactly that suit's ace; a
/// non-empty foundation accepts exactly the card of its suit one rank above
/// its top card.
pub proof fn lemma_foundation_acceptance(card: CardInfo, suit: usize, top: Option<CardInfo>)
    ensures
        top is None ==> (foundation_accepts(card, suit, top) <==> (card.rank == 0 && card.suit
            as usize == suit)),
        top matches Some(t) ==> (foundation_accepts(card, suit, top) <==> (card.suit as usize
            == suit && card.rank == t.rank + 1)),
{
}

/// The win predicate holds exactly when each listed foundation holds 13
/// cards with a king on top: it fails as soon as one foundation has fewer
/// cards or another top rank.
pub proof fn lemma_win_characterisation(w: World, foundation_ids: Seq<EntityId>, i: int)
    requires
        0 <= i < foundation_ids.len(),
        spec_game_clear(w, foundation_ids),
        w.spec_stack(foundation_ids[i]) matches Some(st) && st.stack_type matches
            StackType::Foundation { .. },
    ensures
        w.spec_stack(foundation_ids[i])->Some_0.cards@.len() == 13,
        w.spec_card(w.spec_stack(foundation_ids[i])->Some_0.cards@.last()) matches Some(top)
            && top.rank == 12,
{
    assert(spec_foundation_complete(w, foundation_ids[i]));
}

} // verus!
