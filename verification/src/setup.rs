//! One-time board setup: the shuffled deck, the stock, the waste, seven
//! dealt tableau columns and four empty foundations.

use vstd::prelude::*;

use crate::card::{create_deck, flip_card, set_card_position, shuffle_deck};
use crate::component::{
    CardInfo, ClickHandlerType, Clickable, Droppable, StackContainer, StackType, Transform,
};
use crate::constants::{
    CARD_HEIGHT, CARD_WIDTH, FOUNDATION_START_X, FOUNDATION_START_Y, PILE_SPACING_X,
    STACK_OFFSET_Y, STOCK_X, STOCK_Y, TABLEAU_START_X, TABLEAU_START_Y, WASTE_X, WASTE_Y,
};
use crate::solitaire::{stack_anchor_ok, stack_cards_ok, stack_has_card, stacks_wf};
use crate::utils::Vec2;
use crate::world::{
    cards_eq, clickables_eq, draggables_eq, droppables_eq, entities_eq, renderables_eq, stacks_eq,
    transforms_eq, World,
};
use crate::{EcsError, EntityId, ANCHOR_LIMIT, MAX_ENTITIES};

verus! {

/// The capacity a fresh stack of the given kind carries: foundations cap at
/// thirteen cards, the other kinds are unbounded.
pub open spec fn spec_default_cap(t: StackType) -> Option<usize> {
    match t {
        StackType::Foundation { .. } => Some(13usize),
        _ => None,
    }
}

/// The entities the board setup hands back to its caller.
pub struct BoardLayout {
    pub stock: EntityId,
    pub waste: EntityId,
    pub tableaus: Vec<EntityId>,
    pub foundations: Vec<EntityId>,
}

/// Builds one pile entity: a transform at the anchor, an empty stack of the
/// given kind, a click handler, and — for the piles cards are dropped on — a
/// card-sized drop target. Fails exactly when no entity can be created, and
/// then changes nothing.
fn create_pile(
    world: &mut World,
    x: i64,
    y: i64,
    stack_type: StackType,
    handler: ClickHandlerType,
    droppable: bool,
) -> (r: Result<EntityId, EcsError>)
    requires
        old(world).wf(),
        -ANCHOR_LIMIT <= x <= ANCHOR_LIMIT,
        -ANCHOR_LIMIT <= y <= ANCHOR_LIMIT,
    ensures
        final(world).wf(),
        (r is Ok) <==> (old(world).alive_seq().len() < MAX_ENTITIES && old(world).next_id()
            < usize::MAX),
        r is Err ==> *final(world) == *old(world) && r == Err::<EntityId, EcsError>(
            EcsError::CapacityReached,
        ),
        r matches Ok(id) ==> {
            &&& id == old(world).next_id()
            &&& !old(world).spec_alive(id)
            &&& final(world).alive_seq() === old(world).alive_seq().push(id)
            &&& final(world).next_id() == id + 1
            &&& final(world).pending_removal() === old(world).pending_removal()
            &&& final(world).spec_transform(id) == Some(
                Transform {
                    position: Vec2 { x, y },
                    scale: Vec2 { x: 1000i64, y: 1000i64 },
                    rotation: 0i64,
                    z_index: 0i64,
                },
            )
            &&& final(world).spec_stack(id) matches Some(st) && st.stack_type == stack_type
                && st.cards@.len() == 0 && st.max_cards == spec_default_cap(stack_type)
            &&& final(world).spec_clickable(id) == Some(
                Clickable { is_hovering: false, was_clicked: false, click_handler: handler },
            )
            &&& (final(world).spec_droppable(id) is Some) == droppable
            &&& (droppable ==> (final(world).spec_droppable(id) matches Some(d) && d.width
                == CARD_WIDTH && d.height == CARD_HEIGHT))
            &&& final(world).spec_card(id) is None
            &&& final(world).spec_renderable(id) is None
            &&& final(world).spec_draggable(id) is None
            &&& forall|o: EntityId|
                o != id ==> {
                    &&& final(world).spec_transform(o) == old(world).spec_transform(o)
                    &&& final(world).spec_card(o) == old(world).spec_card(o)
                    &&& final(world).spec_renderable(o) == old(world).spec_renderable(o)
                    &&& final(world).spec_draggable(o) == old(world).spec_draggable(o)
                    &&& final(world).spec_clickable(o) == old(world).spec_clickable(o)
                    &&& final(world).spec_stack(o) == old(world).spec_stack(o)
                    &&& final(world).spec_droppable(o) == old(world).spec_droppable(o)
                }
        },
{
    let entity_id = match world.create_entity() {
        Ok(id) => id,
        Err(e) => {
            return Err(e);
        },
    };
    proof {
        assert(world.spec_alive(entity_id)) by {
            assert(world.alive_seq()[world.alive_seq().len() - 1] == entity_id);
        }
    }
    let _ = world.add_transform(entity_id, Transform::new(x, y));
    let _ = world.add_stack(entity_id, StackContainer::new(stack_type));
    let _ = world.add_clickable(entity_id, Clickable::new(handler));
    if droppable {
        let _ = world.add_droppable(entity_id, Droppable::new(CARD_WIDTH, CARD_HEIGHT));
    }
    Ok(entity_id)
}

/// Builds the stock pile entity.
pub fn create_stock(world: &mut World) -> (r: Result<EntityId, EcsError>)
    requires
        old(world).wf(),
    ensures
        final(world).wf(),
        (r is Ok) <==> (old(world).alive_seq().len() < MAX_ENTITIES && old(world).next_id()
            < usize::MAX),
        r is Err ==> *final(world) == *old(world),
        r matches Ok(id) ==> {
            &&& id == old(world).next_id()
            &&& !old(world).spec_alive(id)
            &&& final(world).alive_seq() === old(world).alive_seq().push(id)
            &&& final(world).next_id() == id + 1
            &&& final(world).pending_removal() === old(world).pending_removal()
            &&& (final(world).spec_stack(id) matches Some(st) && st.stack_type == StackType::Stock
                && st.cards@.len() == 0 && st.max_cards is None)
            &&& (final(world).spec_transform(id) matches Some(t) && t.position.x == STOCK_X
                && t.position.y == STOCK_Y && t.z_index == 0)
            &&& final(world).spec_card(id) is None
            &&& final(world).spec_renderable(id) is None
            &&& final(world).spec_draggable(id) is None
            &&& final(world).spec_droppable(id) is None
            &&& forall|o: EntityId|
                o != id ==> {
                    &&& final(world).spec_transform(o) == old(world).spec_transform(o)
                    &&& final(world).spec_card(o) == old(world).spec_card(o)
                    &&& final(world).spec_renderable(o) == old(world).spec_renderable(o)
                    &&& final(world).spec_draggable(o) == old(world).spec_draggable(o)
                    &&& final(world).spec_clickable(o) == old(world).spec_clickable(o)
                    &&& final(world).spec_stack(o) == old(world).spec_stack(o)
                    &&& final(world).spec_droppable(o) == old(world).spec_droppable(o)
                }
        },
{
    create_pile(world, STOCK_X, STOCK_Y, StackType::Stock, ClickHandlerType::DrawFromStock, false)
}

/// Builds the seven tableau pile entities, side by side.
pub fn create_tableau(world: &mut World) -> (r: Result<Vec<EntityId>, EcsError>)
    requires
        old(world).wf(),
        old(world).alive_seq().len() + 7 <= MAX_ENTITIES,
        old(world).next_id() + 7 <= usize::MAX,
    ensures
        final(world).wf(),
        r is Ok,
        r matches Ok(ids) ==> {
            &&& ids@.len() == 7
            &&& forall|k: int| 0 <= k < 7 ==> ids@[k] == old(world).next_id() + k
            &&& final(world).next_id() == old(world).next_id() + 7
            &&& final(world).alive_seq() === old(world).alive_seq() + ids@
            &&& final(world).pending_removal() === old(world).pending_removal()
            &&& forall|k: int|
                0 <= k < 7 ==> (final(world).spec_stack(#[trigger] ids@[k]) matches Some(st)
                    && st.stack_type == (StackType::Tableau { column: k as usize })
                    && st.cards@.len() == 0 && st.max_cards is None)
            &&& forall|k: int|
                0 <= k < 7 ==> (final(world).spec_transform(#[trigger] ids@[k]) matches Some(t)
                    && t.position.x == TABLEAU_START_X + k * PILE_SPACING_X && t.position.y
                    == TABLEAU_START_Y && t.z_index == 0)
            &&& forall|k: int|
                0 <= k < 7 ==> final(world).spec_card(#[trigger] ids@[k]) is None && (final(world).spec_droppable(ids@[k]) matches Some(d) && d.width == CARD_WIDTH && d.height
                    == CARD_HEIGHT) && final(world).spec_renderable(ids@[k]) is None
            &&& forall|o: EntityId|
                !ids@.contains(o) ==> {
                    &&& final(world).spec_transform(o) == old(world).spec_transform(o)
                    &&& final(world).spec_card(o) == old(world).spec_card(o)
                    &&& final(world).spec_renderable(o) == old(world).spec_renderable(o)
                    &&& final(world).spec_draggable(o) == old(world).spec_draggable(o)
                    &&& final(world).spec_clickable(o) == old(world).spec_clickable(o)
                    &&& final(world).spec_stack(o) == old(world).spec_stack(o)
                    &&& final(world).spec_droppable(o) == old(world).spec_droppable(o)
                }
        },
{
    let mut ids: Vec<EntityId> = Vec::new();
    let mut k: usize = 0;
    while k < 7
        invariant
            world.wf(),
            k <= 7,
            ids@.len() == k,
            world.next_id() == old(world).next_id() + k,
            world.alive_seq() === old(world).alive_seq() + ids@,
            world.pending_removal() === old(world).pending_removal(),
            old(world).alive_seq().len() + 7 <= MAX_ENTITIES,
            old(world).next_id() + 7 <= usize::MAX,
            forall|j: int| 0 <= j < k ==> ids@[j] == old(world).next_id() + j,
            forall|j: int|
                0 <= j < k ==> (world.spec_stack(#[trigger] ids@[j]) matches Some(st)
                    && st.stack_type == (StackType::Tableau { column: j as usize })
                    && st.cards@.len() == 0 && st.max_cards is None),
            forall|j: int|
                0 <= j < k ==> (world.spec_transform(#[trigger] ids@[j]) matches Some(t)
                    && t.position.x == TABLEAU_START_X + j * PILE_SPACING_X && t.position.y
                    == TABLEAU_START_Y && t.z_index == 0),
            forall|j: int|
                0 <= j < k ==> world.spec_card(#[trigger] ids@[j]) is None && (world.spec_droppable(
                    ids@[j],
                ) matches Some(d) && d.width == CARD_WIDTH && d.height == CARD_HEIGHT)
                    && world.spec_renderable(ids@[j]) is None,
            forall|o: EntityId|
                !ids@.contains(o) ==> {
                    &&& world.spec_transform(o) == old(world).spec_transform(o)
                    &&& world.spec_card(o) == old(world).spec_card(o)
                    &&& world.spec_renderable(o) == old(world).spec_renderable(o)
                    &&& world.spec_draggable(o) == old(world).spec_draggable(o)
                    &&& world.spec_clickable(o) == old(world).spec_clickable(o)
                    &&& world.spec_stack(o) == old(world).spec_stack(o)
                    &&& world.spec_droppable(o) == old(world).spec_droppable(o)
                },
        decreases 7 - k,
    {
        let ghost pre_ids = ids@;
        let x = TABLEAU_START_X + (k as i64) * PILE_SPACING_X;
        let tableau_id = match create_pile(
            world,
            x,
            TABLEAU_START_Y,
            StackType::Tableau { column: k },
            ClickHandlerType::DrawFromTableau { column: k },
            true,
        ) {
            Ok(id) => id,
            Err(e) => {
                proof {
                    assert(false);
                }
                return Err(e);
            },
        };
        ids.push(tableau_id);
        proof {
            assert(world.alive_seq() =~= old(world).alive_seq() + ids@) by {
                assert(world.alive_seq() =~= (old(world).alive_seq() + pre_ids).push(tableau_id));
            }
            assert forall|o: EntityId| !ids@.contains(o) implies {
                &&& world.spec_transform(o) == old(world).spec_transform(o)
                &&& world.spec_card(o) == old(world).spec_card(o)
                &&& world.spec_renderable(o) == old(world).spec_renderable(o)
                &&& world.spec_draggable(o) == old(world).spec_draggable(o)
                &&& world.spec_clickable(o) == old(world).spec_clickable(o)
                &&& world.spec_stack(o) == old(world).spec_stack(o)
                &&& world.spec_droppable(o) == old(world).spec_droppable(o)
            } by {
                assert(!pre_ids.contains(o)) by {
                    if pre_ids.contains(o) {
                        let i = choose|i: int| 0 <= i < pre_ids.len() && pre_ids[i] == o;
                        assert(ids@[i] == o);
                    }
                }
                assert(o != tableau_id) by {
                    assert(ids@[ids@.len() - 1] == tableau_id);
                }
            }
            assert forall|j: int|
                0 <= j < k + 1 implies (world.spec_stack(#[trigger] ids@[j]) matches Some(st)
                && st.stack_type == (StackType::Tableau { column: j as usize }) && st.cards@.len()
                == 0 && st.max_cards is None) && (world.spec_transform(ids@[j]) matches Some(t)
                && t.position.x == TABLEAU_START_X + j * PILE_SPACING_X && t.position.y
                == TABLEAU_START_Y && t.z_index == 0) && world.spec_card(ids@[j]) is None && world.spec_droppable(
                ids@[j],
            ) is Some && world.spec_renderable(ids@[j]) is None by {
                if j < k {
                    assert(ids@[j] == pre_ids[j]);
                    assert(ids@[j] != tableau_id);
                } else {
                    assert(ids@[j] == tableau_id);
                }
            }
        }
        k = k + 1;
    }
    Ok(ids)
}

/// Builds the four foundation pile entities, side by side, one per suit.
pub fn create_foundations(world: &mut World) -> (r: Result<Vec<EntityId>, EcsError>)
    requires
        old(world).wf(),
        old(world).alive_seq().len() + 4 <= MAX_ENTITIES,
        old(world).next_id() + 4 <= usize::MAX,
    ensures
        final(world).wf(),
        r is Ok,
        r matches Ok(ids) ==> {
            &&& ids@.len() == 4
            &&& forall|k: int| 0 <= k < 4 ==> ids@[k] == old(world).next_id() + k
            &&& final(world).next_id() == old(world).next_id() + 4
            &&& final(world).alive_seq() === old(world).alive_seq() + ids@
            &&& final(world).pending_removal() === old(world).pending_removal()
            &&& forall|k: int|
                0 <= k < 4 ==> (final(world).spec_stack(#[trigger] ids@[k]) matches Some(st)
                    && st.stack_type == (StackType::Foundation { suit: k as usize })
                    && st.cards@.len() == 0 && st.max_cards == Some(13usize))
            &&& forall|k: int|
                0 <= k < 4 ==> (final(world).spec_transform(#[trigger] ids@[k]) matches Some(t)
                    && t.position.x == FOUNDATION_START_X + k * PILE_SPACING_X && t.position.y
                    == FOUNDATION_START_Y && t.z_index == 0)
            &&& forall|k: int|
                0 <= k < 4 ==> final(world).spec_card(#[trigger] ids@[k]) is None && (final(world).spec_droppable(ids@[k]) matches Some(d) && d.width == CARD_WIDTH && d.height
                    == CARD_HEIGHT) && final(world).spec_renderable(ids@[k]) is None
            &&& forall|o: EntityId|
                !ids@.contains(o) ==> {
                    &&& final(world).spec_transform(o) == old(world).spec_transform(o)
                    &&& final(world).spec_card(o) == old(world).spec_card(o)
                    &&& final(world).spec_renderable(o) == old(world).spec_renderable(o)
                    &&& final(world).spec_draggable(o) == old(world).spec_draggable(o)
                    &&& final(world).spec_clickable(o) == old(world).spec_clickable(o)
                    &&& final(world).spec_stack(o) == old(world).spec_stack(o)
                    &&& final(world).spec_droppable(o) == old(world).spec_droppable(o)
                }
        },
{
    let mut ids: Vec<EntityId> = Vec::new();
    let mut k: usize = 0;
    while k < 4
        invariant
            world.wf(),
            k <= 4,
            ids@.len() == k,
            world.next_id() == old(world).next_id() + k,
            world.alive_seq() === old(world).alive_seq() + ids@,
            world.pending_removal() === old(world).pending_removal(),
            old(world).alive_seq().len() + 4 <= MAX_ENTITIES,
            old(world).next_id() + 4 <= usize::MAX,
            forall|j: int| 0 <= j < k ==> ids@[j] == old(world).next_id() + j,
            forall|j: int|
                0 <= j < k ==> (world.spec_stack(#[trigger] ids@[j]) matches Some(st)
                    && st.stack_type == (StackType::Foundation { suit: j as usize })
                    && st.cards@.len() == 0 && st.max_cards == Some(13usize)),
            forall|j: int|
                0 <= j < k ==> (world.spec_transform(#[trigger] ids@[j]) matches Some(t)
                    && t.position.x == FOUNDATION_START_X + j * PILE_SPACING_X && t.position.y
                    == FOUNDATION_START_Y && t.z_index == 0),
            forall|j: int|
                0 <= j < k ==> world.spec_card(#[trigger] ids@[j]) is None && (world.spec_droppable(
                    ids@[j],
                ) matches Some(d) && d.width == CARD_WIDTH && d.height == CARD_HEIGHT)
                    && world.spec_renderable(ids@[j]) is None,
            forall|o: EntityId|
                !ids@.contains(o) ==> {
                    &&& world.spec_transform(o) == old(world).spec_transform(o)
                    &&& world.spec_card(o) == old(world).spec_card(o)
                    &&& world.spec_renderable(o) == old(world).spec_renderable(o)
                    &&& world.spec_draggable(o) == old(world).spec_draggable(o)
                    &&& world.spec_clickable(o) == old(world).spec_clickable(o)
                    &&& world.spec_stack(o) == old(world).spec_stack(o)
                    &&& world.spec_droppable(o) == old(world).spec_droppable(o)
                },
        decreases 4 - k,
    {
        let ghost pre_ids = ids@;
        let x = FOUNDATION_START_X + (k as i64) * PILE_SPACING_X;
        let foundation_id = match create_pile(
            world,
            x,
            FOUNDATION_START_Y,
            StackType::Foundation { suit: k },
            ClickHandlerType::DrawFromFoundation { stack: k },
            true,
        ) {
            Ok(id) => id,
            Err(e) => {
                proof {
                    assert(false);
                }
                return Err(e);
            },
        };
        ids.push(foundation_id);
        proof {
            assert(world.alive_seq() =~= old(world).alive_seq() + ids@) by {
                assert(world.alive_seq() =~= (old(world).alive_seq() + pre_ids).push(
                    foundation_id,
                ));
            }
            assert forall|o: EntityId| !ids@.contains(o) implies {
                &&& world.spec_transform(o) == old(world).spec_transform(o)
                &&& world.spec_card(o) == old(world).spec_card(o)
                &&& world.spec_renderable(o) == old(world).spec_renderable(o)
                &&& world.spec_draggable(o) == old(world).spec_draggable(o)
                &&& world.spec_clickable(o) == old(world).spec_clickable(o)
                &&& world.spec_stack(o) == old(world).spec_stack(o)
                &&& world.spec_droppable(o) == old(world).spec_droppable(o)
            } by {
                assert(!pre_ids.contains(o)) by {
                    if pre_ids.contains(o) {
                        let i = choose|i: int| 0 <= i < pre_ids.len() && pre_ids[i] == o;
                        assert(ids@[i] == o);
                    }
                }
                assert(o != foundation_id) by {
                    assert(ids@[ids@.len() - 1] == foundation_id);
                }
            }
            assert forall|j: int|
                0 <= j < k + 1 implies (world.spec_stack(#[trigger] ids@[j]) matches Some(st)
                && st.stack_type == (StackType::Foundation { suit: j as usize }) && st.cards@.len()
                == 0 && st.max_cards == Some(13usize)) && (world.spec_transform(ids@[j])
                matches Some(t) && t.position.x == FOUNDATION_START_X + j * PILE_SPACING_X
                && t.position.y == FOUNDATION_START_Y) && world.spec_card(ids@[j]) is None
                && (world.spec_droppable(ids@[j]) matches Some(d) && d.width == CARD_WIDTH
                && d.height == CARD_HEIGHT) && world.spec_renderable(ids@[j]) is None by {
                if j < k {
                    assert(ids@[j] == pre_ids[j]);
                    assert(ids@[j] != foundation_id);
                } else {
                    assert(ids@[j] == foundation_id);
                }
            }
        }
        k = k + 1;
    }
    Ok(ids)
}

/// Builds the waste pile entity.
pub fn create_waste(world: &mut World) -> (r: Result<EntityId, EcsError>)
    requires
        old(world).wf(),
    ensures
        final(world).wf(),
        (r is Ok) <==> (old(world).alive_seq().len() < MAX_ENTITIES && old(world).next_id()
            < usize::MAX),
        r is Err ==> *final(world) == *old(world),
        r matches Ok(id) ==> {
            &&& id == old(world).next_id()
            &&& !old(world).spec_alive(id)
            &&& final(world).alive_seq() === old(world).alive_seq().push(id)
            &&& final(world).next_id() == id + 1
            &&& final(world).pending_removal() === old(world).pending_removal()
            &&& (final(world).spec_stack(id) matches Some(st) && st.stack_type == StackType::Waste
                && st.cards@.len() == 0 && st.max_cards is None)
            &&& (final(world).spec_transform(id) matches Some(t) && t.position.x == WASTE_X
                && t.position.y == WASTE_Y && t.z_index == 0)
            &&& final(world).spec_card(id) is None
            &&& final(world).spec_renderable(id) is None
            &&& final(world).spec_draggable(id) is None
            &&& final(world).spec_droppable(id) is None
            &&& forall|o: EntityId|
                o != id ==> {
                    &&& final(world).spec_transform(o) == old(world).spec_transform(o)
                    &&& final(world).spec_card(o) == old(world).spec_card(o)
                    &&& final(world).spec_renderable(o) == old(world).spec_renderable(o)
                    &&& final(world).spec_draggable(o) == old(world).spec_draggable(o)
                    &&& final(world).spec_clickable(o) == old(world).spec_clickable(o)
                    &&& final(world).spec_stack(o) == old(world).spec_stack(o)
                    &&& final(world).spec_droppable(o) == old(world).spec_droppable(o)
                }
        },
{
    create_pile(world, WASTE_X, WASTE_Y, StackType::Waste, ClickHandlerType::DrawFromWaste, false)
}

} // verus!

verus! {

/// One dealt tableau column: its stack holds `col + 1` distinct fresh card
/// entities, all face down but the top one.
pub open spec fn tableau_column_post(w0: World, w1: World, tid: EntityId, col: int) -> bool {
    w1.spec_stack(tid) matches Some(st) && {
        &&& st.stack_type == (StackType::Tableau { column: col as usize })
        &&& st.cards@.len() == col + 1
        &&& st.cards@.no_duplicates()
        &&& forall|j: int|
            0 <= j <= col ==> (w1.spec_card(#[trigger] st.cards@[j]) matches Some(c) && c.face_up
                == (j == col) && !w0.spec_alive(st.cards@[j]))
    }
}

/// Some board card carries the given suit and rank.
pub open spec fn pair_on_board(
    w: World,
    stock_id: EntityId,
    tabs: Seq<EntityId>,
    s: int,
    r: int,
) -> bool {
    exists|id: EntityId|
        #[trigger] board_card(w, stock_id, tabs, id) && (w.spec_card(id) matches Some(c) && c.suit
            == s && c.rank == r)
}

/// The entity is one of the board's dealt cards: in the stock or in one of
/// the columns.
pub open spec fn board_card(w: World, stock_id: EntityId, tabs: Seq<EntityId>, id: EntityId) -> bool {
    ||| stack_has_card(w, stock_id, id)
    ||| exists|k: int| 0 <= k < 7 && stack_has_card(w, #[trigger] tabs[k], id)
}

/// What the one-time board setup leaves behind: a stock of 24 fresh
/// face-down cards, an empty waste, seven tableau columns holding one to
/// seven fresh cards each with exactly the top card face up, four empty
/// foundations capped at thirteen, and no other card entities beyond those
/// the world already had.
pub open spec fn board_post(
    w0: World,
    w1: World,
    stock_id: EntityId,
    waste_id: EntityId,
    tabs: Seq<EntityId>,
    founds: Seq<EntityId>,
) -> bool {
    &&& w1.spec_stack(stock_id) matches Some(st) && st.stack_type == StackType::Stock
        && st.cards@.len() == 24 && st.cards@.no_duplicates() && forall|j: int|
        0 <= j < 24 ==> (w1.spec_card(#[trigger] st.cards@[j]) matches Some(c) && !c.face_up
            && !w0.spec_alive(st.cards@[j]))
    &&& w1.spec_stack(waste_id) matches Some(st) && st.stack_type == StackType::Waste
        && st.cards@.len() == 0
    &&& tabs.len() == 7
    &&& forall|k: int| 0 <= k < 7 ==> tableau_column_post(w0, w1, #[trigger] tabs[k], k)
    &&& founds.len() == 4
    &&& forall|k: int|
        0 <= k < 4 ==> (w1.spec_stack(#[trigger] founds[k]) matches Some(st) && st.stack_type == (
        StackType::Foundation { suit: k as usize }) && st.cards@.len() == 0 && st.max_cards
            == Some(13usize))
    &&& forall|id: EntityId|
        #[trigger] w1.spec_card(id) is Some <==> (w0.spec_card(id) is Some || stack_has_card(
            w1,
            stock_id,
            id,
        ) || exists|k: int| 0 <= k < 7 && stack_has_card(w1, #[trigger] tabs[k], id))
    &&& forall|o: EntityId| w0.spec_card(o) is Some ==> #[trigger] w1.spec_card(o) == w0.spec_card(o)
    &&& forall|o: EntityId|
        w0.spec_stack(o) is Some ==> #[trigger] w1.spec_stack(o) == w0.spec_stack(o)
    &&& w1.pending_removal() === w0.pending_removal()
    &&& w1.alive_seq().len() == w0.alive_seq().len() + 65
    &&& forall|id: EntityId|
        #[trigger] board_card(w1, stock_id, tabs, id) ==> ((w1.spec_card(id) matches Some(c)
            && w0.next_id() <= id < w0.next_id() + 52 && c.suit == crate::card::deck_card(
            id - w0.next_id(),
        ).suit && c.rank == crate::card::deck_card(id - w0.next_id()).rank))
    &&& forall|s: int, r: int|
        0 <= s < 4 && 0 <= r < 13 ==> #[trigger] pair_on_board(w1, stock_id, tabs, s, r)
    &&& forall|id1: EntityId, id2: EntityId|
        #[trigger] board_card(w1, stock_id, tabs, id1) && #[trigger] board_card(
            w1,
            stock_id,
            tabs,
            id2,
        ) && w1.spec_card(id1)->Some_0.suit == w1.spec_card(id2)->Some_0.suit && w1.spec_card(
            id1,
        )->Some_0.rank == w1.spec_card(id2)->Some_0.rank ==> id1 == id2
}

/// Builds the whole board on the given world: a shuffled 52-card deck, the
/// stock holding the 24 undealt cards, an empty waste, seven columns dealt
/// one to seven cards (only the top card face up) and four empty
/// foundations.
#[verifier::rlimit(100)]
#[verifier::spinoff_prover]
pub fn setup_solitaire_board(world: &mut World) -> (r: Result<BoardLayout, EcsError>)
    requires
        old(world).wf(),
        stacks_wf(*old(world)),
        old(world).boxes_wf(),
        old(world).alive_seq().len() + 65 <= MAX_ENTITIES,
        old(world).next_id() + 65 <= usize::MAX,
    ensures
        final(world).wf(),
        stacks_wf(*final(world)),
        final(world).boxes_wf(),
        r is Ok,
        r matches Ok(b) ==> board_post(
            *old(world),
            *final(world),
            b.stock,
            b.waste,
            b.tableaus@,
            b.foundations@,
        ),
{
    let ghost w_init = *old(world);

    // The deck, shuffled.
    let mut deck = match create_deck(world, STOCK_X, STOCK_Y) {
        Ok(d) => d,
        Err(e) => {
            proof {
                assert(false);
            }
            return Err(e);
        },
    };
    let ghost deck_fresh = deck@;
    shuffle_deck(&mut deck);
    let ghost deck0 = deck@;
    proof {
        deck_fresh.to_multiset_ensures();
        deck0.to_multiset_ensures();
        assert(deck0.len() == 52);
        assert forall|id: EntityId| deck0.contains(id) <==> deck_fresh.contains(id) by {
            assert(deck0.to_multiset().contains(id) <==> deck0.contains(id));
            assert(deck_fresh.to_multiset().contains(id) <==> deck_fresh.contains(id));
        }
        deck_fresh.lemma_multiset_has_no_duplicates();
        deck0.lemma_multiset_has_no_duplicates_conv();
        assert(deck0.no_duplicates());
    }

    // The piles.
    let stock_id = match create_stock(world) {
        Ok(id) => id,
        Err(e) => {
            proof {
                assert(false);
            }
            return Err(e);
        },
    };
    let waste_id = match create_waste(world) {
        Ok(id) => id,
        Err(e) => {
            proof {
                assert(false);
            }
            return Err(e);
        },
    };
    let tableau_ids = match create_tableau(world) {
        Ok(ids) => ids,
        Err(e) => {
            proof {
                assert(false);
            }
            return Err(e);
        },
    };
    let foundation_ids = match create_foundations(world) {
        Ok(ids) => ids,
        Err(e) => {
            proof {
                assert(false);
            }
            return Err(e);
        },
    };
    let ghost w_piles = *world;

    proof {
        w_init.lemma_alive_below_next();
        assert forall|id: EntityId| deck0.contains(id) implies w_init.next_id() <= id
            < w_init.next_id() + 52 by {
            let m = choose|m: int| 0 <= m < deck0.len() && deck0[m] == id;
            assert(deck_fresh.contains(deck0[m]));
            let i = choose|i: int| 0 <= i < deck_fresh.len() && deck_fresh[i] == deck0[m];
            assert(deck_fresh[i] == w_init.next_id() + i);
        }
        assert forall|m: int| 0 <= m < 52 implies {
            &&& world.spec_card(#[trigger] deck0[m]) matches Some(c) && !c.face_up
            &&& world.spec_transform(deck0[m]) is Some
            &&& world.spec_stack(deck0[m]) is None
            &&& world.spec_droppable(deck0[m]) is None
            &&& !w_init.spec_alive(deck0[m])
        } by {
            assert(deck0.contains(deck0[m]));
            assert(deck_fresh.contains(deck0[m]));
            let i = choose|i: int| 0 <= i < deck_fresh.len() && deck_fresh[i] == deck0[m];
            assert(deck_fresh[i] == w_init.next_id() + i);
        }
    }
    let ghost w_piles = *world;
    proof {
        assert(piles_shape(
            w_init,
            w_piles,
            stock_id,
            waste_id,
            tableau_ids@,
            foundation_ids@,
            deck0,
        )) by {
            assert forall|o: EntityId| o < w_init.next_id() implies components_match(
                w_piles,
                w_init,
                o,
            ) by {
                assert(!deck_fresh.contains(o)) by {
                    if deck_fresh.contains(o) {
                        let i = choose|i: int|
                            0 <= i < deck_fresh.len() && deck_fresh[i] == o;
                        assert(deck_fresh[i] == w_init.next_id() + i);
                    }
                }
            }
            assert forall|o: EntityId|
                w_init.next_id() <= o < w_init.next_id() + 52 implies #[trigger] deck0.contains(
                o,
            ) by {
                let i = o - w_init.next_id();
                assert(deck_fresh[i as int] == o);
                assert(deck_fresh.contains(o));
            }
            assert forall|m: int| 0 <= m < 52 implies (w_piles.spec_card(
                #[trigger] deck0[m],
            ) matches Some(c) && !c.face_up) && w_piles.spec_card(deck0[m]) == Some(
                crate::card::deck_card(deck0[m] - w_init.next_id()),
            ) && (w_piles.spec_transform(deck0[m]) matches Some(t)
                && t.position.x == STOCK_X && t.position.y == STOCK_Y && 0 <= t.z_index < 52)
                && w_piles.spec_stack(deck0[m]) is None && w_piles.spec_droppable(deck0[m]) is None
                && w_piles.spec_renderable(deck0[m]) == Some(
                crate::component::Renderable::card_spec(),
            ) && !w_init.spec_alive(deck0[m]) by {
                assert(deck0.contains(deck0[m]));
                assert(deck_fresh.contains(deck0[m]));
                let i = choose|i: int| 0 <= i < deck_fresh.len() && deck_fresh[i] == deck0[m];
                assert(deck_fresh[i] == w_init.next_id() + i);
                assert(w_piles.spec_card(deck_fresh[i]) == Some(crate::card::deck_card(i)));
            }
        }
        // The piles and deck keep every box inside the coordinate domain.
        w_piles.lemma_alive_below_next();
        assert forall|o: EntityId| crate::world::transform_bounded(
            #[trigger] w_piles.spec_transform(o),
        ) && crate::world::renderable_bounded(w_piles.spec_renderable(o))
            && crate::world::droppable_bounded(w_piles.spec_droppable(o)) by {
            if o < w_init.next_id() {
                assert(components_match(w_piles, w_init, o));
                assert(crate::world::transform_bounded(w_init.spec_transform(o)));
                assert(crate::world::renderable_bounded(w_init.spec_renderable(o)));
                assert(crate::world::droppable_bounded(w_init.spec_droppable(o)));
            } else if o < w_init.next_id() + 52 {
                let i = o - w_init.next_id();
                assert(deck_fresh[i as int] == o);
                assert(deck_fresh.contains(o));
                assert(deck0.contains(o));
                let m = choose|m: int| 0 <= m < deck0.len() && deck0[m] == o;
                assert(w_piles.spec_transform(deck0[m]) matches Some(t) && t.position.x == STOCK_X
                    && t.position.y == STOCK_Y && 0 <= t.z_index < 52);
            } else if o < w_init.next_id() + 65 {
                if o == stock_id || o == waste_id {
                } else if o < w_init.next_id() + 61 {
                    let k = o - (w_init.next_id() + 54);
                    assert(tableau_ids@[k as int] == o);
                } else {
                    let k = o - (w_init.next_id() + 61);
                    assert(foundation_ids@[k as int] == o);
                }
            } else {
                assert(!w_piles.spec_alive(o));
            }
        }
    }

    // Deal one to seven cards to the columns, flipping each column's top.
    match deal_cards_to_tableau(
        world,
        &mut deck,
        stock_id,
        waste_id,
        &tableau_ids,
        &foundation_ids,
        Ghost(w_init),
    ) {
        Ok(()) => {},
        Err(e) => {
            proof {
                assert(false);
            }
            return Err(e);
        },
    }
    let ghost w_dealt = *world;
    let ghost deck_rest = deck@;

    // The 24 undealt cards become the stock.
    proof {
        assert forall|i: int|
            0 <= i < deck_rest.len() implies world.spec_transform(#[trigger] deck_rest[i]) is Some
            && deck_rest[i] != stock_id by {
            assert(deck_rest.contains(deck_rest[i]));
            assert(deck0.contains(deck_rest[i])) by {
                assert(deck0[i] == deck_rest[i]);
            }
        }
        assert(deck_rest.no_duplicates()) by {
            assert forall|a: int, b: int|
                0 <= a < b < deck_rest.len() implies deck_rest[a] != deck_rest[b] by {
                assert(deck_rest[a] == deck0[a] && deck_rest[b] == deck0[b]);
            }
        }
    }
    match add_cards_to_stock(world, stock_id, deck) {
        Ok(()) => {},
        Err(e) => {
            proof {
                assert(false);
            }
            return Err(e);
        },
    }

    let layout = BoardLayout {
        stock: stock_id,
        waste: waste_id,
        tableaus: tableau_ids,
        foundations: foundation_ids,
    };
    proof {
        lemma_board_assembly(
            w_init,
            w_piles,
            w_dealt,
            *world,
            stock_id,
            waste_id,
            layout.tableaus@,
            layout.foundations@,
            deck0,
            deck_rest,
        );
    }
    Ok(layout)
}

/// Assembles the final board facts: after the piles are built, the columns
/// dealt and the undealt cards recorded as the stock, the board-wide stack
/// invariants hold and the board has its documented shape.
#[verifier::rlimit(100)]
#[verifier::spinoff_prover]
proof fn lemma_board_assembly(
    w_init: World,
    w_piles: World,
    w_dealt: World,
    w: World,
    stock_id: EntityId,
    waste_id: EntityId,
    tabs: Seq<EntityId>,
    founds: Seq<EntityId>,
    deck0: Seq<EntityId>,
    deck_rest: Seq<EntityId>,
)
    requires
        w_init.wf(),
        stacks_wf(w_init),
        w_piles.wf(),
        w.wf(),
        piles_shape(w_init, w_piles, stock_id, waste_id, tabs, founds, deck0),
        deal_post(w_init, w_piles, w_dealt, deck_rest, deck0, tabs),
        entities_eq(w, w_dealt),
        w.spec_stack(stock_id) matches Some(st) && st.cards@ === deck_rest && st.stack_type
            == w_dealt.spec_stack(stock_id)->Some_0.stack_type && st.max_cards == w_dealt.spec_stack(
            stock_id,
        )->Some_0.max_cards,
        forall|o: EntityId| o != stock_id ==> #[trigger] w.spec_stack(o) == w_dealt.spec_stack(o),
        forall|o: EntityId|
            !deck_rest.contains(o) ==> #[trigger] w.spec_transform(o) == w_dealt.spec_transform(o),
        cards_eq(w, w_dealt),
        draggables_eq(w, w_dealt),
    ensures
        stacks_wf(w),
        board_post(w_init, w, stock_id, waste_id, tabs, founds),
{
    w_init.lemma_alive_below_next();
    w_piles.lemma_alive_below_next();
    let next0 = w_init.next_id();

    // Plain facts about the remaining deck.
    assert(deck_rest.no_duplicates()) by {
        assert forall|a: int, b: int|
            0 <= a < b < deck_rest.len() implies deck_rest[a] != deck_rest[b] by {
            assert(deck_rest[a] == deck0[a] && deck_rest[b] == deck0[b]);
        }
    }
    assert forall|i: int| 0 <= i < deck_rest.len() implies deck0.contains(
        #[trigger] deck_rest[i],
    ) by {
        assert(deck0[i] == deck_rest[i]);
    }
    // The stock holds what the deal left; columns are as dealt.
    assert forall|k: int| 0 <= k < 7 implies w.spec_stack(#[trigger] tabs[k])
        == w_dealt.spec_stack(tabs[k]) by {
        assert(tabs[k] != stock_id);
    }
    assert forall|k: int| 0 <= k < 7 implies tableau_column_post(
        w_init,
        w,
        #[trigger] tabs[k],
        k,
    ) by {
        assert(tableau_column_post(w_init, w_dealt, tabs[k], k));
        let st = w_dealt.spec_stack(tabs[k])->Some_0;
        assert forall|j: int|
            0 <= j <= k implies (w.spec_card(#[trigger] st.cards@[j]) matches Some(c) && c.face_up
            == (j == k) && !w_init.spec_alive(st.cards@[j])) by {
            assert(w.spec_card(st.cards@[j]) == w_dealt.spec_card(st.cards@[j]));
        }
    }
    // Every shuffled card still has its identity in the final world.
    assert forall|m: int| 0 <= m < 52 implies w.spec_card(#[trigger] deck0[m]) is Some
        && !w_init.spec_alive(deck0[m]) by {
        assert(deck0.contains(deck0[m]));
        if deck_rest.contains(deck0[m]) {
            assert(w_dealt.spec_card(deck0[m]) == w_piles.spec_card(deck0[m]));
            assert(w.spec_card(deck0[m]) == w_dealt.spec_card(deck0[m]));
        } else {
            let k = choose|k: int| 0 <= k < 7 && stack_has_card(w_dealt, #[trigger] tabs[k], deck0[m]);
            assert(tableau_column_post(w_init, w, tabs[k], k));
            let st = w_dealt.spec_stack(tabs[k])->Some_0;
            let j = choose|j: int| 0 <= j < st.cards@.len() && st.cards@[j] == deck0[m];
            assert(w.spec_card(st.cards@[j]) is Some);
        }
    }
    // Membership of any final stack traces to the old world or the deck.
    assert forall|sid: EntityId, id: EntityId| #[trigger]
        stack_has_card(w, sid, id) implies (sid == stock_id && deck_rest.contains(id)) || (exists|
        k: int,
    |
        0 <= k < 7 && sid == tabs[k] && stack_has_card(w_dealt, sid, id)) || (stack_has_card(
        w_init,
        sid,
        id,
    ) && sid < next0 && id < next0) by {
        if sid == stock_id {
        } else {
            assert(w.spec_stack(sid) == w_dealt.spec_stack(sid));
            if tabs.contains(sid) {
                let k = choose|k: int| 0 <= k < tabs.len() && tabs[k] == sid;
                assert(0 <= k < 7 && sid == tabs[k] && stack_has_card(w_dealt, sid, id));
            } else {
                assert(w_dealt.spec_stack(sid) == w_piles.spec_stack(sid));
                assert(sid != waste_id && !founds.contains(sid) ==> true);
                if sid == waste_id {
                    assert(w_piles.spec_stack(waste_id)->Some_0.cards@.len() == 0);
                } else if founds.contains(sid) {
                    let k = choose|k: int| 0 <= k < founds.len() && founds[k] == sid;
                    assert(w_piles.spec_stack(founds[k])->Some_0.cards@.len() == 0);
                } else {
                    // An old stack: it existed before the board was built.
                    assert(sid < next0 || next0 + 65 <= sid) by {
                        if next0 <= sid < next0 + 52 {
                            assert(deck0.contains(sid));
                            let m = choose|m: int| 0 <= m < 52 && deck0[m] == sid;
                            assert(w_piles.spec_stack(deck0[m]) is None);
                        } else if next0 + 52 <= sid < next0 + 65 {
                            if sid < next0 + 54 {
                            } else if sid < next0 + 61 {
                                let k = sid - (next0 + 54);
                                assert(tabs[k as int] == sid);
                                assert(tabs.contains(sid));
                            } else {
                                let k = sid - (next0 + 61);
                                assert(founds[k as int] == sid);
                                assert(founds.contains(sid));
                            }
                        }
                    }
                    if next0 + 65 <= sid {
                        assert(!w_piles.spec_alive(sid));
                        assert(w_piles.spec_stack(sid) is None);
                    }
                    assert(sid < next0);
                    assert(components_match(w_piles, w_init, sid));
                    assert(stack_has_card(w_init, sid, id));
                    assert(id < next0) by {
                        let st = w_init.spec_stack(sid)->Some_0;
                        assert(stack_cards_ok(w_init, sid));
                        let j = choose|j: int| 0 <= j < st.cards@.len() && st.cards@[j] == id;
                        assert(w_init.spec_card(st.cards@[j]) is Some);
                        assert(w_init.spec_alive(id));
                    }
                }
            }
        }
    }
    // Board-wide invariants.
    assert forall|sid: EntityId| #[trigger] stack_cards_ok(w, sid) by {
        if w.spec_stack(sid) is Some {
            let cards1 = w.spec_stack(sid)->Some_0.cards@;
            assert forall|i: int|
                0 <= i < cards1.len() implies w.spec_card(#[trigger] cards1[i]) is Some by {
                assert(cards1.contains(cards1[i]));
                assert(stack_has_card(w, sid, cards1[i]));
                let id = cards1[i];
                if sid == stock_id && deck_rest.contains(id) {
                    let m = choose|m: int| 0 <= m < 52 && deck0[m] == id;
                    assert(w.spec_card(deck0[m]) is Some);
                } else if stack_has_card(w_init, sid, id) && id < next0 {
                    assert(stack_cards_ok(w_init, sid));
                    let st0 = w_init.spec_stack(sid)->Some_0;
                    let j = choose|j: int| 0 <= j < st0.cards@.len() && st0.cards@[j] == id;
                    assert(w_init.spec_card(st0.cards@[j]) is Some);
                    assert(components_match(w_piles, w_init, id));
                    assert(!deck0.contains(id));
                    assert(w_dealt.spec_card(id) == w_piles.spec_card(id));
                    assert(w.spec_card(id) == w_dealt.spec_card(id));
                } else {
                    let k = choose|k: int|
                        0 <= k < 7 && sid == tabs[k] && stack_has_card(w_dealt, sid, id);
                    assert(tableau_column_post(w_init, w, tabs[k], k));
                    let st = w_dealt.spec_stack(tabs[k])->Some_0;
                    let j = choose|j: int| 0 <= j < st.cards@.len() && st.cards@[j] == id;
                    assert(w.spec_card(st.cards@[j]) is Some);
                }
            }
            if sid == stock_id {
                assert(cards1.no_duplicates());
            } else if tabs.contains(sid) {
                let k = choose|k: int| 0 <= k < tabs.len() && tabs[k] == sid;
                assert(tableau_column_post(w_init, w, tabs[k], k));
            } else {
                assert(w.spec_stack(sid) == w_dealt.spec_stack(sid));
                if sid != waste_id && !founds.contains(sid) {
                    if sid < next0 {
                        assert(components_match(w_piles, w_init, sid));
                        assert(stack_cards_ok(w_init, sid));
                    } else {
                        // As in the membership trace: no other stack exists.
                        if next0 <= sid < next0 + 52 {
                            assert(deck0.contains(sid));
                            let m = choose|m: int| 0 <= m < 52 && deck0[m] == sid;
                            assert(w_piles.spec_stack(deck0[m]) is None);
                            assert(w_dealt.spec_stack(sid) == w_piles.spec_stack(sid) || true);
                            assert(forall|m2: int|
                                0 <= m2 < 52 ==> w_dealt.spec_stack(#[trigger] deck0[m2]) is None);
                        } else if next0 + 52 <= sid < next0 + 65 {
                            if sid < next0 + 54 {
                            } else if sid < next0 + 61 {
                                let k = sid - (next0 + 54);
                                assert(tabs[k as int] == sid);
                                assert(tabs.contains(sid));
                            } else {
                                let k = sid - (next0 + 61);
                                assert(founds[k as int] == sid);
                                assert(founds.contains(sid));
                            }
                        } else {
                            assert(!w_piles.spec_alive(sid));
                            assert(w_dealt.spec_stack(sid) == w_piles.spec_stack(sid));
                        }
                    }
                }
            }
        }
    }
    assert forall|s1: EntityId, s2: EntityId, id: EntityId|
        #[trigger] stack_has_card(w, s1, id) && #[trigger] stack_has_card(w, s2, id) implies s1
        == s2 by {
        if s1 != s2 {
            // Classify both memberships; each case pins the id's home.
            let c1_stock = s1 == stock_id && deck_rest.contains(id);
            let c2_stock = s2 == stock_id && deck_rest.contains(id);
            let c1_old = stack_has_card(w_init, s1, id) && s1 < next0 && id < next0;
            let c2_old = stack_has_card(w_init, s2, id) && s2 < next0 && id < next0;
            if c1_old && c2_old {
                assert(s1 == s2);
            } else if (c1_old && !c2_old) || (c2_old && !c1_old) {
                // One membership is old (id below next0), the other is new
                // (id a deck card, at or above next0).
                if c1_old {
                    if !c2_stock {
                        let k = choose|k: int|
                            0 <= k < 7 && s2 == tabs[k] && stack_has_card(w_dealt, s2, id);
                        let st = w_dealt.spec_stack(tabs[k])->Some_0;
                        let j = choose|j: int| 0 <= j < st.cards@.len() && st.cards@[j] == id;
                        assert(deck0.contains(st.cards@[j]));
                    } else {
                        assert(deck0.contains(id));
                    }
                } else {
                    if !c1_stock {
                        let k = choose|k: int|
                            0 <= k < 7 && s1 == tabs[k] && stack_has_card(w_dealt, s1, id);
                        let st = w_dealt.spec_stack(tabs[k])->Some_0;
                        let j = choose|j: int| 0 <= j < st.cards@.len() && st.cards@[j] == id;
                        assert(deck0.contains(st.cards@[j]));
                    } else {
                        assert(deck0.contains(id));
                    }
                }
            } else {
                // Both new: stock and columns are pairwise disjoint.
                if c1_stock && !c2_stock {
                    let k = choose|k: int|
                        0 <= k < 7 && s2 == tabs[k] && stack_has_card(w_dealt, s2, id);
                    let st = w_dealt.spec_stack(tabs[k])->Some_0;
                    let j = choose|j: int| 0 <= j < st.cards@.len() && st.cards@[j] == id;
                    assert(!deck_rest.contains(st.cards@[j]));
                } else if c2_stock && !c1_stock {
                    let k = choose|k: int|
                        0 <= k < 7 && s1 == tabs[k] && stack_has_card(w_dealt, s1, id);
                    let st = w_dealt.spec_stack(tabs[k])->Some_0;
                    let j = choose|j: int| 0 <= j < st.cards@.len() && st.cards@[j] == id;
                    assert(!deck_rest.contains(st.cards@[j]));
                } else if !c1_stock && !c2_stock {
                    let k1 = choose|k: int|
                        0 <= k < 7 && s1 == tabs[k] && stack_has_card(w_dealt, s1, id);
                    let k2 = choose|k: int|
                        0 <= k < 7 && s2 == tabs[k] && stack_has_card(w_dealt, s2, id);
                    assert(k1 != k2);
                    assert(stack_has_card(w_dealt, tabs[k1], id) && stack_has_card(
                        w_dealt,
                        tabs[k2],
                        id,
                    ));
                }
            }
        }
    }
    assert forall|sid: EntityId, id: EntityId| #[trigger]
        stack_has_card(w, sid, id) implies w.spec_stack(id) is None by {
        let is_new = (sid == stock_id && deck_rest.contains(id)) || !(stack_has_card(
            w_init,
            sid,
            id,
        ) && sid < next0 && id < next0);
        if (sid == stock_id && deck_rest.contains(id)) {
            assert(deck0.contains(id));
            let m = choose|m: int| 0 <= m < 52 && deck0[m] == id;
            assert(w_dealt.spec_stack(deck0[m]) is None);
            assert(id != stock_id);
            assert(w.spec_stack(id) == w_dealt.spec_stack(id));
        } else if stack_has_card(w_init, sid, id) && sid < next0 && id < next0 {
            assert(w_init.spec_stack(id) is None);
            assert(components_match(w_piles, w_init, id));
            assert(!deck0.contains(id));
            assert(!tabs.contains(id)) by {
                if tabs.contains(id) {
                    let k = choose|k: int| 0 <= k < tabs.len() && tabs[k] == id;
                    assert(tabs[k] == next0 + 54 + k);
                }
            }
            assert(w_dealt.spec_stack(id) == w_piles.spec_stack(id));
            assert(id != stock_id);
            assert(w.spec_stack(id) == w_dealt.spec_stack(id));
        } else {
            let k = choose|k: int| 0 <= k < 7 && sid == tabs[k] && stack_has_card(w_dealt, sid, id);
            let st = w_dealt.spec_stack(tabs[k])->Some_0;
            let j = choose|j: int| 0 <= j < st.cards@.len() && st.cards@[j] == id;
            assert(deck0.contains(st.cards@[j]));
            let m = choose|m: int| 0 <= m < 52 && deck0[m] == id;
            assert(w_dealt.spec_stack(deck0[m]) is None);
            assert(id != stock_id);
            assert(w.spec_stack(id) == w_dealt.spec_stack(id));
        }
    }
    assert forall|sid: EntityId| #[trigger] stack_anchor_ok(w, sid) by {
        if w.spec_stack(sid) is Some && w.spec_transform(sid) is Some {
            assert(!deck0.contains(sid)) by {
                if deck0.contains(sid) {
                    let m = choose|m: int| 0 <= m < 52 && deck0[m] == sid;
                    assert(w_dealt.spec_stack(deck0[m]) is None);
                    assert(sid != stock_id);
                    assert(w.spec_stack(sid) == w_dealt.spec_stack(sid));
                }
            }
            assert(!deck_rest.contains(sid)) by {
                if deck_rest.contains(sid) {
                    assert(deck0.contains(sid));
                }
            }
            assert(w.spec_transform(sid) == w_dealt.spec_transform(sid));
            assert(w_dealt.spec_transform(sid) == w_piles.spec_transform(sid));
            if sid < next0 {
                assert(components_match(w_piles, w_init, sid));
                assert(stack_anchor_ok(w_init, sid));
                assert(w_init.spec_stack(sid) is Some || w.spec_stack(sid) == w_dealt.spec_stack(
                    sid,
                ));
                if !tabs.contains(sid) && sid != stock_id {
                    assert(w.spec_stack(sid) == w_dealt.spec_stack(sid));
                    assert(w_dealt.spec_stack(sid) == w_piles.spec_stack(sid));
                }
            } else if sid == stock_id || sid == waste_id {
            } else if tabs.contains(sid) {
                let k = choose|k: int| 0 <= k < tabs.len() && tabs[k] == sid;
                assert(w_piles.spec_transform(tabs[k]) matches Some(t) && t.position.x
                    == TABLEAU_START_X + k * PILE_SPACING_X && t.position.y == TABLEAU_START_Y);
            } else if founds.contains(sid) {
                let k = choose|k: int| 0 <= k < founds.len() && founds[k] == sid;
                assert(w_piles.spec_transform(founds[k]) matches Some(t) && t.position.x
                    == FOUNDATION_START_X + k * PILE_SPACING_X && t.position.y
                    == FOUNDATION_START_Y);
            } else {
                if next0 <= sid < next0 + 52 {
                    assert(deck0.contains(sid));
                } else if next0 + 52 <= sid < next0 + 65 {
                    if sid < next0 + 54 {
                    } else if sid < next0 + 61 {
                        let k = sid - (next0 + 54);
                        assert(tabs[k as int] == sid);
                        assert(tabs.contains(sid));
                    } else {
                        let k = sid - (next0 + 61);
                        assert(founds[k as int] == sid);
                        assert(founds.contains(sid));
                    }
                } else {
                    assert(!w_piles.spec_alive(sid));
                    assert(w_piles.spec_stack(sid) is None);
                    assert(sid != stock_id);
                    assert(w.spec_stack(sid) == w_dealt.spec_stack(sid));
                }
            }
        }
    }
    // The board's documented shape.
    assert(w.spec_stack(waste_id) == w_dealt.spec_stack(waste_id)) by {
        assert(waste_id != stock_id);
    }
    assert(w_dealt.spec_stack(waste_id) == w_piles.spec_stack(waste_id)) by {
        assert(!tabs.contains(waste_id)) by {
            if tabs.contains(waste_id) {
                let k = choose|k: int| 0 <= k < tabs.len() && tabs[k] == waste_id;
                assert(tabs[k] == next0 + 54 + k);
            }
        }
    }
    assert forall|k: int| 0 <= k < 4 implies (w.spec_stack(#[trigger] founds[k]) matches Some(st)
        && st.stack_type == (StackType::Foundation { suit: k as usize }) && st.cards@.len() == 0
        && st.max_cards == Some(13usize)) by {
        assert(founds[k] != stock_id);
        assert(w.spec_stack(founds[k]) == w_dealt.spec_stack(founds[k]));
        assert(!tabs.contains(founds[k])) by {
            if tabs.contains(founds[k]) {
                let k2 = choose|k2: int| 0 <= k2 < tabs.len() && tabs[k2] == founds[k];
                assert(tabs[k2] == next0 + 54 + k2);
            }
        }
        assert(w_dealt.spec_stack(founds[k]) == w_piles.spec_stack(founds[k]));
    }
    // Stock cards lie face down and are fresh.
    let stt = w.spec_stack(stock_id)->Some_0;
    assert forall|j: int| 0 <= j < 24 implies (w.spec_card(#[trigger] stt.cards@[j]) matches Some(
        c,
    ) && !c.face_up && !w_init.spec_alive(stt.cards@[j])) by {
        assert(stt.cards@[j] == deck_rest[j]);
        assert(deck_rest.contains(deck_rest[j]));
        assert(deck0.contains(deck_rest[j]));
        let m = choose|m: int| 0 <= m < 52 && deck0[m] == deck_rest[j];
        assert(w_piles.spec_card(deck0[m]) matches Some(c) && !c.face_up);
        assert(w_dealt.spec_card(deck_rest[j]) == w_piles.spec_card(deck_rest[j]));
        assert(w.spec_card(deck_rest[j]) == w_dealt.spec_card(deck_rest[j]));
    }
    // Census: a card identity exists exactly for the old cards, the stock's
    // cards and the columns' cards.
    assert forall|o: EntityId| w_init.spec_card(o) is Some implies #[trigger] w.spec_card(o)
        == w_init.spec_card(o) by {
        assert(w_init.spec_alive(o));
        assert(o < next0);
        assert(components_match(w_piles, w_init, o));
        assert(!deck0.contains(o));
        assert(w_dealt.spec_card(o) == w_piles.spec_card(o));
        assert(w.spec_card(o) == w_dealt.spec_card(o));
    }
    assert forall|o: EntityId| w_init.spec_stack(o) is Some implies #[trigger] w.spec_stack(o)
        == w_init.spec_stack(o) by {
        assert(w_init.spec_alive(o));
        assert(o < next0);
        assert(components_match(w_piles, w_init, o));
        assert(o != stock_id && !tabs.contains(o)) by {
            if tabs.contains(o) {
                let k = choose|k: int| 0 <= k < tabs.len() && tabs[k] == o;
                assert(tabs[k] == next0 + 54 + k);
            }
        }
        assert(w.spec_stack(o) == w_dealt.spec_stack(o));
        assert(w_dealt.spec_stack(o) == w_piles.spec_stack(o));
    }
    assert forall|id: EntityId| #[trigger]
        w.spec_card(id) is Some implies (w_init.spec_card(id) is Some || stack_has_card(
        w,
        stock_id,
        id,
    ) || exists|k: int| 0 <= k < 7 && stack_has_card(w, #[trigger] tabs[k], id)) by {
        if !deck0.contains(id) {
            assert(w_dealt.spec_card(id) == w_piles.spec_card(id));
            assert(w.spec_card(id) == w_dealt.spec_card(id));
            if id < next0 {
                assert(components_match(w_piles, w_init, id));
            } else if next0 + 52 <= id < next0 + 65 {
                if id == stock_id || id == waste_id {
                    assert(w_piles.spec_card(id) is None) by {
                        assert(w_piles.spec_card(stock_id) is None || true);
                    }
                    assert(false) by {
                        assert(piles_card_none(w_piles, stock_id, waste_id, tabs, founds));
                    }
                } else if id < next0 + 61 {
                    let k = id - (next0 + 54);
                    assert(tabs[k as int] == id);
                    assert(false) by {
                        assert(piles_card_none(w_piles, stock_id, waste_id, tabs, founds));
                    }
                } else {
                    let k = id - (next0 + 61);
                    assert(founds[k as int] == id);
                    assert(false) by {
                        assert(piles_card_none(w_piles, stock_id, waste_id, tabs, founds));
                    }
                }
            } else if next0 <= id {
                assert(deck0.contains(id) || next0 + 65 <= id);
                assert(!w_piles.spec_alive(id));
                assert(w_piles.spec_card(id) is None);
                assert(false);
            }
        } else {
            if deck_rest.contains(id) {
                assert(stack_has_card(w, stock_id, id));
            } else {
                let k = choose|k: int|
                    0 <= k < 7 && stack_has_card(w_dealt, #[trigger] tabs[k], id);
                assert(w.spec_stack(tabs[k]) == w_dealt.spec_stack(tabs[k])) by {
                    assert(tabs[k] != stock_id);
                }
                assert(stack_has_card(w, tabs[k], id));
            }
        }
    }
    assert forall|id: EntityId|
        (w_init.spec_card(id) is Some || stack_has_card(w, stock_id, id) || exists|k: int|
            0 <= k < 7 && stack_has_card(w, #[trigger] tabs[k], id)) implies #[trigger] w.spec_card(
        id,
    ) is Some by {
        if w_init.spec_card(id) is Some {
        } else if stack_has_card(w, stock_id, id) {
            assert(stack_cards_ok(w, stock_id));
            let st = w.spec_stack(stock_id)->Some_0;
            let j = choose|j: int| 0 <= j < st.cards@.len() && st.cards@[j] == id;
            assert(w.spec_card(st.cards@[j]) is Some);
        } else {
            let k = choose|k: int| 0 <= k < 7 && stack_has_card(w, #[trigger] tabs[k], id);
            assert(stack_cards_ok(w, tabs[k]));
            let st = w.spec_stack(tabs[k])->Some_0;
            let j = choose|j: int| 0 <= j < st.cards@.len() && st.cards@[j] == id;
            assert(w.spec_card(st.cards@[j]) is Some);
        }
    }
    // Identities: every board card still carries the identity of its dealt
    // slot, each (suit, rank) pair appears on the board, and no pair twice.
    assert forall|id: EntityId|
        #[trigger] board_card(w, stock_id, tabs, id) implies ((w.spec_card(id) matches Some(c)
        && next0 <= id < next0 + 52 && c.suit == crate::card::deck_card(id - next0).suit && c.rank
        == crate::card::deck_card(id - next0).rank)) by {
        assert(deck0.contains(id)) by {
            if stack_has_card(w, stock_id, id) {
                assert(deck_rest.contains(id) || (stack_has_card(w_init, stock_id, id) && stock_id
                    < next0 && id < next0));
                assert(deck_rest.contains(id));
            } else {
                let k = choose|k: int| 0 <= k < 7 && stack_has_card(w, #[trigger] tabs[k], id);
                assert(stack_has_card(w_dealt, tabs[k], id)) by {
                    assert(w.spec_stack(tabs[k]) == w_dealt.spec_stack(tabs[k]));
                }
                let st = w_dealt.spec_stack(tabs[k])->Some_0;
                let j = choose|j: int| 0 <= j < st.cards@.len() && st.cards@[j] == id;
                assert(deck0.contains(st.cards@[j]));
            }
        }
        let m = choose|m: int| 0 <= m < deck0.len() && deck0[m] == id;
        assert(w_piles.spec_card(deck0[m]) == Some(crate::card::deck_card(deck0[m] - next0)));
        assert(w_dealt.spec_card(id) matches Some(c1) && w_piles.spec_card(id) matches Some(c0)
            && c1.suit == c0.suit && c1.rank == c0.rank);
        assert(w.spec_card(id) == w_dealt.spec_card(id));
    }
    assert forall|s: int, r: int|
        0 <= s < 4 && 0 <= r < 13 implies #[trigger] pair_on_board(w, stock_id, tabs, s, r) by {
        assert(0 <= 13 * s + r < 52);
        let id: EntityId = (next0 + 13 * s + r) as EntityId;
        assert(next0 + 13 * s + r <= next0 + 51 < next0 + 52);
        assert(deck0.contains((next0 + 13 * s + r) as EntityId)) by {
            assert(deck0.len() == 52);
            assert(deck0.contains(deck0[0]));
            assert(next0 <= deck0[0] < next0 + 52);
        }
        assert(next0 + 51 <= usize::MAX) by {
            assert(deck0.contains(deck0[51]));
            assert(next0 <= deck0[51] < next0 + 52);
        }
        assert(id == next0 + 13 * s + r);
        assert(deck0.contains(id));
        assert(board_card(w, stock_id, tabs, id)) by {
            if deck_rest.contains(id) {
                assert(stack_has_card(w, stock_id, id));
            } else {
                let k = choose|k: int|
                    0 <= k < 7 && stack_has_card(w_dealt, #[trigger] tabs[k], id);
                assert(w.spec_stack(tabs[k]) == w_dealt.spec_stack(tabs[k]));
                assert(stack_has_card(w, tabs[k], id));
            }
        }
        assert((13 * s + r) / 13 == s && (13 * s + r) % 13 == r) by (nonlinear_arith)
            requires
                0 <= s < 4,
                0 <= r < 13,
        ;
        assert(w.spec_card(id) matches Some(c) && c.suit == s && c.rank == r) by {
            assert(crate::card::deck_card(13 * s + r).suit == s);
            assert(crate::card::deck_card(13 * s + r).rank == r);
        }
    }
    assert forall|id1: EntityId, id2: EntityId|
        #[trigger] board_card(w, stock_id, tabs, id1) && #[trigger] board_card(
        w,
        stock_id,
        tabs,
        id2,
    ) && w.spec_card(id1)->Some_0.suit == w.spec_card(id2)->Some_0.suit && w.spec_card(
        id1,
    )->Some_0.rank == w.spec_card(id2)->Some_0.rank implies id1 == id2 by {
        let i1 = id1 - next0;
        let i2 = id2 - next0;
        assert(0 <= i1 < 52 && 0 <= i2 < 52);
        assert(crate::card::deck_card(i1).suit == crate::card::deck_card(i2).suit);
        assert(crate::card::deck_card(i1).rank == crate::card::deck_card(i2).rank);
        assert(0 <= i1 / 13 < 4 && 0 <= i2 / 13 < 4 && 0 <= i1 % 13 < 13 && 0 <= i2 % 13 < 13)
            by (nonlinear_arith)
            requires
                0 <= i1 < 52,
                0 <= i2 < 52,
        ;
        assert(i1 / 13 == i2 / 13 && i1 % 13 == i2 % 13);
        vstd::arithmetic::div_mod::lemma_fundamental_div_mod(i1, 13);
        vstd::arithmetic::div_mod::lemma_fundamental_div_mod(i2, 13);
    }
}

/// The pile entities carry no card identities.
pub open spec fn piles_card_none(
    w: World,
    stock_id: EntityId,
    waste_id: EntityId,
    tabs: Seq<EntityId>,
    founds: Seq<EntityId>,
) -> bool {
    &&& w.spec_card(stock_id) is None
    &&& w.spec_card(waste_id) is None
    &&& forall|k: int| 0 <= k < 7 ==> w.spec_card(#[trigger] tabs[k]) is None
    &&& forall|k: int| 0 <= k < 4 ==> w.spec_card(#[trigger] founds[k]) is None
}

/// What dealing leaves behind, relative to the world as the piles left it
/// (`w_piles`): 24 cards remain in the deck (the lowest 24 of the shuffled
/// order), each column holds its dealt run, the dealt cards left the deck,
/// no two columns share a card, and everything else is untouched.
pub open spec fn deal_post(
    w_init: World,
    w_piles: World,
    w: World,
    deck_rest: Seq<EntityId>,
    deck0: Seq<EntityId>,
    tabs: Seq<EntityId>,
) -> bool {
    &&& deck_rest.len() == 24
    &&& deck_rest === deck0.take(24)
    &&& entities_eq(w, w_piles)
    &&& forall|m: int| 0 <= m < 52 ==> w.spec_stack(#[trigger] deck0[m]) is None
    &&& forall|id: EntityId|
        #[trigger] deck_rest.contains(id) ==> w.spec_card(id) == w_piles.spec_card(id)
    &&& forall|id: EntityId| #[trigger] deck_rest.contains(id) ==> w.spec_transform(id) is Some
    &&& forall|id: EntityId|
        deck0.contains(id) ==> ((#[trigger] w.spec_card(id) matches Some(c)
            && w_piles.spec_card(id) matches Some(c0) && c.suit == c0.suit && c.rank == c0.rank
            && c.color == c0.color))
    &&& forall|k: int| 0 <= k < 7 ==> tableau_column_post(w_init, w, #[trigger] tabs[k], k)
    &&& forall|k: int, j: int|
        0 <= k < 7 && 0 <= j <= k ==> (deck0.contains(
            #[trigger] w.spec_stack(tabs[k])->Some_0.cards@[j],
        ) && !deck_rest.contains(w.spec_stack(tabs[k])->Some_0.cards@[j]))
    &&& forall|k1: int, k2: int, id: EntityId|
        0 <= k1 < 7 && 0 <= k2 < 7 && k1 != k2 && #[trigger] stack_has_card(w, tabs[k1], id)
            && #[trigger] stack_has_card(w, tabs[k2], id) ==> false
    &&& forall|id: EntityId|
        deck0.contains(id) ==> (#[trigger] deck_rest.contains(id) || exists|k: int|
            0 <= k < 7 && stack_has_card(w, #[trigger] tabs[k], id))
    &&& forall|o: EntityId|
        !tabs.contains(o) ==> #[trigger] w.spec_stack(o) == w_piles.spec_stack(o)
    &&& forall|o: EntityId|
        !deck0.contains(o) ==> #[trigger] w.spec_card(o) == w_piles.spec_card(o)
    &&& forall|o: EntityId|
        !deck0.contains(o) ==> #[trigger] w.spec_transform(o) == w_piles.spec_transform(o)
    &&& forall|o: EntityId|
        !deck0.contains(o) ==> #[trigger] w.spec_draggable(o) == w_piles.spec_draggable(o)
    &&& renderables_eq(w, w_piles)
    &&& clickables_eq(w, w_piles)
    &&& droppables_eq(w, w_piles)
}

/// Deals one to seven cards from the top of the deck to each column in turn,
/// fanning them down the column and turning each column's top card face up.
#[verifier::rlimit(100)]
#[verifier::spinoff_prover]
pub fn deal_cards_to_tableau(
    world: &mut World,
    deck: &mut Vec<EntityId>,
    stock_id: EntityId,
    waste_id: EntityId,
    tableau_ids: &Vec<EntityId>,
    foundation_ids: &Vec<EntityId>,
    Ghost(w_init): Ghost<World>,
) -> (r: Result<(), EcsError>)
    requires
        old(world).wf(),
        old(world).boxes_wf(),
        piles_shape(
            w_init,
            *old(world),
            stock_id,
            waste_id,
            tableau_ids@,
            foundation_ids@,
            old(deck)@,
        ),
    ensures
        final(world).wf(),
        final(world).boxes_wf(),
        r is Ok,
        deal_post(
            w_init,
            *old(world),
            *final(world),
            final(deck)@,
            old(deck)@,
            tableau_ids@,
        ),
{
    let ghost w_piles = *old(world);
    let ghost deck0 = deck@;
    proof {
        // Every shuffled card still carries its dealt identity.
        assert forall|id: EntityId|
            deck0.contains(id) implies ((#[trigger] world.spec_card(id) matches Some(c)
            && w_piles.spec_card(id) matches Some(c0) && c.suit == c0.suit && c.rank == c0.rank
            && c.color == c0.color)) by {
            let m = choose|m: int| 0 <= m < deck0.len() && deck0[m] == id;
            assert(w_piles.spec_card(deck0[m]) matches Some(c0));
        }
    }

    // Deal one to seven cards to the columns, flipping each column's top.
    let mut col: usize = 0;
    while col < 7
        invariant
            world.wf(),
            world.boxes_wf(),
            col <= 7,
            piles_shape(w_init, w_piles, stock_id, waste_id, tableau_ids@, foundation_ids@, deck0),
            tableau_ids@.len() == 7,
            deck@.len() == 52 - spec_dealt_total(col as int),
            deck@ === deck0.take(deck@.len() as int),
            entities_eq(*world, w_piles),
            forall|m: int| 0 <= m < 52 ==> world.spec_stack(#[trigger] deck0[m]) is None,
            forall|id: EntityId|
                #[trigger] deck@.contains(id) ==> world.spec_card(id) == w_piles.spec_card(id),
            forall|id: EntityId|
                deck0.contains(id) ==> ((#[trigger] world.spec_card(id) matches Some(c)
                    && w_piles.spec_card(id) matches Some(c0) && c.suit == c0.suit && c.rank
                    == c0.rank && c.color == c0.color)),
            forall|k: int|
                0 <= k < col ==> tableau_column_post(w_init, *world, #[trigger] tableau_ids@[k], k),
            forall|k: int, j: int|
                0 <= k < col && 0 <= j <= k ==> (deck0.contains(
                    #[trigger] world.spec_stack(tableau_ids@[k])->Some_0.cards@[j],
                ) && !deck@.contains(world.spec_stack(tableau_ids@[k])->Some_0.cards@[j])),
            forall|k1: int, k2: int, id: EntityId|
                0 <= k1 < col && 0 <= k2 < col && k1 != k2 && #[trigger] stack_has_card(
                    *world,
                    tableau_ids@[k1],
                    id,
                ) && #[trigger] stack_has_card(*world, tableau_ids@[k2], id) ==> false,
            forall|id: EntityId|
                deck0.contains(id) ==> (#[trigger] deck@.contains(id) || exists|k: int|
                    0 <= k < col && stack_has_card(*world, #[trigger] tableau_ids@[k], id)),
            forall|o: EntityId|
                !tableau_ids@.take(col as int).contains(o) ==> #[trigger] world.spec_stack(o)
                    == w_piles.spec_stack(o),
            forall|o: EntityId|
                !deck0.contains(o) ==> #[trigger] world.spec_card(o) == w_piles.spec_card(o),
            forall|o: EntityId|
                !deck0.contains(o) ==> #[trigger] world.spec_transform(o)
                    == w_piles.spec_transform(o),
            forall|o: EntityId|
                !deck0.contains(o) ==> #[trigger] world.spec_draggable(o)
                    == w_piles.spec_draggable(o),
            forall|id: EntityId|
                #[trigger] deck@.contains(id) ==> world.spec_transform(id) is Some,
            renderables_eq(*world, w_piles),
            clickables_eq(*world, w_piles),
            droppables_eq(*world, w_piles),
        decreases 7 - col,
    {
        proof {
            lemma_dealt_total_mono(0, col as int);
            lemma_dealt_total_mono(col as int, 7);
            lemma_dealt_total_bounds();
            lemma_dealt_total_next(col as int);
            assert(!deck0.contains(tableau_ids@[col as int]));
            assert(!tableau_ids@.take(col as int).contains(tableau_ids@[col as int])) by {
                if tableau_ids@.take(col as int).contains(tableau_ids@[col as int]) {
                    let k = choose|k: int|
                        0 <= k < col && tableau_ids@.take(col as int)[k]
                            == tableau_ids@[col as int];
                    assert(tableau_ids@[k] == tableau_ids@[col as int]);
                }
            }
        }
        let tab_id = tableau_ids[col];
        let (tab_x, tab_y) = match world.get_transform(tab_id) {
            Some(t) => (t.position.x, t.position.y),
            None => {
                proof {
                    assert(false);
                }
                return Err(EcsError::MissingTransform);
            },
        };
        let ghost w_col = *world;
        let ghost pre_deck = deck@;
        let ghost pre_len = deck@.len() as int;
        let mut col_cards: Vec<EntityId> = Vec::new();
        let mut j: usize = 0;
        while j < col + 1
            invariant
                world.wf(),
                world.boxes_wf(),
                col < 7,
                j <= col + 1,
                24 <= pre_len <= 52,
                col + 1 <= pre_len,
                -ANCHOR_LIMIT <= tab_x <= ANCHOR_LIMIT,
                -ANCHOR_LIMIT <= tab_y <= ANCHOR_LIMIT,
                pre_deck === deck0.take(pre_len),
                deck0.no_duplicates(),
                deck0.len() == 52,
                deck@ === pre_deck.take(pre_len - j),
                col_cards@.len() == j,
                forall|m: int| 0 <= m < j ==> #[trigger] col_cards@[m] == pre_deck[pre_len - 1 - m],
                forall|id: EntityId|
                    #[trigger] pre_deck.contains(id) ==> ((w_col.spec_card(id) matches Some(c)
                        && !c.face_up) && w_col.spec_transform(id) is Some),
                entities_eq(*world, w_col),
                stacks_eq(*world, w_col),
                cards_eq(*world, w_col),
                draggables_eq(*world, w_col),
                renderables_eq(*world, w_col),
                clickables_eq(*world, w_col),
                droppables_eq(*world, w_col),
                forall|o: EntityId|
                    !col_cards@.contains(o) ==> #[trigger] world.spec_transform(o)
                        == w_col.spec_transform(o),
                forall|m: int|
                    0 <= m < j ==> #[trigger] world.spec_transform(col_cards@[m]) is Some,
            decreases col + 1 - j,
        {
            let card = match deck.pop() {
                Some(c) => c,
                None => {
                    proof {
                        assert(false);
                    }
                    return Err(EcsError::MissingCard);
                },
            };
            proof {
                assert(deck@ =~= pre_deck.take(pre_len - j - 1));
                assert(card == pre_deck[pre_len - 1 - j]) by {
                    assert(pre_deck.take(pre_len - j).last() == pre_deck[pre_len - j - 1]);
                }
                assert(pre_deck.contains(card)) by {
                    assert(pre_deck[pre_len - 1 - j] == card);
                }
                assert(!col_cards@.contains(card)) by {
                    if col_cards@.contains(card) {
                        let m = choose|m: int| 0 <= m < j && col_cards@[m] == card;
                        assert(pre_deck[pre_len - 1 - m] == pre_deck[pre_len - 1 - j]);
                        assert(deck0[pre_len - 1 - m] == deck0[pre_len - 1 - j]);
                    }
                }
                assert(world.spec_transform(card) == w_col.spec_transform(card));
            }
            let ghost before_cards = col_cards@;
            let _ = set_card_position(
                world,
                card,
                tab_x,
                tab_y + (j as i64) * STACK_OFFSET_Y,
                j as i64,
            );
            col_cards.push(card);
            proof {
                assert forall|o: EntityId|
                    !col_cards@.contains(o) implies #[trigger] world.spec_transform(o)
                    == w_col.spec_transform(o) by {
                    assert(o != card) by {
                        assert(col_cards@[col_cards@.len() - 1] == card);
                    }
                    assert(!before_cards.contains(o)) by {
                        if before_cards.contains(o) {
                            let m = choose|m: int| 0 <= m < j && before_cards[m] == o;
                            assert(col_cards@[m] == o);
                        }
                    }
                }
                assert forall|m: int|
                    0 <= m < j + 1 implies #[trigger] world.spec_transform(col_cards@[m]) is Some by {
                    if m < j {
                        assert(col_cards@[m] == before_cards[m]);
                        assert(col_cards@[m] != card) by {
                            assert(deck0[pre_len - 1 - m] == col_cards@[m]);
                            assert(deck0[pre_len - 1 - j] == card);
                        }
                    }
                }
            }
            j = j + 1;
        }
        // Turn the column's top card face up.
        let top_card = col_cards[col];
        proof {
            assert(col_cards@[col as int] == pre_deck[pre_len - 1 - col]);
            assert(pre_deck.contains(col_cards@[col as int])) by {
                assert(pre_deck[pre_len - 1 - col] == col_cards@[col as int]);
            }
        }
        match flip_card(world, top_card) {
            Ok(()) => {},
            Err(_) => {
                proof {
                    assert(false);
                }
                return Err(EcsError::MissingCard);
            },
        }
        // Record the column's stack.
        let ghost cc = col_cards@;
        let new_stack = StackContainer {
            stack_type: StackType::Tableau { column: col },
            cards: col_cards,
            max_cards: None,
        };
        let _ = world.add_stack(tab_id, new_stack);
        proof {
            assert forall|a: int, b: int| 0 <= a < b < cc.len() implies cc[a] != cc[b] by {
                assert(cc[a] == pre_deck[pre_len - 1 - a] && cc[b] == pre_deck[pre_len - 1 - b]);
                assert(deck0[pre_len - 1 - a] == cc[a] && deck0[pre_len - 1 - b] == cc[b]);
            }
            assert forall|m: int| 0 <= m < cc.len() implies deck0.contains(#[trigger] cc[m])
                && !deck@.contains(cc[m]) && pre_deck.contains(cc[m]) by {
                assert(cc[m] == pre_deck[pre_len - 1 - m]);
                assert(deck0[pre_len - 1 - m] == cc[m]);
                assert(deck0.contains(cc[m])) by {
                    assert(deck0[pre_len - 1 - m] == cc[m]);
                }
                assert(pre_deck[pre_len - 1 - m] == cc[m]);
                if deck@.contains(cc[m]) {
                    let q = choose|q: int| 0 <= q < deck@.len() && deck@[q] == cc[m];
                    assert(deck0[q] == deck0[pre_len - 1 - m]);
                }
            }
            assert(tableau_column_post(w_init, *world, tableau_ids@[col as int], col as int)) by {
                assert forall|jj: int|
                    0 <= jj <= col implies (world.spec_card(#[trigger] cc[jj]) matches Some(c)
                    && c.face_up == (jj == col as int) && !w_init.spec_alive(cc[jj])) by {
                    assert(cc[jj] == pre_deck[pre_len - 1 - jj]);
                    assert(pre_deck.contains(cc[jj])) by {
                        assert(pre_deck[pre_len - 1 - jj] == cc[jj]);
                    }
                    assert(deck0.contains(cc[jj]));
                    if jj < col {
                        assert(cc[jj] != top_card) by {
                            assert(deck0[pre_len - 1 - jj] == cc[jj]);
                            assert(deck0[pre_len - 1 - col] == top_card);
                        }
                        assert(world.spec_card(cc[jj]) == w_col.spec_card(cc[jj]));
                    }
                }
            }
            // Older columns are untouched by this one.
            assert forall|k: int|
                0 <= k < col implies tableau_column_post(
                w_init,
                *world,
                #[trigger] tableau_ids@[k],
                k,
            ) && (world.spec_stack(tableau_ids@[k]) == w_col.spec_stack(tableau_ids@[k])) by {
                assert(tableau_ids@[k] != tab_id);
                assert(tableau_column_post(w_init, w_col, tableau_ids@[k], k));
                let st = w_col.spec_stack(tableau_ids@[k])->Some_0;
                assert forall|jj: int|
                    0 <= jj <= k implies (world.spec_card(#[trigger] st.cards@[jj]) matches Some(
                    c,
                ) && c.face_up == (jj == k) && !w_init.spec_alive(st.cards@[jj])) by {
                    assert(!pre_deck.contains(st.cards@[jj])) by {
                        assert(!deck@.contains(st.cards@[jj]) || true);
                        assert(deck0.contains(st.cards@[jj]));
                    }
                    assert(st.cards@[jj] != top_card) by {
                        assert(pre_deck[pre_len - 1 - col] == top_card);
                        assert(pre_deck.contains(top_card)) by {
                            assert(pre_deck[pre_len - 1 - col] == top_card);
                        }
                    }
                    assert(world.spec_card(st.cards@[jj]) == w_col.spec_card(st.cards@[jj]));
                }
            }
        }
        col = col + 1;
        proof {
            let cw = col as int;
            let tid = tableau_ids@[cw - 1];
            // Restate the bookkeeping for the grown prefix of columns.
            assert forall|k: int, j2: int|
                0 <= k < cw && 0 <= j2 <= k implies (deck0.contains(
                #[trigger] world.spec_stack(tableau_ids@[k])->Some_0.cards@[j2],
            ) && !deck@.contains(world.spec_stack(tableau_ids@[k])->Some_0.cards@[j2])) by {
                if k < cw - 1 {
                    let id = world.spec_stack(tableau_ids@[k])->Some_0.cards@[j2];
                    assert(world.spec_stack(tableau_ids@[k]) == w_col.spec_stack(
                        tableau_ids@[k],
                    ));
                    assert(deck0.contains(id));
                    assert(!w_col_deck_contains(pre_deck, id)) by {
                        assert(!pre_deck.contains(id));
                    }
                    if deck@.contains(id) {
                        let q = choose|q: int| 0 <= q < deck@.len() && deck@[q] == id;
                        assert(pre_deck[q] == id);
                        assert(pre_deck.contains(id));
                    }
                } else {
                    assert(world.spec_stack(tid)->Some_0.cards@ === cc);
                }
            }
            assert forall|k1: int, k2: int, id: EntityId|
                0 <= k1 < cw && 0 <= k2 < cw && k1 != k2 && #[trigger] stack_has_card(
                *world,
                tableau_ids@[k1],
                id,
            ) && #[trigger] stack_has_card(*world, tableau_ids@[k2], id) implies false by {
                let older: int = if k1 < cw - 1 {
                    k1
                } else {
                    k2
                };
                let newer: int = if k1 < cw - 1 {
                    k2
                } else {
                    k1
                };
                if k1 < cw - 1 && k2 < cw - 1 {
                    assert(stack_has_card(w_col, tableau_ids@[k1], id));
                    assert(stack_has_card(w_col, tableau_ids@[k2], id));
                } else {
                    // One column is the one just dealt: its cards came from the
                    // remaining deck, which no older column intersects.
                    assert(newer == cw - 1 && older < cw - 1);
                    assert(stack_has_card(*world, tableau_ids@[newer], id));
                    let stn = world.spec_stack(tableau_ids@[newer])->Some_0;
                    let m = choose|m: int| 0 <= m < stn.cards@.len() && stn.cards@[m] == id;
                    assert(cc[m] == pre_deck[pre_len - 1 - m]);
                    assert(pre_deck.contains(id)) by {
                        assert(pre_deck[pre_len - 1 - m] == id);
                    }
                    assert(stack_has_card(w_col, tableau_ids@[older], id));
                    let sto = w_col.spec_stack(tableau_ids@[older])->Some_0;
                    let q = choose|q: int| 0 <= q < sto.cards@.len() && sto.cards@[q] == id;
                    assert(!pre_deck.contains(sto.cards@[q]));
                }
            }
            assert forall|id: EntityId|
                deck0.contains(id) implies (#[trigger] deck@.contains(id) || exists|k: int|
                0 <= k < cw && stack_has_card(*world, #[trigger] tableau_ids@[k], id)) by {
                if !deck@.contains(id) {
                    if pre_deck.contains(id) {
                        // Dealt in this column.
                        let q = choose|q: int| 0 <= q < pre_deck.len() && pre_deck[q] == id;
                        assert(stack_has_card(*world, tableau_ids@[cw - 1], id)) by {
                            if q < deck@.len() {
                                assert(deck@[q] == id);
                            } else {
                                let m = pre_len - 1 - q;
                                assert(0 <= m < cw);
                                assert(cc[m] == pre_deck[pre_len - 1 - m]);
                                assert(cc[m] == id);
                                assert(world.spec_stack(tid)->Some_0.cards@[m] == id);
                                assert(world.spec_stack(tid)->Some_0.cards@.contains(id));
                            }
                        }
                    } else {
                        // Dealt in an earlier column.
                        let k = choose|k: int|
                            0 <= k < cw - 1 && stack_has_card(w_col, #[trigger] tableau_ids@[k], id);
                        assert(world.spec_stack(tableau_ids@[k]) == w_col.spec_stack(
                            tableau_ids@[k],
                        ));
                        assert(stack_has_card(*world, tableau_ids@[k], id));
                    }
                }
            }
            assert forall|o: EntityId|
                !tableau_ids@.take(cw).contains(o) implies #[trigger] world.spec_stack(o)
                == w_piles.spec_stack(o) by {
                assert(o != tid) by {
                    assert(tableau_ids@.take(cw)[cw - 1] == tid);
                }
                assert(!tableau_ids@.take(cw - 1).contains(o)) by {
                    if tableau_ids@.take(cw - 1).contains(o) {
                        let k = choose|k: int|
                            0 <= k < cw - 1 && #[trigger] tableau_ids@.take(cw - 1)[k] == o;
                        assert(tableau_ids@.take(cw)[k] == o);
                    }
                }
                assert(world.spec_stack(o) == w_col.spec_stack(o));
            }
            assert forall|o: EntityId|
                !deck0.contains(o) implies #[trigger] world.spec_card(o) == w_piles.spec_card(o)
                && world.spec_transform(o) == w_piles.spec_transform(o) && world.spec_draggable(o)
                == w_piles.spec_draggable(o) by {
                assert(!pre_deck.contains(o)) by {
                    if pre_deck.contains(o) {
                        let q = choose|q: int| 0 <= q < pre_deck.len() && pre_deck[q] == o;
                        assert(deck0[q] == o);
                    }
                }
                assert(o != top_card) by {
                    assert(deck0.contains(top_card)) by {
                        assert(deck0[pre_len - 1 - (cw - 1)] == top_card);
                    }
                }
                assert(!cc.contains(o)) by {
                    if cc.contains(o) {
                        let m = choose|m: int| 0 <= m < cc.len() && cc[m] == o;
                        assert(deck0[pre_len - 1 - m] == o);
                    }
                }
                assert(world.spec_card(o) == w_col.spec_card(o));
                assert(world.spec_transform(o) == w_col.spec_transform(o));
                assert(world.spec_draggable(o) == w_col.spec_draggable(o));
            }
            assert forall|id: EntityId|
                #[trigger] deck@.contains(id) implies world.spec_card(id) == w_piles.spec_card(id)
                && world.spec_transform(id) is Some by {
                assert(pre_deck.contains(id)) by {
                    let q = choose|q: int| 0 <= q < deck@.len() && deck@[q] == id;
                    assert(pre_deck[q] == id);
                }
                assert(id != top_card) by {
                    if deck@.contains(top_card) {
                        let q = choose|q: int| 0 <= q < deck@.len() && deck@[q] == top_card;
                        assert(deck0[q] == deck0[pre_len - 1 - (cw - 1)]);
                    }
                }
                assert(!cc.contains(id)) by {
                    if cc.contains(id) {
                        let m = choose|m: int| 0 <= m < cc.len() && cc[m] == id;
                        assert(deck0[pre_len - 1 - m] == id);
                        let q = choose|q: int| 0 <= q < deck@.len() && deck@[q] == id;
                        assert(deck0[q] == id);
                    }
                }
                assert(world.spec_card(id) == w_col.spec_card(id));
                assert(world.spec_transform(id) == w_col.spec_transform(id));
            }
            assert forall|m: int| 0 <= m < 52 implies world.spec_stack(
                #[trigger] deck0[m],
            ) is None by {
                assert(deck0[m] != tid);
                assert(w_col.spec_stack(deck0[m]) is None);
            }
            // The flip turned one card over; identities never change.
            assert forall|id: EntityId|
                deck0.contains(id) implies ((#[trigger] world.spec_card(id) matches Some(c)
                && w_piles.spec_card(id) matches Some(c0) && c.suit == c0.suit && c.rank == c0.rank
                && c.color == c0.color)) by {
                if id != top_card {
                    assert(world.spec_card(id) == w_col.spec_card(id));
                }
            }
        }
    }

    proof {
        lemma_dealt_total_bounds();
        assert(deck@ === deck0.take(24));
        assert forall|o: EntityId|
            !tableau_ids@.contains(o) implies #[trigger] world.spec_stack(o)
            == w_piles.spec_stack(o) by {
            assert(!tableau_ids@.take(7).contains(o)) by {
                if tableau_ids@.take(7).contains(o) {
                    let k = choose|k: int| 0 <= k < 7 && #[trigger] tableau_ids@.take(7)[k] == o;
                    assert(tableau_ids@[k] == o);
                }
            }
        }
        assert forall|id: EntityId|
            #[trigger] deck@.contains(id) implies world.spec_transform(id) is Some by {
            assert(deck0.contains(id)) by {
                let q = choose|q: int| 0 <= q < deck@.len() && deck@[q] == id;
                assert(deck0[q] == id);
            }
            let m = choose|m: int| 0 <= m < 52 && deck0[m] == id;
            assert(world.spec_card(deck0[m]) is Some || true);
            assert(world.spec_transform(id) == w_piles.spec_transform(id) || true);
            if !deck0.contains(id) {
            }
            assert(world.spec_card(id) == w_piles.spec_card(id));
            assert(w_piles.spec_transform(deck0[m]) is Some);
            assert(world.spec_transform(id) is Some) by {
                if world.spec_transform(id) != w_piles.spec_transform(id) {
                    // The deal only repositions cards; it never removes a
                    // transform, so a changed transform is still present.
                    assert(deck@.contains(id));
                }
            }
        }
    }
    Ok(())
}

/// Parks each given card at the stock's anchor with its list position as its
/// draw order, then records the whole list as the stock's cards.
#[verifier::rlimit(100)]
#[verifier::spinoff_prover]
pub fn add_cards_to_stock(world: &mut World, stock_id: EntityId, cards: Vec<EntityId>) -> (r:
    Result<(), EcsError>)
    requires
        old(world).wf(),
        old(world).boxes_wf(),
        old(world).spec_stack(stock_id) matches Some(st) && st.cards@.len() == 0,
        old(world).spec_transform(stock_id) matches Some(t) && -ANCHOR_LIMIT <= t.position.x
            <= ANCHOR_LIMIT && -ANCHOR_LIMIT <= t.position.y <= ANCHOR_LIMIT,
        cards@.no_duplicates(),
        cards@.len() <= MAX_ENTITIES,
        forall|i: int| 0 <= i < cards@.len() ==> old(world).spec_transform(#[trigger] cards@[i]) is Some,
        forall|i: int| 0 <= i < cards@.len() ==> #[trigger] cards@[i] != stock_id,
    ensures
        final(world).wf(),
        final(world).boxes_wf(),
        r is Ok,
        entities_eq(*final(world), *old(world)),
        final(world).spec_stack(stock_id) matches Some(st) && st.cards@ === cards@ && st.stack_type
            == old(world).spec_stack(stock_id)->Some_0.stack_type && st.max_cards == old(
            world,
        ).spec_stack(stock_id)->Some_0.max_cards,
        forall|o: EntityId|
            o != stock_id ==> #[trigger] final(world).spec_stack(o) == old(world).spec_stack(o),
        forall|i: int|
            0 <= i < cards@.len() ==> #[trigger] final(world).spec_transform(cards@[i]) == Some(
                Transform {
                    position: old(world).spec_transform(stock_id)->Some_0.position,
                    z_index: i as i64,
                    ..old(world).spec_transform(cards@[i])->Some_0
                },
            ),
        forall|o: EntityId|
            !cards@.contains(o) ==> #[trigger] final(world).spec_transform(o) == old(
                world,
            ).spec_transform(o),
        cards_eq(*final(world), *old(world)),
        draggables_eq(*final(world), *old(world)),
        renderables_eq(*final(world), *old(world)),
        clickables_eq(*final(world), *old(world)),
        droppables_eq(*final(world), *old(world)),
{
    let (sx, sy) = match world.get_transform(stock_id) {
        Some(t) => (t.position.x, t.position.y),
        None => {
            proof {
                assert(false);
            }
            return Err(EcsError::MissingTransform);
        },
    };
    let ghost w0 = *old(world);
    let ghost cs = cards@;
    let mut i: usize = 0;
    while i < cards.len()
        invariant
            world.wf(),
            world.boxes_wf(),
            cards@ === cs,
            i <= cs.len(),
            cs.len() <= MAX_ENTITIES,
            cs.no_duplicates(),
            -ANCHOR_LIMIT <= sx <= ANCHOR_LIMIT,
            -ANCHOR_LIMIT <= sy <= ANCHOR_LIMIT,
            w0.spec_transform(stock_id) matches Some(t) && t.position.x == sx && t.position.y
                == sy,
            forall|m: int| 0 <= m < cs.len() ==> w0.spec_transform(#[trigger] cs[m]) is Some,
            entities_eq(*world, w0),
            stacks_eq(*world, w0),
            cards_eq(*world, w0),
            draggables_eq(*world, w0),
            renderables_eq(*world, w0),
            clickables_eq(*world, w0),
            droppables_eq(*world, w0),
            forall|m: int|
                0 <= m < i ==> #[trigger] world.spec_transform(cs[m]) == Some(
                    Transform {
                        position: Vec2 { x: sx, y: sy },
                        z_index: m as i64,
                        ..w0.spec_transform(cs[m])->Some_0
                    },
                ),
            forall|o: EntityId|
                !cs.take(i as int).contains(o) ==> #[trigger] world.spec_transform(o)
                    == w0.spec_transform(o),
        decreases cs.len() - i,
    {
        let cid = cards[i];
        proof {
            assert(!cs.take(i as int).contains(cid)) by {
                if cs.take(i as int).contains(cid) {
                    let m = choose|m: int| 0 <= m < i && cs.take(i as int)[m] == cid;
                    assert(cs[m] == cs[i as int]);
                }
            }
        }
        let _ = set_card_position(world, cid, sx, sy, i as i64);
        proof {
            let ghost prev = cs.take(i as int);
            assert forall|m: int|
                0 <= m < i + 1 implies #[trigger] world.spec_transform(cs[m]) == Some(
                Transform {
                    position: Vec2 { x: sx, y: sy },
                    z_index: m as i64,
                    ..w0.spec_transform(cs[m])->Some_0
                },
            ) by {
                if m < i {
                    assert(cs[m] != cid) by {
                        assert(cs.no_duplicates());
                    }
                }
            }
            assert forall|o: EntityId|
                !cs.take(i + 1).contains(o) implies #[trigger] world.spec_transform(o)
                == w0.spec_transform(o) by {
                assert(o != cid) by {
                    assert(cs.take(i + 1)[i as int] == cid);
                }
                assert(!prev.contains(o)) by {
                    if prev.contains(o) {
                        let m = choose|m: int| 0 <= m < i && prev[m] == o;
                        assert(cs.take(i + 1)[m] == o);
                    }
                }
            }
        }
        i = i + 1;
    }
    let new_stock = match world.get_stack(stock_id) {
        Some(st) => {
            StackContainer { stack_type: st.stack_type, cards, max_cards: st.max_cards }
        },
        None => {
            proof {
                assert(false);
            }
            return Err(EcsError::MissingStack);
        },
    };
    let _ = world.add_stack(stock_id, new_stock);
    Ok(())
}


/// All components of the entity agree between the two worlds.
pub open spec fn components_match(a: World, b: World, o: EntityId) -> bool {
    &&& a.spec_transform(o) == b.spec_transform(o)
    &&& a.spec_card(o) == b.spec_card(o)
    &&& a.spec_renderable(o) == b.spec_renderable(o)
    &&& a.spec_draggable(o) == b.spec_draggable(o)
    &&& a.spec_clickable(o) == b.spec_clickable(o)
    &&& a.spec_stack(o) == b.spec_stack(o)
    &&& a.spec_droppable(o) == b.spec_droppable(o)
}

/// Helper alias so the deal proofs can name the remaining deck of a column.
pub open spec fn w_col_deck_contains(pre_deck: Seq<EntityId>, id: EntityId) -> bool {
    pre_deck.contains(id)
}

/// The shape of the world right after the piles are built, before dealing:
/// the deck ids and pile ids are laid out above the initial world's next id,
/// the piles are empty stacks at their anchors, every deck id is a fresh
/// face-down card, and everything the initial world owned is untouched.
pub open spec fn piles_shape(
    w_init: World,
    w: World,
    stock_id: EntityId,
    waste_id: EntityId,
    tabs: Seq<EntityId>,
    founds: Seq<EntityId>,
    deck0: Seq<EntityId>,
) -> bool {
    &&& tabs.len() == 7
    &&& founds.len() == 4
    &&& stock_id == w_init.next_id() + 52
    &&& waste_id == w_init.next_id() + 53
    &&& forall|k: int| 0 <= k < 7 ==> #[trigger] tabs[k] == w_init.next_id() + 54 + k
    &&& forall|k: int| 0 <= k < 4 ==> #[trigger] founds[k] == w_init.next_id() + 61 + k
    &&& deck0.len() == 52
    &&& deck0.no_duplicates()
    &&& forall|id: EntityId|
        #[trigger] deck0.contains(id) ==> w_init.next_id() <= id < w_init.next_id() + 52
    &&& forall|o: EntityId|
        w_init.next_id() <= o < w_init.next_id() + 52 ==> #[trigger] deck0.contains(o)
    &&& w.spec_stack(stock_id) matches Some(st) && st.stack_type == StackType::Stock
        && st.cards@.len() == 0 && st.max_cards is None
    &&& w.spec_transform(stock_id) matches Some(t) && t.position.x == STOCK_X && t.position.y
        == STOCK_Y && t.z_index == 0
    &&& w.spec_transform(waste_id) matches Some(t) && t.position.x == WASTE_X && t.position.y
        == WASTE_Y && t.z_index == 0
    &&& w.spec_stack(waste_id) matches Some(st) && st.stack_type == StackType::Waste
        && st.cards@.len() == 0
    &&& forall|k: int|
        0 <= k < 7 ==> (w.spec_stack(#[trigger] tabs[k]) matches Some(st) && st.stack_type == (
        StackType::Tableau { column: k as usize }) && st.cards@.len() == 0 && st.max_cards is None)
    &&& forall|k: int|
        0 <= k < 7 ==> (w.spec_transform(#[trigger] tabs[k]) matches Some(t) && t.position.x
            == TABLEAU_START_X + k * PILE_SPACING_X && t.position.y == TABLEAU_START_Y
            && t.z_index == 0)
    &&& forall|k: int|
        0 <= k < 4 ==> (w.spec_stack(#[trigger] founds[k]) matches Some(st) && st.stack_type == (
        StackType::Foundation { suit: k as usize }) && st.cards@.len() == 0 && st.max_cards == Some(
            13usize,
        ))
    &&& forall|k: int|
        0 <= k < 4 ==> (w.spec_transform(#[trigger] founds[k]) matches Some(t) && t.position.x
            == FOUNDATION_START_X + k * PILE_SPACING_X && t.position.y == FOUNDATION_START_Y
            && t.z_index == 0)
    &&& forall|m: int|
        0 <= m < 52 ==> ((w.spec_card(#[trigger] deck0[m]) matches Some(c) && !c.face_up)
            && w.spec_card(deck0[m]) == Some(
            crate::card::deck_card(deck0[m] - w_init.next_id()),
        ) && (w.spec_transform(deck0[m]) matches Some(t) && t.position.x == STOCK_X
            && t.position.y == STOCK_Y && 0 <= t.z_index < 52) && w.spec_stack(deck0[m]) is None
            && w.spec_droppable(deck0[m]) is None && w.spec_renderable(deck0[m]) == Some(
            crate::component::Renderable::card_spec(),
        ) && !w_init.spec_alive(deck0[m]))
    &&& forall|k: int|
        0 <= k < 7 ==> ((w.spec_droppable(#[trigger] tabs[k]) matches Some(d) && 0 <= d.width
            <= CARD_WIDTH && 0 <= d.height <= CARD_HEIGHT) && w.spec_renderable(tabs[k]) is None)
    &&& forall|k: int|
        0 <= k < 4 ==> ((w.spec_droppable(#[trigger] founds[k]) matches Some(d) && 0 <= d.width
            <= CARD_WIDTH && 0 <= d.height <= CARD_HEIGHT) && w.spec_renderable(founds[k]) is None)
    &&& w.spec_droppable(stock_id) is None
    &&& w.spec_renderable(stock_id) is None
    &&& w.spec_droppable(waste_id) is None
    &&& w.spec_renderable(waste_id) is None
    &&& piles_card_none(w, stock_id, waste_id, tabs, founds)
    &&& w.alive_seq().len() == w_init.alive_seq().len() + 65
    &&& w.pending_removal() === w_init.pending_removal()
    &&& w.next_id() == w_init.next_id() + 65
    &&& forall|o: EntityId| o < w_init.next_id() ==> #[trigger] components_match(w, w_init, o)
}

proof fn lemma_dealt_total_mono(a: int, b: int)
    requires
        0 <= a <= b,
    ensures
        spec_dealt_total(a) <= spec_dealt_total(b),
    decreases b - a,
{
    if a < b {
        lemma_dealt_total_mono(a, b - 1);
        lemma_dealt_total_next(b - 1);
    }
}

/// How many cards the first `col` columns hold together.
pub open spec fn spec_dealt_total(col: int) -> int
    decreases col,
{
    if col <= 0 {
        0
    } else {
        spec_dealt_total(col - 1) + col
    }
}

proof fn lemma_dealt_total_next(col: int)
    requires
        col >= 0,
    ensures
        spec_dealt_total(col + 1) == spec_dealt_total(col) + col + 1,
{
}

proof fn lemma_dealt_total_bounds()
    ensures
        spec_dealt_total(0) == 0,
        spec_dealt_total(1) == 1,
        spec_dealt_total(2) == 3,
        spec_dealt_total(3) == 6,
        spec_dealt_total(4) == 10,
        spec_dealt_total(5) == 15,
        spec_dealt_total(6) == 21,
        spec_dealt_total(7) == 28,
{
    assert(spec_dealt_total(0) == 0);
    assert(spec_dealt_total(1) == 1);
    assert(spec_dealt_total(2) == 3);
    assert(spec_dealt_total(3) == 6);
    assert(spec_dealt_total(4) == 10);
    assert(spec_dealt_total(5) == 15);
    assert(spec_dealt_total(6) == 21);
    assert(spec_dealt_total(7) == 28);
}

} // verus!
