//! Card entities: creation, flipping, positioning, the pure stacking
//! predicates of the rules, and the shuffled deck.

use vstd::prelude::*;

use rand::seq::SliceRandom;

use crate::component::{
    suit_color, CardInfo, ClickHandlerType, Clickable, Draggable, Renderable, Transform,
};
use crate::constants::{CARD_HEIGHT, CARD_WIDTH};
use crate::utils::Vec2;
use crate::world::{
    cards_eq, clickables_eq, draggables_eq, droppables_eq, entities_eq, renderables_eq, stacks_eq,
    transforms_eq, World,
};
use crate::{EcsError, EntityId, COORD_LIMIT, MAX_ENTITIES, Z_LIMIT};

verus! {

/// Tableau rule: an empty column takes a king only; a card goes on a
/// non-empty column exactly when its color differs from the top card's and
/// its rank is one below it.
pub open spec fn tableau_accepts(card: CardInfo, top: Option<CardInfo>) -> bool {
    match top {
        None => card.rank == 12,
        Some(t) => card.color != t.color && card.rank + 1 == t.rank,
    }
}

/// Foundation rule: the empty foundation of a suit takes the ace of that
/// suit only; a card goes on a non-empty foundation exactly when it is of
/// the foundation's suit and one rank above the top card.
pub open spec fn foundation_accepts(card: CardInfo, suit: usize, top: Option<CardInfo>) -> bool {
    match top {
        None => card.rank == 0 && card.suit as usize == suit,
        Some(t) => card.suit as usize == suit && card.rank == t.rank + 1,
    }
}

/// A card's color is red exactly for the two low suits, and flipping a card
/// never changes its color: the color of a constructed card, flipped any
/// number of times, is determined by the suit alone.
pub proof fn lemma_card_color_fixed(suit: u8, rank: u8, card: CardInfo)
    requires
        suit < 4,
        rank < 13,
    ensures
        (CardInfo { suit, rank, face_up: false, color: suit_color(suit) }).spec_is_red() <==> suit
            < 2,
        (CardInfo { face_up: !card.face_up, ..card }).spec_is_red() == card.spec_is_red(),
{
}

/// Builds one card entity: a transform at the given position and draw order,
/// the card identity (its color derived from the suit), a card-sized
/// renderable, drag bookkeeping when it starts face up, and a flip-on-click
/// handler. Fails exactly when no entity can be created, and then changes
/// nothing.
pub fn create_card(
    world: &mut World,
    suit: u8,
    rank: u8,
    x: i64,
    y: i64,
    face_up: bool,
    z_index: i64,
) -> (r: Result<EntityId, EcsError>)
    requires
        old(world).wf(),
        suit < 4,
        rank < 13,
        -COORD_LIMIT <= x <= COORD_LIMIT,
        -COORD_LIMIT <= y <= COORD_LIMIT,
        -Z_LIMIT <= z_index <= Z_LIMIT,
    ensures
        final(world).wf(),
        (r is Ok) <==> (old(world).alive_seq().len() < MAX_ENTITIES && old(world).next_id()
            < usize::MAX),
        r is Err ==> *final(world) == *old(world) && r == Err::<EntityId, EcsError>(
            EcsError::CapacityReached,
        ),
        r matches Ok(id) ==> {
            &&& id == old(world).next_id()
            &&& !old(world).spec_alive(id)
            &&& final(world).alive_seq() === old(world).alive_seq().push(id)
            &&& final(world).next_id() == id + 1
            &&& final(world).pending_removal() === old(world).pending_removal()
            &&& final(world).spec_card(id) == Some(
                CardInfo { suit, rank, face_up, color: suit_color(suit) },
            )
            &&& final(world).spec_transform(id) == Some(
                Transform {
                    position: Vec2 { x, y },
                    scale: Vec2 { x: 1000i64, y: 1000i64 },
                    rotation: 0i64,
                    z_index,
                },
            )
            &&& final(world).spec_renderable(id) == Some(Renderable::card_spec())
            &&& final(world).spec_draggable(id) == if face_up {
                Some(Draggable::default_spec())
            } else {
                None::<Draggable>
            }
            &&& final(world).spec_clickable(id) == Some(
                Clickable {
                    is_hovering: false,
                    was_clicked: false,
                    click_handler: ClickHandlerType::FlipCard,
                },
            )
            &&& final(world).spec_stack(id) is None
            &&& final(world).spec_droppable(id) is None
            &&& forall|o: EntityId|
                o != id ==> {
                    &&& final(world).spec_transform(o) == old(world).spec_transform(o)
                    &&& final(world).spec_card(o) == old(world).spec_card(o)
                    &&& final(world).spec_renderable(o) == old(world).spec_renderable(o)
                    &&& final(world).spec_draggable(o) == old(world).spec_draggable(o)
                    &&& final(world).spec_clickable(o) == old(world).spec_clickable(o)
                    &&& final(world).spec_stack(o) == old(world).spec_stack(o)
                    &&& final(world).spec_droppable(o) == old(world).spec_droppable(o)
                }
        },
{
    let entity_id = match world.create_entity() {
        Ok(id) => id,
        Err(e) => {
            return Err(e);
        },
    };
    proof {
        assert(world.spec_alive(entity_id)) by {
            assert(world.alive_seq()[world.alive_seq().len() - 1] == entity_id);
        }
    }
    let transform = Transform::new(x, y).with_z_index(z_index);
    let _ = world.add_transform(entity_id, transform);
    let mut card_info = CardInfo::new(suit, rank);
    card_info.face_up = face_up;
    let _ = world.add_card_info(entity_id, card_info);
    let renderable = Renderable::card(CARD_WIDTH, CARD_HEIGHT);
    let _ = world.add_renderable(entity_id, renderable);
    if face_up {
        let _ = world.add_draggable(entity_id, Draggable::new());
    }
    let clickable = Clickable::new(ClickHandlerType::FlipCard);
    let _ = world.add_clickable(entity_id, clickable);
    Ok(entity_id)
}

/// Turns a card over. A card that turns face up becomes draggable if it was
/// not. Fails exactly when the entity carries no card identity, and then
/// changes nothing.
pub fn flip_card(world: &mut World, card_id: EntityId) -> (r: Result<(), EcsError>)
    requires
        old(world).wf(),
    ensures
        final(world).wf(),
        (r is Ok) <==> old(world).spec_card(card_id) is Some,
        r is Err ==> *final(world) == *old(world) && r == Err::<(), EcsError>(EcsError::MissingCard),
        r is Ok ==> {
            let c = old(world).spec_card(card_id)->Some_0;
            &&& entities_eq(*final(world), *old(world))
            &&& final(world).spec_card(card_id) == Some(CardInfo { face_up: !c.face_up, ..c })
            &&& forall|o: EntityId|
                o != card_id ==> final(world).spec_card(o) == old(world).spec_card(o)
            &&& final(world).spec_draggable(card_id) == if !c.face_up && old(world).spec_draggable(
                card_id,
            ) is None {
                Some(Draggable::default_spec())
            } else {
                old(world).spec_draggable(card_id)
            }
            &&& forall|o: EntityId|
                o != card_id ==> final(world).spec_draggable(o) == old(world).spec_draggable(o)
            &&& transforms_eq(*final(world), *old(world))
            &&& renderables_eq(*final(world), *old(world))
            &&& clickables_eq(*final(world), *old(world))
            &&& stacks_eq(*final(world), *old(world))
            &&& droppables_eq(*final(world), *old(world))
        },
{
    let info = match world.get_card_info(card_id) {
        Some(c) => *c,
        None => {
            return Err(EcsError::MissingCard);
        },
    };
    let flipped = CardInfo { face_up: !info.face_up, ..info };
    let _ = world.add_card_info(card_id, flipped);
    if flipped.face_up && !world.has_draggable(card_id) {
        let _ = world.add_draggable(card_id, Draggable::new());
    }
    Ok(())
}

/// Whether `source_card_id` may go on top of `target_card_id` in a tableau:
/// both carry card identities, the colors differ and the source is one rank
/// below the target.
pub fn can_stack_card(world: &World, source_card_id: EntityId, target_card_id: EntityId) -> (r:
    bool)
    ensures
        r == (world.spec_card(source_card_id) matches Some(s) && world.spec_card(target_card_id)
            matches Some(t) && s.color != t.color && s.rank + 1 == t.rank),
{
    let source = match world.get_card_info(source_card_id) {
        Some(c) => *c,
        None => {
            return false;
        },
    };
    let target = match world.get_card_info(target_card_id) {
        Some(c) => *c,
        None => {
            return false;
        },
    };
    source.color != target.color && source.rank as u64 + 1 == target.rank as u64
}

/// Whether the card may open the empty foundation of `foundation_suit`:
/// it must be the ace of that suit.
pub fn can_stack_on_foundation(world: &World, card_id: EntityId, foundation_suit: u8) -> (r: bool)
    ensures
        r == (world.spec_card(card_id) matches Some(c) && c.suit == foundation_suit && c.rank == 0),
{
    match world.get_card_info(card_id) {
        Some(c) => c.suit == foundation_suit && c.rank == 0,
        None => false,
    }
}

/// Whether the card may go on the card now topping a foundation: same suit,
/// one rank above.
pub fn can_stack_on_existing_foundation(
    world: &World,
    card_id: EntityId,
    top_foundation_card_id: EntityId,
) -> (r: bool)
    ensures
        r == (world.spec_card(card_id) matches Some(c) && world.spec_card(top_foundation_card_id)
            matches Some(t) && c.suit == t.suit && c.rank == t.rank + 1),
{
    let card = match world.get_card_info(card_id) {
        Some(c) => *c,
        None => {
            return false;
        },
    };
    let top = match world.get_card_info(top_foundation_card_id) {
        Some(c) => *c,
        None => {
            return false;
        },
    };
    card.suit == top.suit && card.rank as u64 == top.rank as u64 + 1
}

/// The card identity the deck holds at index `i`: suits change every
/// thirteen cards, ranks cycle within a suit, and every card starts face
/// down.
pub open spec fn deck_card(i: int) -> CardInfo {
    CardInfo {
        suit: (i / 13) as u8,
        rank: (i % 13) as u8,
        face_up: false,
        color: suit_color((i / 13) as u8),
    }
}

/// Builds the full 52-card deck at one position, face down, with draw orders
/// 0 to 51. Returns the card entities in deck order: thirteen ranks of each
/// suit in turn.
pub fn create_deck(world: &mut World, x: i64, y: i64) -> (r: Result<Vec<EntityId>, EcsError>)
    requires
        old(world).wf(),
        old(world).alive_seq().len() + 52 <= MAX_ENTITIES,
        old(world).next_id() + 52 <= usize::MAX,
        -COORD_LIMIT <= x <= COORD_LIMIT,
        -COORD_LIMIT <= y <= COORD_LIMIT,
    ensures
        final(world).wf(),
        r is Ok,
        r matches Ok(deck) ==> {
            &&& deck@.len() == 52
            &&& forall|i: int| 0 <= i < 52 ==> deck@[i] == old(world).next_id() + i
            &&& final(world).next_id() == old(world).next_id() + 52
            &&& final(world).alive_seq() === old(world).alive_seq() + deck@
            &&& final(world).pending_removal() === old(world).pending_removal()
            &&& forall|i: int|
                0 <= i < 52 ==> final(world).spec_card(#[trigger] deck@[i]) == Some(deck_card(i))
            &&& forall|i: int|
                0 <= i < 52 ==> final(world).spec_transform(#[trigger] deck@[i]) == Some(
                    Transform {
                        position: Vec2 { x, y },
                        scale: Vec2 { x: 1000i64, y: 1000i64 },
                        rotation: 0i64,
                        z_index: i as i64,
                    },
                )
            &&& forall|i: int|
                0 <= i < 52 ==> final(world).spec_renderable(#[trigger] deck@[i]) == Some(
                    Renderable::card_spec(),
                )
            &&& forall|i: int| 0 <= i < 52 ==> final(world).spec_draggable(#[trigger] deck@[i]) is None
            &&& forall|i: int|
                0 <= i < 52 ==> final(world).spec_stack(#[trigger] deck@[i]) is None
                    && final(world).spec_droppable(deck@[i]) is None
            &&& forall|o: EntityId|
                !deck@.contains(o) ==> {
                    &&& final(world).spec_transform(o) == old(world).spec_transform(o)
                    &&& final(world).spec_card(o) == old(world).spec_card(o)
                    &&& final(world).spec_renderable(o) == old(world).spec_renderable(o)
                    &&& final(world).spec_draggable(o) == old(world).spec_draggable(o)
                    &&& final(world).spec_clickable(o) == old(world).spec_clickable(o)
                    &&& final(world).spec_stack(o) == old(world).spec_stack(o)
                    &&& final(world).spec_droppable(o) == old(world).spec_droppable(o)
                }
        },
{
    let mut deck: Vec<EntityId> = Vec::new();
    let mut k: usize = 0;
    while k < 52
        invariant
            world.wf(),
            k <= 52,
            deck@.len() == k,
            world.next_id() == old(world).next_id() + k,
            world.alive_seq() === old(world).alive_seq() + deck@,
            world.pending_removal() === old(world).pending_removal(),
            old(world).alive_seq().len() + 52 <= MAX_ENTITIES,
            old(world).next_id() + 52 <= usize::MAX,
            -COORD_LIMIT <= x <= COORD_LIMIT,
            -COORD_LIMIT <= y <= COORD_LIMIT,
            forall|i: int| 0 <= i < k ==> deck@[i] == old(world).next_id() + i,
            forall|i: int| 0 <= i < k ==> world.spec_card(#[trigger] deck@[i]) == Some(deck_card(i)),
            forall|i: int|
                0 <= i < k ==> world.spec_transform(#[trigger] deck@[i]) == Some(
                    Transform {
                        position: Vec2 { x, y },
                        scale: Vec2 { x: 1000i64, y: 1000i64 },
                        rotation: 0i64,
                        z_index: i as i64,
                    },
                ),
            forall|i: int|
                0 <= i < k ==> world.spec_renderable(#[trigger] deck@[i]) == Some(
                    Renderable::card_spec(),
                ),
            forall|i: int| 0 <= i < k ==> world.spec_draggable(#[trigger] deck@[i]) is None,
            forall|i: int|
                0 <= i < k ==> world.spec_stack(#[trigger] deck@[i]) is None && world.spec_droppable(
                    deck@[i],
                ) is None,
            forall|o: EntityId|
                !deck@.contains(o) ==> {
                    &&& world.spec_transform(o) == old(world).spec_transform(o)
                    &&& world.spec_card(o) == old(world).spec_card(o)
                    &&& world.spec_renderable(o) == old(world).spec_renderable(o)
                    &&& world.spec_draggable(o) == old(world).spec_draggable(o)
                    &&& world.spec_clickable(o) == old(world).spec_clickable(o)
                    &&& world.spec_stack(o) == old(world).spec_stack(o)
                    &&& world.spec_droppable(o) == old(world).spec_droppable(o)
                },
        decreases 52 - k,
    {
        let ghost pre = *world;
        let ghost pre_deck = deck@;
        let suit = (k / 13) as u8;
        let rank = (k % 13) as u8;
        let card_id = match create_card(world, suit, rank, x, y, false, k as i64) {
            Ok(id) => id,
            Err(_) => {
                proof {
                    // Room for the whole deck was required, so creation
                    // cannot fail.
                    assert(pre.alive_seq().len() == old(world).alive_seq().len() + k);
                    assert(false);
                }
                return Err(EcsError::CapacityReached);
            },
        };
        deck.push(card_id);
        proof {
            assert(world.alive_seq() =~= old(world).alive_seq() + deck@) by {
                assert(world.alive_seq() =~= (old(world).alive_seq() + pre_deck).push(card_id));
            }
            assert forall|o: EntityId| !deck@.contains(o) implies {
                &&& world.spec_transform(o) == old(world).spec_transform(o)
                &&& world.spec_card(o) == old(world).spec_card(o)
                &&& world.spec_renderable(o) == old(world).spec_renderable(o)
                &&& world.spec_draggable(o) == old(world).spec_draggable(o)
                &&& world.spec_clickable(o) == old(world).spec_clickable(o)
                &&& world.spec_stack(o) == old(world).spec_stack(o)
                &&& world.spec_droppable(o) == old(world).spec_droppable(o)
            } by {
                assert(!pre_deck.contains(o)) by {
                    if pre_deck.contains(o) {
                        let i = choose|i: int| 0 <= i < pre_deck.len() && pre_deck[i] == o;
                        assert(deck@[i] == o);
                    }
                }
                assert(o != card_id) by {
                    assert(deck@[deck@.len() - 1] == card_id);
                }
            }
            assert forall|i: int|
                0 <= i < k + 1 implies world.spec_card(#[trigger] deck@[i]) == Some(deck_card(i))
                && world.spec_transform(deck@[i]) == Some(
                Transform {
                    position: Vec2 { x, y },
                    scale: Vec2 { x: 1000i64, y: 1000i64 },
                    rotation: 0i64,
                    z_index: i as i64,
                },
            ) && world.spec_renderable(deck@[i]) == Some(Renderable::card_spec())
                && world.spec_draggable(deck@[i]) is None && world.spec_stack(deck@[i]) is None
                && world.spec_droppable(deck@[i]) is None by {
                if i < k {
                    assert(deck@[i] == pre_deck[i]);
                    assert(deck@[i] != card_id);
                } else {
                    assert(deck@[i] == card_id);
                    assert(deck_card(i) == (CardInfo {
                        suit,
                        rank,
                        face_up: false,
                        color: suit_color(suit),
                    }));
                }
            }
        }
        k = k + 1;
    }
    Ok(deck)
}

/// Relies on rand's `SliceRandom::shuffle`: it permutes the vector in
/// place, so the result holds exactly the ids of the input, as a multiset.
/// Which permutation comes out depends on the thread's random generator.
#[verifier::external_body]
pub fn shuffle_deck(deck: &mut Vec<EntityId>)
    ensures
        final(deck)@.to_multiset() == old(deck)@.to_multiset(),
        final(deck)@.len() == old(deck)@.len(),
{
    deck.shuffle(&mut rand::thread_rng());
}

/// Moves a card to a position and draw order; the rest of its transform is
/// kept. Fails exactly when the entity carries no transform, and then
/// changes nothing.
pub fn set_card_position(
    world: &mut World,
    card_id: EntityId,
    x: i64,
    y: i64,
    z_index: i64,
) -> (r: Result<(), EcsError>)
    requires
        old(world).wf(),
        -COORD_LIMIT <= x <= COORD_LIMIT,
        -COORD_LIMIT <= y <= COORD_LIMIT,
        -Z_LIMIT <= z_index <= Z_LIMIT,
    ensures
        final(world).wf(),
        (r is Ok) <==> old(world).spec_transform(card_id) is Some,
        r is Err ==> *final(world) == *old(world) && r == Err::<(), EcsError>(
            EcsError::MissingTransform,
        ),
        r is Ok ==> {
            let t = old(world).spec_transform(card_id)->Some_0;
            &&& entities_eq(*final(world), *old(world))
            &&& final(world).spec_transform(card_id) == Some(
                Transform { position: Vec2 { x, y }, z_index, ..t },
            )
            &&& forall|o: EntityId|
                o != card_id ==> final(world).spec_transform(o) == old(world).spec_transform(o)
            &&& cards_eq(*final(world), *old(world))
            &&& renderables_eq(*final(world), *old(world))
            &&& draggables_eq(*final(world), *old(world))
            &&& clickables_eq(*final(world), *old(world))
            &&& stacks_eq(*final(world), *old(world))
            &&& droppables_eq(*final(world), *old(world))
        },
{
    let t = match world.get_transform(card_id) {
        Some(t) => *t,
        None => {
            return Err(EcsError::MissingTransform);
        },
    };
    let moved = Transform { position: Vec2 { x, y }, z_index, ..t };
    let _ = world.add_transform(card_id, moved);
    Ok(())
}

/// Makes a card draggable or takes its drag bookkeeping away. Fails exactly
/// when it should become draggable but the entity is not alive; taking the
/// bookkeeping away never fails.
pub fn set_card_draggable(world: &mut World, card_id: EntityId, draggable: bool) -> (r: Result<
    (),
    EcsError,
>)
    requires
        old(world).wf(),
    ensures
        final(world).wf(),
        (r is Ok) <==> (!draggable || old(world).spec_alive(card_id)),
        r is Err ==> *final(world) == *old(world) && r == Err::<(), EcsError>(
            EcsError::MissingEntity,
        ),
        r is Ok ==> {
            &&& entities_eq(*final(world), *old(world))
            &&& final(world).spec_draggable(card_id) == if draggable {
                if old(world).spec_draggable(card_id) is Some {
                    old(world).spec_draggable(card_id)
                } else {
                    Some(Draggable::default_spec())
                }
            } else {
                None::<Draggable>
            }
            &&& forall|o: EntityId|
                o != card_id ==> final(world).spec_draggable(o) == old(world).spec_draggable(o)
            &&& transforms_eq(*final(world), *old(world))
            &&& cards_eq(*final(world), *old(world))
            &&& renderables_eq(*final(world), *old(world))
            &&& clickables_eq(*final(world), *old(world))
            &&& stacks_eq(*final(world), *old(world))
            &&& droppables_eq(*final(world), *old(world))
        },
{
    if draggable {
        if !world.has_draggable(card_id) {
            match world.add_draggable(card_id, Draggable::new()) {
                Ok(()) => Ok(()),
                Err(e) => Err(e),
            }
        } else {
            Ok(())
        }
    } else {
        let _ = world.remove_draggable(card_id);
        Ok(())
    }
}

} // verus!
