//! Per-kind component storage and the component kinds of the game.
//!
//! The kind set of this game is closed and small, so instead of a store
//! keyed by a runtime type tag, each kind gets its own typed table and the
//! world holds one table per kind. A table is a growable array of slots
//! indexed by entity id (ids are issued in increasing order and never
//! reused, so the array only ever grows).

use vstd::prelude::*;

use crate::utils::Vec2;
use crate::EntityId;

verus! {

/// Stores at most one component of kind `T` per entity.
pub struct ComponentStorage<T> {
    slots: Vec<Option<T>>,
}

impl<T> ComponentStorage<T> {
    /// The component held for `id`, if any.
    pub closed spec fn spec_get(&self, id: EntityId) -> Option<T> {
        if id < self.slots@.len() {
            self.slots@[id as int]
        } else {
            None
        }
    }

    pub fn new() -> (r: Self)
        ensures
            forall|id: EntityId| r.spec_get(id) is None,
    {
        ComponentStorage { slots: Vec::new() }
    }

    /// Attaches `component` to `id`, replacing any component of this kind the
    /// entity already had.
    pub fn add(&mut self, id: EntityId, component: T)
        ensures
            final(self).spec_get(id) == Some(component),
            forall|o: EntityId| o != id ==> final(self).spec_get(o) == old(self).spec_get(o),
    {
        while self.slots.len() <= id
            invariant
                forall|o: EntityId| self.spec_get(o) == old(self).spec_get(o),
            decreases id + 1 - self.slots@.len(),
        {
            self.slots.push(None);
        }
        self.slots.set(id, Some(component));
    }

    /// Detaches and returns the component of this kind from `id`.
    pub fn remove(&mut self, id: EntityId) -> (r: Option<T>)
        ensures
            r == old(self).spec_get(id),
            final(self).spec_get(id) is None,
            forall|o: EntityId| o != id ==> final(self).spec_get(o) == old(self).spec_get(o),
    {
        if id < self.slots.len() {
            let r = self.slots.remove(id);
            self.slots.insert(id, None);
            proof {
                assert(self.slots@ =~= old(self).slots@.update(id as int, None));
            }
            r
        } else {
            None
        }
    }

    /// The component held for `id`, if any.
    pub fn get(&self, id: EntityId) -> (r: Option<&T>)
        ensures
            match r {
                Some(v) => self.spec_get(id) == Some(*v),
                None => self.spec_get(id) is None,
            },
    {
        if id < self.slots.len() {
            match &self.slots[id] {
                Some(v) => Some(v),
                None => None,
            }
        } else {
            None
        }
    }

    /// Whether `id` carries a component of this kind.
    pub fn has(&self, id: EntityId) -> (r: bool)
        ensures
            r == (self.spec_get(id) is Some),
    {
        id < self.slots.len() && self.slots[id].is_some()
    }

    /// The ids that carry a component of this kind, in increasing order.
    pub fn ids(&self) -> (r: Vec<EntityId>)
        ensures
            forall|id: EntityId| r@.contains(id) <==> self.spec_get(id) is Some,
            forall|a: int, b: int| 0 <= a < b < r@.len() ==> r@[a] < r@[b],
    {
        let mut r: Vec<EntityId> = Vec::new();
        let mut i: usize = 0;
        while i < self.slots.len()
            invariant
                i <= self.slots@.len(),
                forall|id: EntityId| r@.contains(id) ==> id < i && self.spec_get(id) is Some,
                forall|id: EntityId| id < i && self.spec_get(id) is Some ==> r@.contains(id),
                forall|a: int, b: int| 0 <= a < b < r@.len() ==> r@[a] < r@[b],
                forall|a: int| 0 <= a < r@.len() ==> r@[a] < i,
            decreases self.slots@.len() - i,
        {
            if self.slots[i].is_some() {
                let ghost before = r@;
                r.push(i);
                proof {
                    assert forall|id: EntityId|
                        id < i + 1 && self.spec_get(id) is Some implies r@.contains(id) by {
                        if id < i {
                            assert(before.contains(id));
                            let a = choose|a: int| 0 <= a < before.len() && before[a] == id;
                            assert(r@[a] == id);
                        } else {
                            assert(id == i);
                            assert(r@[r@.len() - 1] == id);
                        }
                    }
                    assert forall|id: EntityId| r@.contains(id) implies id < i + 1
                        && self.spec_get(id) is Some by {
                        let a = choose|a: int| 0 <= a < r@.len() && r@[a] == id;
                        if a < before.len() {
                            assert(before[a] == id);
                            assert(before.contains(id));
                        } else {
                            assert(id == i);
                        }
                    }
                }
            }
            i = i + 1;
        }
        r
    }

    /// Detaches every component of this kind.
    pub fn clear(&mut self)
        ensures
            forall|id: EntityId| final(self).spec_get(id) is None,
    {
        self.slots = Vec::new();
    }
}

//
// The component kinds of the game.
//

/// Position, scale, rotation and draw order of an entity. Scale is in
/// thousandths (1000 = unscaled); rotation is in thousandths of a radian.
/// A higher `z_index` is drawn in front and hit-tested first.
#[derive(Clone, Copy, Debug, PartialEq, Eq, Structural)]
pub struct Transform {
    pub position: Vec2,
    pub scale: Vec2,
    pub rotation: i64,
    pub z_index: i64,
}

impl Transform {
    pub fn new(x: i64, y: i64) -> (r: Self)
        ensures
            r == (Transform {
                position: Vec2 { x, y },
                scale: Vec2 { x: 1000i64, y: 1000i64 },
                rotation: 0i64,
                z_index: 0i64,
            }),
    {
        Transform {
            position: Vec2 { x, y },
            scale: Vec2 { x: 1000, y: 1000 },
            rotation: 0,
            z_index: 0,
        }
    }

    pub fn with_z_index(self, z_index: i64) -> (r: Self)
        ensures
            r == (Transform { z_index, ..self }),
    {
        Transform { z_index, ..self }
    }
}

/// The color a suit determines: 0 (red) for hearts and diamonds, 1 (black)
/// for clubs and spades.
pub open spec fn suit_color(suit: u8) -> u8 {
    if suit < 2 {
        0
    } else {
        1
    }
}

/// Identity of one playing card: suit 0..=3 (hearts, diamonds, clubs,
/// spades), rank 0..=12 (ace up to king), whether it lies face up, and its
/// color. The color is derived from the suit at construction and never
/// changes afterwards.
#[derive(Clone, Copy, Debug, PartialEq, Eq, Structural)]
pub struct CardInfo {
    pub suit: u8,
    pub rank: u8,
    pub face_up: bool,
    pub color: u8,
}

impl CardInfo {
    pub fn new(suit: u8, rank: u8) -> (r: Self)
        requires
            suit < 4,
            rank < 13,
        ensures
            r == (CardInfo { suit, rank, face_up: false, color: suit_color(suit) }),
    {
        let color: u8 = if suit < 2 {
            0
        } else {
            1
        };
        CardInfo { suit, rank, face_up: false, color }
    }

    pub open spec fn spec_is_red(&self) -> bool {
        self.color == 0
    }

    pub fn is_red(&self) -> (r: bool)
        ensures
            r == self.spec_is_red(),
    {
        self.color == 0
    }

    pub fn is_black(&self) -> (r: bool)
        ensures
            r == !self.spec_is_red(),
    {
        self.color != 0
    }
}

/// How an entity is drawn: its box, visibility, opacity in thousandths
/// (1000 = fully opaque) and the kind of drawing.
#[derive(Clone, Copy, Debug, PartialEq, Eq, Structural)]
pub struct Renderable {
    pub width: i64,
    pub height: i64,
    pub visible: bool,
    pub opacity: i64,
    pub render_type: RenderType,
}

/// What kind of drawing an entity asks for. The kind is opaque to the core:
/// styling data (text, fonts, colors) belongs to the render collaborator.
#[derive(Clone, Copy, Debug, PartialEq, Eq, Structural)]
pub enum RenderType {
    /// A playing card.
    Card,
    /// A piece of text.
    Text,
    /// A styled rectangle.
    Rectangle,
    /// Drawn by a routine the core does not know.
    Custom,
}

impl Renderable {
    /// The renderable every card entity starts with.
    pub open spec fn card_spec() -> Renderable {
        Renderable {
            width: crate::constants::CARD_WIDTH,
            height: crate::constants::CARD_HEIGHT,
            visible: true,
            opacity: 1000,
            render_type: RenderType::Card,
        }
    }

    pub fn new(width: i64, height: i64, render_type: RenderType) -> (r: Self)
        ensures
            r == (Renderable { width, height, visible: true, opacity: 1000i64, render_type }),
    {
        Renderable { width, height, visible: true, opacity: 1000, render_type }
    }

    pub fn card(width: i64, height: i64) -> (r: Self)
        ensures
            r == (Renderable {
                width,
                height,
                visible: true,
                opacity: 1000i64,
                render_type: RenderType::Card,
            }),
    {
        Renderable { width, height, visible: true, opacity: 1000, render_type: RenderType::Card }
    }

    pub fn rectangle(width: i64, height: i64) -> (r: Self)
        ensures
            r == (Renderable {
                width,
                height,
                visible: true,
                opacity: 1000i64,
                render_type: RenderType::Rectangle,
            }),
    {
        Renderable {
            width,
            height,
            visible: true,
            opacity: 1000,
            render_type: RenderType::Rectangle,
        }
    }

    pub fn text(width: i64, height: i64) -> (r: Self)
        ensures
            r == (Renderable {
                width,
                height,
                visible: true,
                opacity: 1000i64,
                render_type: RenderType::Text,
            }),
    {
        Renderable { width, height, visible: true, opacity: 1000, render_type: RenderType::Text }
    }
}

/// Drag bookkeeping of an entity: whether a drag holds it, the offset of the
/// pointer from its position at pick-up, and the position and draw order to
/// restore when the drag is reverted.
#[derive(Clone, Copy, Debug, PartialEq, Eq, Structural)]
pub struct Draggable {
    pub is_dragging: bool,
    pub drag_offset: Vec2,
    pub original_position: Vec2,
    pub original_z_index: i64,
    pub width: i64,
    pub height: i64,
    pub drag_children: bool,
}

impl Draggable {
    pub fn new() -> (r: Self)
        ensures
            r == Draggable::default_spec(),
    {
        Draggable {
            is_dragging: false,
            drag_offset: Vec2 { x: 0, y: 0 },
            original_position: Vec2 { x: 0, y: 0 },
            original_z_index: 0,
            width: 0,
            height: 0,
            drag_children: false,
        }
    }

    /// The state a fresh `Draggable` starts in.
    pub open spec fn default_spec() -> Draggable {
        Draggable {
            is_dragging: false,
            drag_offset: Vec2 { x: 0, y: 0 },
            original_position: Vec2 { x: 0, y: 0 },
            original_z_index: 0,
            width: 0,
            height: 0,
            drag_children: false,
        }
    }

    pub fn with_size(self, width: i64, height: i64) -> (r: Self)
        ensures
            r == (Draggable { width, height, ..self }),
    {
        Draggable { width, height, ..self }
    }

    pub fn with_drag_children(self) -> (r: Self)
        ensures
            r == (Draggable { drag_children: true, ..self }),
    {
        Draggable { drag_children: true, ..self }
    }
}

/// What a click on an entity does.
#[derive(Clone, Copy, Debug, PartialEq, Eq, Structural)]
pub enum ClickHandlerType {
    /// Turn the card over.
    FlipCard,
    /// Draw the top card of the stock into the waste.
    DrawFromStock,
    /// Take the top card of the waste.
    DrawFromWaste,
    /// Take from the given tableau column.
    DrawFromTableau { column: usize },
    /// Take from the given foundation stack.
    DrawFromFoundation { stack: usize },
    /// Handled by a routine the core does not know.
    Custom,
}

/// Click bookkeeping of an entity: hover state, a one-frame clicked pulse,
/// and what a click does.
#[derive(Clone, Copy, Debug, PartialEq, Eq, Structural)]
pub struct Clickable {
    pub is_hovering: bool,
    pub was_clicked: bool,
    pub click_handler: ClickHandlerType,
}

impl Clickable {
    pub fn new(handler: ClickHandlerType) -> (r: Self)
        ensures
            r == (Clickable { is_hovering: false, was_clicked: false, click_handler: handler }),
    {
        Clickable { is_hovering: false, was_clicked: false, click_handler: handler }
    }
}

/// The kinds of card stacks on the board.
#[derive(Clone, Copy, Debug, PartialEq, Eq, Structural)]
pub enum StackType {
    /// The face-down draw pile.
    Stock,
    /// The face-up discard pile next to the stock.
    Waste,
    /// One of the seven mixed columns of the play area.
    Tableau { column: usize },
    /// One of the four per-suit ascending destination stacks.
    Foundation { suit: usize },
    /// The transient group of cards held by a drag.
    Hand,
}

/// An ordered stack of card entities: index 0 is the bottom, the last index
/// the top. Foundations are capped at 13 cards.
#[derive(Clone, Debug)]
pub struct StackContainer {
    pub stack_type: StackType,
    pub cards: Vec<EntityId>,
    pub max_cards: Option<usize>,
}

impl StackContainer {
    pub fn new(stack_type: StackType) -> (r: Self)
        ensures
            r.stack_type == stack_type,
            r.cards@ === Seq::<EntityId>::empty(),
            r.max_cards == if stack_type matches StackType::Foundation { .. } {
                Some(13usize)
            } else {
                None::<usize>
            },
    {
        let max_cards = match stack_type {
            StackType::Foundation { .. } => Some(13),
            _ => None,
        };
        StackContainer { stack_type, cards: Vec::new(), max_cards }
    }

    /// Puts a card on top.
    pub fn add_card(&mut self, card_id: EntityId)
        ensures
            final(self).cards@ === old(self).cards@.push(card_id),
            final(self).stack_type == old(self).stack_type,
            final(self).max_cards == old(self).max_cards,
    {
        self.cards.push(card_id);
    }

    /// The index of the first occurrence of a card, if it is in the stack.
    pub fn get_card_index(&self, card_id: EntityId) -> (r: Option<usize>)
        ensures
            match r {
                Some(i) => i < self.cards@.len() && self.cards@[i as int] == card_id && forall|
                    j: int,
                |
                    0 <= j < i ==> self.cards@[j] != card_id,
                None => !self.cards@.contains(card_id),
            },
    {
        let mut i: usize = 0;
        while i < self.cards.len()
            invariant
                i <= self.cards@.len(),
                forall|j: int| 0 <= j < i ==> self.cards@[j] != card_id,
            decreases self.cards@.len() - i,
        {
            if self.cards[i] == card_id {
                return Some(i);
            }
            i = i + 1;
        }
        None
    }

    /// Removes the first occurrence of a card; returns whether it was there.
    pub fn remove_card(&mut self, card_id: EntityId) -> (r: bool)
        ensures
            r == old(self).cards@.contains(card_id),
            final(self).stack_type == old(self).stack_type,
            final(self).max_cards == old(self).max_cards,
            final(self).cards@ === old(self).cards@.remove_value(card_id),
    {
        match self.get_card_index(card_id) {
            Some(i) => {
                proof {
                    assert(self.cards@.contains(card_id)) by {
                        assert(self.cards@[i as int] == card_id);
                    }
                    self.cards@.index_of_first_ensures(card_id);
                    let idx = self.cards@.index_of_first(card_id)->Some_0;
                    assert(idx == i as int) by {
                        if idx < i as int {
                            assert(self.cards@[idx] == card_id);
                        }
                    }
                }
                self.cards.remove(i);
                true
            },
            None => {
                proof {
                    self.cards@.index_of_first_ensures(card_id);
                }
                false
            },
        }
    }

    /// A field-for-field copy of the stack.
    pub fn duplicate(&self) -> (r: Self)
        ensures
            r.stack_type == self.stack_type,
            r.cards@ === self.cards@,
            r.max_cards == self.max_cards,
    {
        StackContainer {
            stack_type: self.stack_type,
            cards: self.cards.clone(),
            max_cards: self.max_cards,
        }
    }

    /// Takes the top card off the stack.
    pub fn remove_top_card(&mut self) -> (r: Option<EntityId>)
        ensures
            final(self).stack_type == old(self).stack_type,
            final(self).max_cards == old(self).max_cards,
            match r {
                Some(id) => old(self).cards@.len() > 0 && id == old(self).cards@.last()
                    && final(self).cards@ === old(self).cards@.drop_last(),
                None => old(self).cards@.len() == 0 && final(self).cards@ === old(self).cards@,
            },
    {
        self.cards.pop()
    }

    /// The top card, if the stack is not empty.
    pub fn top_card(&self) -> (r: Option<EntityId>)
        ensures
            r == if self.cards@.len() > 0 {
                Some(self.cards@.last())
            } else {
                None::<EntityId>
            },
    {
        if self.cards.len() > 0 {
            Some(self.cards[self.cards.len() - 1])
        } else {
            None
        }
    }

    /// The top card, if the stack is not empty (alias of `top_card`).
    pub fn get_top_card(&self) -> (r: Option<EntityId>)
        ensures
            r == if self.cards@.len() > 0 {
                Some(self.cards@.last())
            } else {
                None::<EntityId>
            },
    {
        self.top_card()
    }

    /// A copy of the whole card list, bottom first.
    pub fn get_all_cards(&self) -> (r: Vec<EntityId>)
        ensures
            r@ === self.cards@,
    {
        self.cards.clone()
    }

    /// Empties the stack.
    pub fn clear_cards(&mut self)
        ensures
            final(self).cards@ === Seq::<EntityId>::empty(),
            final(self).stack_type == old(self).stack_type,
            final(self).max_cards == old(self).max_cards,
    {
        self.cards.clear();
    }

    /// Whether the stack holds the card.
    pub fn contains_card(&self, card_id: EntityId) -> (r: bool)
        ensures
            r == self.cards@.contains(card_id),
    {
        self.get_card_index(card_id).is_some()
    }

    /// Whether the stack is empty.
    pub fn is_empty(&self) -> (r: bool)
        ensures
            r == (self.cards@.len() == 0),
    {
        self.cards.len() == 0
    }

    /// How many cards the stack holds.
    pub fn card_count(&self) -> (r: usize)
        ensures
            r == self.cards@.len(),
    {
        self.cards.len()
    }

    /// The cards from the given index up to the top; empty when the index is
    /// past the end.
    pub fn cards_from_index(&self, index: usize) -> (r: Vec<EntityId>)
        ensures
            r@ === if index <= self.cards@.len() {
                self.cards@.skip(index as int)
            } else {
                Seq::<EntityId>::empty()
            },
    {
        let mut r: Vec<EntityId> = Vec::new();
        if index >= self.cards.len() {
            proof {
                if index <= self.cards@.len() {
                    assert(self.cards@.skip(index as int) =~= Seq::<EntityId>::empty());
                }
            }
            return r;
        }
        let mut i: usize = index;
        while i < self.cards.len()
            invariant
                index <= i <= self.cards@.len(),
                r@ === self.cards@.subrange(index as int, i as int),
            decreases self.cards@.len() - i,
        {
            let ghost before = r@;
            r.push(self.cards[i]);
            proof {
                assert(r@ =~= self.cards@.subrange(index as int, i + 1));
            }
            i = i + 1;
        }
        proof {
            assert(self.cards@.subrange(index as int, self.cards@.len() as int) =~= self.cards@.skip(
                index as int,
            ));
        }
        r
    }

    /// Removes the cards from the given index up to the top and returns them;
    /// removes nothing when the index is past the end.
    pub fn remove_cards_from_index(&mut self, index: usize) -> (r: Vec<EntityId>)
        ensures
            final(self).stack_type == old(self).stack_type,
            final(self).max_cards == old(self).max_cards,
            r@ === if index <= old(self).cards@.len() {
                old(self).cards@.skip(index as int)
            } else {
                Seq::<EntityId>::empty()
            },
            final(self).cards@ === if index <= old(self).cards@.len() {
                old(self).cards@.take(index as int)
            } else {
                old(self).cards@
            },
    {
        if index >= self.cards.len() {
            proof {
                if index <= self.cards@.len() {
                    assert(self.cards@.skip(index as int) =~= Seq::<EntityId>::empty());
                    assert(self.cards@.take(index as int) =~= self.cards@);
                }
            }
            return Vec::new();
        }
        let removed = self.cards_from_index(index);
        self.cards.truncate(index);
        removed
    }
}

/// Marks an entity as a drop target: its hit box, the drag kinds it accepts
/// (reserved; the rule logic does not read them yet), and whether it is
/// currently highlighted as the active target.
#[derive(Clone, Debug)]
pub struct Droppable {
    pub width: i64,
    pub height: i64,
    pub drop_types: Vec<usize>,
    pub is_active: bool,
}

impl Droppable {
    pub fn new(width: i64, height: i64) -> (r: Self)
        ensures
            r.width == width,
            r.height == height,
            r.drop_types@ === Seq::<usize>::empty(),
            r.is_active,
    {
        Droppable { width, height, drop_types: Vec::new(), is_active: true }
    }

    pub fn with_active(self, active: bool) -> (r: Self)
        ensures
            r == (Droppable { is_active: active, ..self }),
    {
        Droppable { is_active: active, ..self }
    }
}

} // verus!
