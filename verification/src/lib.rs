//! Simulation core of a Klondike-style solitaire game: an entity/component
//! registry, a phase-ordered system scheduler, and the card-game rule engine
//! built on top of them.
//!
//! Coordinates, sizes and opacities are integers: positions and sizes are in
//! pixels, opacity is in thousandths (1000 = fully opaque), scale is in
//! thousandths (1000 = unscaled) and rotation is in thousandths of a radian.

use vstd::prelude::*;

pub mod utils;
pub mod constants;
pub mod entity;
pub mod component;
pub mod world;
pub mod card;
pub mod solitaire;
pub mod setup;
pub mod drag;
pub mod resources;
pub mod system;

verus! {

/// Number of entities the registry will hold at most.
pub const MAX_ENTITIES: usize = 1000;

/// Identifies one entity; handed out in increasing order and never reused.
pub type EntityId = usize;

/// The coordinate domain of the board: every stored position stays within
/// this bound, which keeps all hit-test arithmetic free of overflow.
pub const COORD_LIMIT: i64 = 4_000_000_000_000;

/// Bound on pointer coordinates accepted by the interaction functions.
pub const POINTER_LIMIT: i64 = 1_000_000_000_000;

/// Bound on widths and heights of renderable and droppable boxes.
pub const SIZE_LIMIT: i64 = 1_000_000_000_000;

/// Bound on the position of a stack's anchor; leaves room for the per-card
/// offsets a stack adds below its anchor.
pub const ANCHOR_LIMIT: i64 = 1_000_000_000;

/// Bound on stored draw-order (z) values.
pub const Z_LIMIT: i64 = 1_000_000_000_000;

/// The failures the registries and the rule engine report. Rule violations
/// (an illegal move, a drop outside every target) are not errors: they come
/// back as `false` results or as a reverted drag.
#[derive(Clone, Copy, Debug, PartialEq, Eq, Structural)]
pub enum EcsError {
    /// `create_entity` was called while the registry already holds
    /// `MAX_ENTITIES` live entities (or the id space is exhausted).
    CapacityReached,
    /// A component operation named an entity that is not alive.
    MissingEntity,
    /// An operation needed a `Transform` component that the entity lacks.
    MissingTransform,
    /// An operation needed a `CardInfo` component that the entity lacks.
    MissingCard,
    /// An operation needed a `StackContainer` component that the entity lacks.
    MissingStack,
}

} // verus!
