//! The configuration constants of the game. Distances are in pixels,
//! opacities in thousandths, times in milliseconds.

use vstd::prelude::*;

verus! {

/// Target frame rate of the surrounding frame loop.
pub const TARGET_FPS: u32 = 60;

/// Canvas size the board is laid out for.
pub const CANVAS_WIDTH: u32 = 800;

pub const CANVAS_HEIGHT: u32 = 600;

/// Visual footprint of one card; used only for hit-testing math.
pub const CARD_WIDTH: i64 = 80;

pub const CARD_HEIGHT: i64 = 120;

pub const CARD_BORDER_RADIUS: i64 = 5;

/// Horizontal gap between neighbouring cards.
pub const CARD_SPACING_X: i64 = 20;

/// Vertical gap between neighbouring cards.
pub const CARD_SPACING_Y: i64 = 30;

/// Vertical offset each further card of a tableau column adds.
pub const STACK_OFFSET_Y: i64 = 25;

/// Horizontal distance between neighbouring tableau columns and between
/// neighbouring foundations.
pub const PILE_SPACING_X: i64 = 30;

/// Where the first foundation sits.
pub const FOUNDATION_START_X: i64 = 400;

pub const FOUNDATION_START_Y: i64 = 50;

/// Where the first tableau column sits.
pub const TABLEAU_START_X: i64 = 100;

pub const TABLEAU_START_Y: i64 = 200;

/// Where the stock sits.
pub const STOCK_X: i64 = 100;

pub const STOCK_Y: i64 = 50;

/// Where the waste sits.
pub const WASTE_X: i64 = 200;

pub const WASTE_Y: i64 = 50;

/// Opacity of a card while a drag holds it, in thousandths.
pub const DRAG_OPACITY: i64 = 700;

/// Opacity of a card at rest, in thousandths.
pub const FULL_OPACITY: i64 = 1000;

/// Draw order given to the first card of a drag group; the rest of the group
/// follows at consecutive values, so the group renders above everything else.
pub const DRAG_BASE_Z: i64 = 1000;

/// How long a tweening layer animates one move.
pub const ANIMATION_DURATION_MS: u64 = 300;

/// Pointer travel beyond which a press counts as a drag, not a click.
pub const DRAG_THRESHOLD: i64 = 5;

/// Suit numbers.
pub const SUIT_HEART: u8 = 0;

pub const SUIT_DIAMOND: u8 = 1;

pub const SUIT_CLUB: u8 = 2;

pub const SUIT_SPADE: u8 = 3;

} // verus!
