//! End-to-end checks of the solitaire core: cards, rules, the deal, the
//! stock cycle, dragging, the scheduler and the registries.

use solitaire_core::card::{create_card, flip_card, set_card_position};
use solitaire_core::component::{
    CardInfo, Droppable, Renderable, StackContainer, StackType, Transform,
};
use solitaire_core::constants::{CARD_HEIGHT, CARD_WIDTH, DRAG_OPACITY, STACK_OFFSET_Y};
use solitaire_core::drag::DragSystem;
use solitaire_core::entity::EntityManager;
use solitaire_core::resources::{GameState, InputState, Resources, TimeInfo};
use solitaire_core::setup::setup_solitaire_board;
use solitaire_core::solitaire::{
    auto_complete, can_move_to_foundation, can_move_to_tableau, check_game_clear, draw_from_stock,
    is_winnable, move_card, move_card_stack, reset_stock_from_waste,
};
use solitaire_core::system::{run_tick, setup_systems, SystemKind, SystemManager, SystemPhase};
use solitaire_core::world::World;
use solitaire_core::{EcsError, EntityId, MAX_ENTITIES};

/// Builds a pile entity with an anchor, a stack of the given kind and a
/// card-sized drop box.
fn make_pile(world: &mut World, x: i64, y: i64, stack_type: StackType) -> EntityId {
    let id = world.create_entity().unwrap();
    world.add_transform(id, Transform::new(x, y)).unwrap();
    world.add_stack(id, StackContainer::new(stack_type)).unwrap();
    world
        .add_droppable(id, Droppable::new(CARD_WIDTH, CARD_HEIGHT))
        .unwrap();
    id
}

/// Builds one face-up card at a position and appends it to a pile's stack.
fn put_card(world: &mut World, pile: EntityId, suit: u8, rank: u8, x: i64, y: i64) -> EntityId {
    let id = create_card(world, suit, rank, x, y, true, 0).unwrap();
    let cards = {
        let st = world.get_stack(pile).unwrap();
        let mut cards = st.get_all_cards();
        cards.push(id);
        cards
    };
    let (stack_type, max_cards) = {
        let st = world.get_stack(pile).unwrap();
        (st.stack_type, st.max_cards)
    };
    world
        .add_stack(pile, StackContainer { stack_type, cards, max_cards })
        .unwrap();
    id
}

#[test]
fn card_color_follows_suit() {
    for suit in 0u8..4 {
        for rank in 0u8..13 {
            let card = CardInfo::new(suit, rank);
            assert_eq!(card.is_red(), suit < 2);
            assert_eq!(card.is_black(), suit >= 2);
            // Flipping twice never changes the color.
            let mut world = World::new();
            let id = create_card(&mut world, suit, rank, 0, 0, false, 0).unwrap();
            let before = world.get_card_info(id).unwrap().color;
            flip_card(&mut world, id).unwrap();
            assert_eq!(world.get_card_info(id).unwrap().color, before);
            assert!(world.get_card_info(id).unwrap().face_up);
            flip_card(&mut world, id).unwrap();
            assert_eq!(world.get_card_info(id).unwrap().color, before);
            assert!(!world.get_card_info(id).unwrap().face_up);
            assert_eq!(world.get_card_info(id).unwrap().is_red(), suit < 2);
        }
    }
}

#[test]
fn tableau_acceptance() {
    let mut world = World::new();
    let empty_tab = make_pile(&mut world, 100, 200, StackType::Tableau { column: 0 });
    // The empty column takes a king of any suit and nothing else.
    for suit in 0u8..4 {
        for rank in 0u8..13 {
            let card = create_card(&mut world, suit, rank, 0, 0, true, 0).unwrap();
            assert_eq!(
                can_move_to_tableau(&world, card, empty_tab),
                rank == 12,
                "suit {suit} rank {rank}"
            );
        }
    }
    // A column topped by the five of spades takes exactly the red fours.
    let tab = make_pile(&mut world, 130, 200, StackType::Tableau { column: 1 });
    put_card(&mut world, tab, 3, 4, 130, 200);
    for suit in 0u8..4 {
        for rank in 0u8..13 {
            let card = create_card(&mut world, suit, rank, 0, 0, true, 0).unwrap();
            let expected = suit < 2 && rank == 3;
            assert_eq!(
                can_move_to_tableau(&world, card, tab),
                expected,
                "suit {suit} rank {rank}"
            );
        }
    }
}

#[test]
fn foundation_acceptance() {
    let mut world = World::new();
    // An empty foundation of suit 2 takes exactly the ace of suit 2.
    let empty_f = make_pile(&mut world, 400, 50, StackType::Foundation { suit: 2 });
    for suit in 0u8..4 {
        for rank in 0u8..13 {
            let card = create_card(&mut world, suit, rank, 0, 0, true, 0).unwrap();
            assert_eq!(
                can_move_to_foundation(&world, card, empty_f),
                suit == 2 && rank == 0,
                "suit {suit} rank {rank}"
            );
        }
    }
    // A foundation of suit 1 topped by rank 6 takes exactly (1, 7).
    let f = make_pile(&mut world, 430, 50, StackType::Foundation { suit: 1 });
    put_card(&mut world, f, 1, 6, 430, 50);
    for suit in 0u8..4 {
        for rank in 0u8..13 {
            let card = create_card(&mut world, suit, rank, 0, 0, true, 0).unwrap();
            assert_eq!(
                can_move_to_foundation(&world, card, f),
                suit == 1 && rank == 7,
                "suit {suit} rank {rank}"
            );
        }
    }
    // A face-down card never moves to a foundation.
    let down = create_card(&mut world, 2, 0, 0, 0, false, 0).unwrap();
    assert!(!can_move_to_foundation(&world, down, empty_f));
}

#[test]
fn win_predicate() {
    let mut world = World::new();
    let mut foundations = Vec::new();
    for suit in 0usize..4 {
        let f = make_pile(
            &mut world,
            400 + 30 * suit as i64,
            50,
            StackType::Foundation { suit },
        );
        for rank in 0u8..13 {
            put_card(&mut world, f, suit as u8, rank, 400, 50);
        }
        foundations.push(f);
    }
    assert!(check_game_clear(&world, &foundations));
    // Taking the king off one foundation breaks the win.
    let st = world.get_stack(foundations[0]).unwrap();
    let mut cards = st.get_all_cards();
    let (stack_type, max_cards) = (st.stack_type, st.max_cards);
    cards.pop();
    world
        .add_stack(foundations[0], StackContainer { stack_type, cards, max_cards })
        .unwrap();
    assert!(!check_game_clear(&world, &foundations));
}

#[test]
fn entity_capacity() {
    let mut em = EntityManager::new();
    let mut ids = Vec::new();
    for _ in 0..MAX_ENTITIES {
        ids.push(em.create_entity().unwrap());
    }
    assert_eq!(em.entity_count(), 1000);
    // The next creation fails, the count stays, every id stays alive.
    assert_eq!(em.create_entity(), Err(EcsError::CapacityReached));
    assert_eq!(em.entity_count(), 1000);
    for id in &ids {
        assert!(em.is_entity_active(*id));
    }
}

#[test]
fn deferred_removal() {
    let mut em = EntityManager::new();
    let a = em.create_entity().unwrap();
    let b = em.create_entity().unwrap();
    em.mark_entity_for_removal(a);
    // Marking is idempotent and deferred: both stay alive until the pass.
    em.mark_entity_for_removal(a);
    assert!(em.is_entity_active(a));
    em.update();
    assert!(!em.is_entity_active(a));
    assert!(em.is_entity_active(b));
    assert_eq!(em.entity_count(), 1);
}

#[test]
fn board_deal() {
    let mut world = World::new();
    let board = setup_solitaire_board(&mut world).unwrap();
    // Exactly 52 card entities exist.
    let cards = world.get_entities_with_card_info();
    assert_eq!(cards.len(), 52);
    // The columns hold 1..=7 cards, the top face up and the rest face down.
    let mut dealt = 0;
    for (k, tab) in board.tableaus.iter().enumerate() {
        let st = world.get_stack(*tab).unwrap();
        assert_eq!(st.card_count(), k + 1);
        let col = st.get_all_cards();
        dealt += col.len();
        for (j, card) in col.iter().enumerate() {
            let info = world.get_card_info(*card).unwrap();
            assert_eq!(info.face_up, j == k, "column {k} slot {j}");
        }
    }
    assert_eq!(dealt, 28);
    // The stock holds the other 24, all face down; the waste is empty.
    let stock = world.get_stack(board.stock).unwrap();
    assert_eq!(stock.card_count(), 24);
    for card in stock.get_all_cards() {
        assert!(!world.get_card_info(card).unwrap().face_up);
    }
    assert_eq!(world.get_stack(board.waste).unwrap().card_count(), 0);
    // The four foundations start empty, capped at 13.
    assert_eq!(board.foundations.len(), 4);
    for f in &board.foundations {
        let st = world.get_stack(*f).unwrap();
        assert_eq!(st.card_count(), 0);
        assert_eq!(st.max_cards, Some(13));
    }
    // The 52 cards cover every suit and rank exactly once: the shuffle
    // permutes the deck, it never drops or duplicates a card.
    let mut seen = [false; 52];
    for card in &cards {
        let info = world.get_card_info(*card).unwrap();
        let slot = info.suit as usize * 13 + info.rank as usize;
        assert!(!seen[slot], "suit {} rank {} twice", info.suit, info.rank);
        seen[slot] = true;
    }
    assert!(seen.iter().all(|s| *s));
    assert!(!is_winnable(&world));
}

#[test]
fn draw_and_recycle() {
    let mut world = World::new();
    let board = setup_solitaire_board(&mut world).unwrap();
    // Recycling an empty waste is a no-op that reports `false`.
    assert_eq!(
        reset_stock_from_waste(&mut world, board.stock, board.waste),
        Ok(false)
    );
    // Draw all 24 stock cards into the waste, face up.
    for i in 0..24 {
        assert_eq!(
            draw_from_stock(&mut world, board.stock, board.waste),
            Ok(true),
            "draw {i}"
        );
    }
    assert_eq!(world.get_stack(board.stock).unwrap().card_count(), 0);
    let waste_cards = world.get_stack(board.waste).unwrap().get_all_cards();
    assert_eq!(waste_cards.len(), 24);
    for card in &waste_cards {
        assert!(world.get_card_info(*card).unwrap().face_up);
    }
    // The next draw recycles: 24 face-down cards back in the stock, the
    // waste empty, and the relative order kept.
    assert_eq!(
        draw_from_stock(&mut world, board.stock, board.waste),
        Ok(true)
    );
    let stock_cards = world.get_stack(board.stock).unwrap().get_all_cards();
    assert_eq!(stock_cards.len(), 24);
    assert_eq!(stock_cards, waste_cards);
    for card in &stock_cards {
        assert!(!world.get_card_info(*card).unwrap().face_up);
    }
    assert_eq!(world.get_stack(board.waste).unwrap().card_count(), 0);
}

#[test]
fn move_card_basics() {
    let mut world = World::new();
    let tab_a = make_pile(&mut world, 100, 200, StackType::Tableau { column: 0 });
    let tab_b = make_pile(&mut world, 130, 200, StackType::Tableau { column: 1 });
    let five = put_card(&mut world, tab_a, 0, 4, 100, 200);
    // Moving a card that is not in the source is a no-op reporting `false`.
    let stray = create_card(&mut world, 2, 9, 0, 0, true, 0).unwrap();
    assert_eq!(move_card(&mut world, stray, tab_a, tab_b), Ok(false));
    // Moving a card out of a missing stack fails.
    assert_eq!(
        move_card(&mut world, five, stray, tab_b),
        Err(EcsError::MissingStack)
    );
    // A legal move lands at the destination anchor with the fan offset.
    assert_eq!(move_card(&mut world, five, tab_a, tab_b), Ok(true));
    assert!(!world.get_stack(tab_a).unwrap().contains_card(five));
    assert!(world.get_stack(tab_b).unwrap().contains_card(five));
    let t = world.get_transform(five).unwrap();
    assert_eq!((t.position.x, t.position.y), (130, 200));
    assert_eq!(t.z_index, 0);
}

#[test]
fn run_move_and_reveal() {
    let mut world = World::new();
    let tab_a = make_pile(&mut world, 100, 200, StackType::Tableau { column: 0 });
    let tab_b = make_pile(&mut world, 130, 200, StackType::Tableau { column: 1 });
    // Column A: a face-down card, then a red six heading a black five.
    let hidden = create_card(&mut world, 1, 10, 100, 200, false, 0).unwrap();
    let six = create_card(&mut world, 0, 5, 100, 225, true, 1).unwrap();
    let five = create_card(&mut world, 3, 4, 100, 250, true, 2).unwrap();
    world
        .add_stack(
            tab_a,
            StackContainer {
                stack_type: StackType::Tableau { column: 0 },
                cards: vec![hidden, six, five],
                max_cards: None,
            },
        )
        .unwrap();
    // Column B: a black seven, which takes the red six and its run.
    put_card(&mut world, tab_b, 2, 6, 130, 200);
    assert_eq!(move_card_stack(&mut world, six, tab_a, tab_b), Ok(true));
    let b_cards = world.get_stack(tab_b).unwrap().get_all_cards();
    assert_eq!(b_cards.len(), 3);
    assert_eq!(&b_cards[1..], &[six, five]);
    // The source's hidden card turned face up.
    assert!(world.get_card_info(hidden).unwrap().face_up);
    // The run fanned down the destination.
    let t_six = world.get_transform(six).unwrap();
    assert_eq!(
        (t_six.position.y, t_six.z_index),
        (200 + STACK_OFFSET_Y, 1)
    );
    let t_five = world.get_transform(five).unwrap();
    assert_eq!(
        (t_five.position.y, t_five.z_index),
        (200 + 2 * STACK_OFFSET_Y, 2)
    );
    // An illegal run move is refused without changes: the five cannot go
    // back onto the six's old column, which now shows a face-up ten.
    assert_eq!(move_card_stack(&mut world, five, tab_b, tab_a), Ok(false));
}

#[test]
fn auto_complete_greedy_pass() {
    let mut world = World::new();
    let tab = make_pile(&mut world, 100, 200, StackType::Tableau { column: 0 });
    let f0 = make_pile(&mut world, 400, 50, StackType::Foundation { suit: 0 });
    let waste = make_pile(&mut world, 200, 50, StackType::Waste);
    let ace = put_card(&mut world, tab, 0, 0, 100, 200);
    let two = put_card(&mut world, waste, 0, 1, 200, 50);
    // One pass moves the tableau ace up, then the waste two onto it.
    assert_eq!(
        auto_complete(&mut world, &vec![tab], &vec![f0], waste),
        Ok(true)
    );
    assert_eq!(
        world.get_stack(f0).unwrap().get_all_cards(),
        vec![ace, two]
    );
    // A pass with nothing to move reports `false` and changes nothing.
    assert_eq!(
        auto_complete(&mut world, &vec![tab], &vec![f0], waste),
        Ok(false)
    );
}

#[test]
fn drag_revert_restores_positions() {
    let mut world = World::new();
    let board = setup_solitaire_board(&mut world).unwrap();
    // The last column's top card is face up and draggable.
    let tab = board.tableaus[6];
    let top = world.get_stack(tab).unwrap().top_card().unwrap();
    let before: Vec<(EntityId, i64, i64, i64)> = world
        .get_all_entities()
        .iter()
        .filter_map(|id| {
            world
                .get_transform(*id)
                .map(|t| (*id, t.position.x, t.position.y, t.z_index))
        })
        .collect();
    let t = world.get_transform(top).unwrap();
    let (px, py) = (t.position.x + 5, t.position.y + 5);
    let mut drag = DragSystem::new();
    drag.pointer_down(&mut world, px, py);
    // Carry the card far from every drop box, then let go: the drop misses,
    // so the whole drag reverts.
    drag.pointer_move(&mut world, 700, 500);
    assert_eq!(drag.pointer_up(&mut world, 700, 500), Ok(false));
    let after: Vec<(EntityId, i64, i64, i64)> = world
        .get_all_entities()
        .iter()
        .filter_map(|id| {
            world
                .get_transform(*id)
                .map(|t| (*id, t.position.x, t.position.y, t.z_index))
        })
        .collect();
    assert_eq!(before, after);
    // The card is still where it was, in its column.
    assert!(world.get_stack(tab).unwrap().contains_card(top));
}

#[test]
fn drag_commit_moves_run() {
    let mut world = World::new();
    let tab_a = make_pile(&mut world, 100, 200, StackType::Tableau { column: 0 });
    let tab_b = make_pile(&mut world, 300, 200, StackType::Tableau { column: 1 });
    let five = put_card(&mut world, tab_a, 0, 4, 100, 200);
    let _six = put_card(&mut world, tab_b, 2, 5, 300, 200);
    let mut drag = DragSystem::new();
    // Pick the red five up and drop it on the other column's box.
    drag.pointer_down(&mut world, 105, 205);
    drag.pointer_move(&mut world, 305, 205);
    assert_eq!(drag.pointer_up(&mut world, 305, 205), Ok(true));
    assert!(!world.get_stack(tab_a).unwrap().contains_card(five));
    assert!(world.get_stack(tab_b).unwrap().contains_card(five));
    // The card turned opaque again and is no longer dragging.
    assert_eq!(world.get_renderable(five).unwrap().opacity, 1000);
    assert!(!world.get_draggable(five).unwrap().is_dragging);
}

#[test]
fn drop_on_stackless_target_reverts() {
    let mut world = World::new();
    let tab = make_pile(&mut world, 100, 200, StackType::Tableau { column: 0 });
    let card = put_card(&mut world, tab, 0, 4, 100, 200);
    // A drop box with no stack container: the rule does not apply there, so
    // releasing over it is an invalid drop, never a failure.
    let bare = world.create_entity().unwrap();
    world.add_transform(bare, Transform::new(300, 200)).unwrap();
    world
        .add_droppable(bare, Droppable::new(CARD_WIDTH, CARD_HEIGHT))
        .unwrap();
    let mut drag = DragSystem::new();
    drag.pointer_down(&mut world, 105, 205);
    drag.pointer_move(&mut world, 305, 205);
    assert_eq!(drag.pointer_up(&mut world, 305, 205), Ok(false));
    // The whole group reverted: position, draw order, opacity, flags, stacks.
    let t = world.get_transform(card).unwrap();
    assert_eq!((t.position.x, t.position.y, t.z_index), (100, 200, 0));
    assert_eq!(world.get_renderable(card).unwrap().opacity, 1000);
    assert!(!world.get_draggable(card).unwrap().is_dragging);
    assert!(world.get_stack(tab).unwrap().contains_card(card));
}

#[test]
fn drag_pick_raises_and_dims() {
    let mut world = World::new();
    let tab = make_pile(&mut world, 100, 200, StackType::Tableau { column: 0 });
    let card = put_card(&mut world, tab, 0, 4, 100, 200);
    let mut drag = DragSystem::new();
    drag.pointer_down(&mut world, 110, 210);
    let t = world.get_transform(card).unwrap();
    assert_eq!(t.z_index, 1000);
    assert_eq!((t.position.x, t.position.y), (100, 200));
    assert_eq!(world.get_renderable(card).unwrap().opacity, DRAG_OPACITY);
    let d = world.get_draggable(card).unwrap();
    assert!(d.is_dragging);
    assert_eq!((d.drag_offset.x, d.drag_offset.y), (10, 10));
    assert_eq!((d.original_position.x, d.original_position.y), (100, 200));
    // Carrying follows the pointer minus the recorded offset.
    drag.pointer_move(&mut world, 250, 300);
    let t = world.get_transform(card).unwrap();
    assert_eq!((t.position.x, t.position.y), (240, 290));
}

#[test]
fn drag_highlights_valid_target() {
    let mut world = World::new();
    let tab_a = make_pile(&mut world, 100, 200, StackType::Tableau { column: 0 });
    let tab_b = make_pile(&mut world, 300, 200, StackType::Tableau { column: 1 });
    let _five = put_card(&mut world, tab_a, 0, 4, 100, 200);
    let _six = put_card(&mut world, tab_b, 2, 5, 300, 200);
    let mut drag = DragSystem::new();
    drag.pointer_down(&mut world, 105, 205);
    // Carrying over the legal column lights its drop box and no other.
    drag.pointer_move(&mut world, 305, 205);
    drag.highlight_drop_target(&mut world, 305, 205);
    assert!(world.get_droppable(tab_b).unwrap().is_active);
    assert!(!world.get_droppable(tab_a).unwrap().is_active);
    // Carrying over empty space clears every highlight.
    drag.pointer_move(&mut world, 700, 500);
    drag.highlight_drop_target(&mut world, 700, 500);
    assert!(!world.get_droppable(tab_b).unwrap().is_active);
    assert!(!world.get_droppable(tab_a).unwrap().is_active);
    assert_eq!(drag.pointer_up(&mut world, 700, 500), Ok(false));
}

#[test]
fn phase_runner_runs_single_phase() {
    let mut world = World::new();
    let board = setup_solitaire_board(&mut world).unwrap();
    let mut sm = SystemManager::new();
    setup_systems(&mut sm);
    let mut resources = Resources::new();
    resources.game_state = GameState::Playing;
    let mut drag = DragSystem::new();
    // A lone update-phase run leaves a fresh board playing.
    sm.run_systems_for_phase(SystemPhase::Update, &mut world, &mut resources, &mut drag)
        .unwrap();
    assert_eq!(resources.game_state, GameState::Playing);
    // A click on the stock's top card, run through a whole tick, flips it:
    // the hit test picks the front-most card box under the pointer.
    let top = world.get_stack(board.stock).unwrap().top_card().unwrap();
    assert!(!world.get_card_info(top).unwrap().face_up);
    let t = world.get_transform(board.stock).unwrap();
    let (sx, sy) = (t.position.x + 5, t.position.y + 5);
    resources.input.update_mouse_position(sx, sy);
    resources.input.update_mouse_button(0, true);
    resources.input.is_mouse_clicked = true;
    run_tick(&mut world, &mut sm, &mut resources, &mut drag, 1000).unwrap();
    assert!(world.get_card_info(top).unwrap().face_up);
    assert!(world.get_clickable(top).unwrap().was_clicked);
    assert!(!resources.input.is_mouse_clicked);
    assert_eq!(resources.time.last_frame_time_ms, 1000);
}

#[test]
fn scheduler_sort_is_stable() {
    let mut sm = SystemManager::new();
    sm.add_system(SystemKind::Render, SystemPhase::Render, 0);
    sm.add_system(SystemKind::GameStateCheck, SystemPhase::Update, 100);
    sm.add_system(SystemKind::Drag, SystemPhase::Input, 1);
    sm.add_system(SystemKind::Input, SystemPhase::Input, 1);
    sm.sort_systems();
    let entries = sm.get_entries();
    let kinds: Vec<SystemKind> = entries.iter().map(|e| e.kind).collect();
    // Phases order the list; within the equal (phase, priority) pair the
    // insertion order survives: Drag was registered before Input.
    assert_eq!(
        kinds,
        vec![
            SystemKind::Drag,
            SystemKind::Input,
            SystemKind::GameStateCheck,
            SystemKind::Render
        ]
    );
}

#[test]
fn render_list_paints_back_to_front() {
    let mut world = World::new();
    let board = setup_solitaire_board(&mut world).unwrap();
    let list = world.render_list();
    // All 52 cards are visible; they are the only renderables on the board.
    assert_eq!(list.len(), 52);
    for pair in list.windows(2) {
        assert!(pair[0].z <= pair[1].z);
    }
    // Each entry reports its entity faithfully.
    for item in &list {
        let t = world.get_transform(item.id).unwrap();
        let r = world.get_renderable(item.id).unwrap();
        assert!(r.visible);
        assert_eq!((t.position.x, t.position.y, t.z_index), (item.x, item.y, item.z));
        assert_eq!((r.width, r.height), (item.width, item.height));
    }
    // A hidden entity drops out of the list.
    let top = world.get_stack(board.stock).unwrap().top_card().unwrap();
    let mut r = *world.get_renderable(top).unwrap();
    r.visible = false;
    world.add_renderable(top, r).unwrap();
    assert_eq!(world.render_list().len(), 51);
}

#[test]
fn hit_test_prefers_front() {
    let mut world = World::new();
    let back = world.create_entity().unwrap();
    world.add_transform(back, Transform::new(0, 0)).unwrap();
    world
        .add_renderable(back, Renderable::card(CARD_WIDTH, CARD_HEIGHT))
        .unwrap();
    let front = world.create_entity().unwrap();
    world
        .add_transform(front, Transform::new(0, 0).with_z_index(5))
        .unwrap();
    world
        .add_renderable(front, Renderable::card(CARD_WIDTH, CARD_HEIGHT))
        .unwrap();
    assert_eq!(world.get_entity_at_position(10, 10), Some(front));
    assert_eq!(world.get_entity_at_position(5000, 5000), None);
    // An invisible front entity is passed over.
    let mut r = *world.get_renderable(front).unwrap();
    r.visible = false;
    world.add_renderable(front, r).unwrap();
    assert_eq!(world.get_entity_at_position(10, 10), Some(back));
}

#[test]
fn clock_clamps_stalls() {
    let mut time = TimeInfo::new(60);
    time.update(1000);
    // The first frame uses the target frame time.
    assert_eq!(time.delta_time_ms, 16);
    time.update(1030);
    assert_eq!(time.delta_time_ms, 30);
    // A stall is clamped to the ceiling.
    time.update(9999);
    assert_eq!(time.delta_time_ms, 100);
    assert_eq!(time.frame_count, 3);
    // A very low target rate is clamped on the first frame too.
    let mut slow = TimeInfo::new(5);
    slow.update(1000);
    assert_eq!(slow.delta_time_ms, 100);
}

#[test]
fn input_key_map() {
    let mut input = InputState::new();
    assert!(!input.is_key_pressed(32));
    input.update_key(32, true);
    input.update_key(13, true);
    assert!(input.is_key_pressed(32));
    input.update_key(32, false);
    assert!(!input.is_key_pressed(32));
    assert!(input.is_key_pressed(13));
    input.update_mouse_button(0, true);
    assert!(input.is_mouse_down);
    input.reset_click_state();
    assert!(!input.is_mouse_clicked);
}

#[test]
fn game_state_flows() {
    let mut world = World::new();
    let resources = Resources::new();
    assert_eq!(resources.game_state, GameState::Title);
    // A cleared board flips a playing game to cleared.
    let mut resources = Resources::new();
    resources.game_state = GameState::Playing;
    for suit in 0usize..4 {
        let f = make_pile(&mut world, 400, 50, StackType::Foundation { suit });
        for rank in 0u8..13 {
            put_card(&mut world, f, suit as u8, rank, 400, 50);
        }
    }
    solitaire_core::system::game_state_system_run(&world, &mut resources);
    assert_eq!(resources.game_state, GameState::Clear);
}

#[test]
fn set_position_and_errors() {
    let mut world = World::new();
    let card = create_card(&mut world, 0, 0, 10, 20, false, 3).unwrap();
    set_card_position(&mut world, card, 55, 66, 7).unwrap();
    let t = world.get_transform(card).unwrap();
    assert_eq!((t.position.x, t.position.y, t.z_index), (55, 66, 7));
    // The entity without a transform is refused.
    let bare = world.create_entity().unwrap();
    assert_eq!(
        set_card_position(&mut world, bare, 0, 0, 0),
        Err(EcsError::MissingTransform)
    );
    assert_eq!(flip_card(&mut world, bare), Err(EcsError::MissingCard));
    assert_eq!(
        draw_from_stock(&mut world, bare, bare),
        Err(EcsError::MissingStack)
    );
    // A crowded world refuses new cards.
    let mut full = World::new();
    loop {
        if full.create_entity().is_err() {
            break;
        }
    }
    assert_eq!(
        create_card(&mut full, 0, 0, 0, 0, false, 0),
        Err(EcsError::CapacityReached)
    );
}
