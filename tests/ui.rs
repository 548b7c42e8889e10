use common::assets::{StablockAssetLoader, Statblock};
use common::game::Game;
use common::grid::{Cell, Grid, Token};
use common::round::{Round, RoundCommand};
use common::ui::{
    action_input, cursor_event, cursor_input_event, find_token_at, grid_cursor_input, highlight_cells, turn_owner_name,
    waypoint_steps, GridCursorEvent, TokenSelectedEvent, Ui,
};

fn c(x: i32, y: i32) -> Cell {
    Cell::new(x, y)
}

fn game() -> Game {
    let mut game = Game::new(Grid::new(4, 4, 1), Round::new(Some(1)));
    assert!(game.spawn_token(Token::new(1, "Alda".to_string(), c(0, 0), 2)));
    assert!(game.spawn_token(Token::new(2, "Brom".to_string(), c(3, 3), 2)));
    game
}

fn click(pos: Cell, left: bool, right: bool) -> GridCursorEvent {
    GridCursorEvent { old_pos: c(0, 0), grid_pos: pos, left_just_pressed: left, right_just_pressed: right }
}

#[test]
fn cursor_event_fires_on_move_or_press() {
    let mut ui = Ui::new();
    assert_eq!(cursor_event(&mut ui, c(0, 0), false, false), None);
    let ev = cursor_event(&mut ui, c(1, 2), false, false).unwrap();
    assert_eq!(ev.old_pos, c(0, 0));
    assert_eq!(ev.grid_pos, c(1, 2));
    assert_eq!(ui.grid_cursor, c(1, 2));
    assert!(cursor_event(&mut ui, c(1, 2), true, false).unwrap().left_just_pressed);
    assert!(cursor_event(&mut ui, c(1, 2), false, true).unwrap().right_just_pressed);
}

#[test]
fn left_click_selects_and_deselects() {
    let mut g = game();
    let mut ui = Ui::new();
    let r = grid_cursor_input(&mut ui, &g.tokens, &mut g.round, &vec![click(c(3, 3), true, false)]);
    assert_eq!(r, vec![TokenSelectedEvent { selected: Some(2), deselected: None }]);
    assert_eq!(ui.selected_entity, Some(2));
    let r = grid_cursor_input(&mut ui, &g.tokens, &mut g.round, &vec![click(c(3, 3), true, false)]);
    assert!(r.is_empty());
    let r = grid_cursor_input(&mut ui, &g.tokens, &mut g.round, &vec![click(c(1, 1), true, false)]);
    assert_eq!(r, vec![TokenSelectedEvent { selected: None, deselected: Some(2) }]);
    assert_eq!(ui.selected_entity, None);
}

#[test]
fn right_click_orders_a_move_ahead_of_the_queue() {
    let mut g = game();
    let mut ui = Ui::new();
    grid_cursor_input(&mut ui, &g.tokens, &mut g.round, &vec![click(c(0, 0), true, false)]);
    grid_cursor_input(&mut ui, &g.tokens, &mut g.round, &vec![click(c(1, 1), false, true)]);
    assert_eq!(g.round.pop_command(), Some(RoundCommand::move_far(1, c(1, 1))));
}

#[test]
fn two_move_orders_in_one_frame_are_both_queued() {
    let mut g = game();
    let mut ui = Ui::new();
    ui.selected_entity = Some(1);
    g.round.push_back_command(RoundCommand::give_turn(1));
    assert!(g.round.pop_command().is_some());
    let frame = vec![click(c(1, 0), false, true), click(c(0, 1), false, true)];
    let r = grid_cursor_input(&mut ui, &g.tokens, &mut g.round, &frame);
    assert!(r.is_empty());
    assert_eq!(g.round.pop_command(), Some(RoundCommand::move_far(1, c(0, 1))));
    assert_eq!(g.round.pop_command(), Some(RoundCommand::move_far(1, c(1, 0))));
    assert_eq!(g.round.pop_command(), None);
}

#[test]
fn left_click_after_right_click_in_one_frame_is_handled() {
    let mut g = game();
    let mut ui = Ui::new();
    ui.selected_entity = Some(1);
    let frame = vec![click(c(1, 0), false, true), click(c(3, 3), true, false)];
    let r = grid_cursor_input(&mut ui, &g.tokens, &mut g.round, &frame);
    assert_eq!(r, vec![TokenSelectedEvent { selected: Some(2), deselected: Some(1) }]);
    assert_eq!(ui.selected_entity, Some(2));
    assert_eq!(g.round.pop_command(), Some(RoundCommand::move_far(1, c(1, 0))));
}

#[test]
fn single_event_handler_ignores_executing_flag() {
    let mut g = game();
    let mut ui = Ui::new();
    ui.selected_entity = Some(1);
    g.round.push_back_command(RoundCommand::give_turn(1));
    let r = cursor_input_event(&mut ui, &g.tokens, &mut g.round, click(c(2, 0), false, true));
    assert_eq!(r, None);
    assert_eq!(g.round.pop_command(), Some(RoundCommand::move_far(1, c(2, 0))));
    assert_eq!(g.round.pop_command(), Some(RoundCommand::give_turn(1)));
}

#[test]
fn input_is_ignored_while_executing() {
    let mut g = game();
    let mut ui = Ui::new();
    g.round.push_back_command(RoundCommand::give_turn(1));
    let frame = vec![click(c(0, 0), true, true), click(c(1, 1), false, true)];
    let r = grid_cursor_input(&mut ui, &g.tokens, &mut g.round, &frame);
    assert!(r.is_empty());
    assert_eq!(ui.selected_entity, None);
    ui.selected_entity = Some(1);
    action_input(&ui, &mut g.round, true);
    assert_eq!(g.round.commands.len(), 1);
    assert!(highlight_cells(&ui, &g).is_empty());
    assert!(waypoint_steps(&ui, &g).is_empty());
}

#[test]
fn end_turn_key_queues_give_turn_at_back() {
    let mut g = game();
    let mut ui = Ui::new();
    action_input(&ui, &mut g.round, true);
    assert!(!g.round.is_executing());
    ui.selected_entity = Some(1);
    action_input(&ui, &mut g.round, false);
    assert!(!g.round.is_executing());
    action_input(&ui, &mut g.round, true);
    assert_eq!(g.round.pop_command(), Some(RoundCommand::give_turn(1)));
}

#[test]
fn highlight_and_waypoints_follow_selection() {
    let g = game();
    let mut ui = Ui::new();
    assert!(highlight_cells(&ui, &g).is_empty());
    ui.selected_entity = Some(1);
    ui.grid_cursor = c(1, 1);
    assert_eq!(highlight_cells(&ui, &g).len(), 6);
    let w = waypoint_steps(&ui, &g);
    assert_eq!(w.len(), 2);
    assert_eq!(w[1].to, c(1, 1));
    ui.selected_entity = Some(9);
    assert!(highlight_cells(&ui, &g).is_empty());
}

#[test]
fn turn_owner_name_shows_owner() {
    let mut g = game();
    assert_eq!(turn_owner_name(&g), "Alda");
    g.round.turn_owner = Some(2);
    assert_eq!(turn_owner_name(&g), "Brom");
    g.round.turn_owner = Some(5);
    assert_eq!(turn_owner_name(&g), "");
    g.round.turn_owner = None;
    assert_eq!(turn_owner_name(&g), "");
}

#[test]
fn token_lookup_by_cell() {
    let g = game();
    assert_eq!(find_token_at(&g.tokens, c(3, 3)), Some(2));
    assert_eq!(find_token_at(&g.tokens, c(2, 3)), None);
}

#[test]
fn statblock_budget_and_loader_extension() {
    assert_eq!(Statblock { movement_ft: Some(30) }.movement_budget(), 6);
    assert_eq!(Statblock { movement_ft: None }.movement_budget(), 0);
    assert_eq!(StablockAssetLoader.extensions(), &["statblock"]);
}
