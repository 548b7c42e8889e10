use common::game::Game;
use common::grid::{Cell, Grid, Token};
use common::round::{GameEvent, Round, RoundCommand};

fn c(x: i32, y: i32) -> Cell {
    Cell::new(x, y)
}

fn drain(round: &mut Round) -> Vec<RoundCommand> {
    let mut out = Vec::new();
    while let Some(cmd) = round.pop_command() {
        out.push(cmd);
    }
    out
}

#[test]
fn push_front_drains_newest_first() {
    let mut round = Round::new(None);
    let a = RoundCommand::give_turn(1);
    let b = RoundCommand::give_turn(2);
    round.push_front_command(a);
    round.push_front_command(b);
    assert_eq!(drain(&mut round), vec![b, a]);
}

#[test]
fn push_back_drains_oldest_first() {
    let mut round = Round::new(None);
    let first = RoundCommand::move_far(9, c(1, 1));
    round.push_back_command(first);
    let a = RoundCommand::give_turn(1);
    let b = RoundCommand::give_turn(2);
    round.push_back_command(a);
    round.push_back_command(b);
    assert_eq!(drain(&mut round), vec![first, a, b]);
}

#[test]
fn executing_until_drained() {
    let mut round = Round::new(Some(1));
    assert!(!round.is_executing());
    round.push_back_command(RoundCommand::give_turn(1));
    assert!(round.is_executing());
    round.push_front_command(RoundCommand::move_far(1, c(0, 1)));
    assert!(round.is_executing());
    assert!(round.pop_command().is_some());
    assert!(round.is_executing());
    assert!(round.pop_command().is_some());
    assert!(!round.is_executing());
    assert_eq!(round.pop_command(), None);
    assert_eq!(round.turn_owner, Some(1));
}

fn two_token_game() -> Game {
    let grid = Grid::new(5, 5, 1);
    let mut game = Game::new(grid, Round::new(Some(1)));
    assert!(game.spawn_token(Token::new(1, "Alda".to_string(), c(0, 0), 6)));
    assert!(game.spawn_token(Token::new(2, "Brom".to_string(), c(4, 4), 6)));
    game
}

#[test]
fn move_then_give_turn() {
    let mut game = two_token_game();
    game.tokens[1].movement = 1;
    game.round.push_front_command(RoundCommand::move_far(1, c(2, 2)));
    game.round.push_back_command(RoundCommand::give_turn(1));
    assert!(game.round.is_executing());
    assert_eq!(game.step(), Some(RoundCommand::move_far(1, c(2, 2))));
    assert_eq!(game.tokens[0].grid_pos, c(2, 2));
    assert_eq!(game.tokens[0].movement, 2);
    assert_eq!(game.grid.occupant(c(2, 2)), Some(1));
    assert_eq!(game.grid.occupant(c(0, 0)), None);
    assert_eq!(game.step(), Some(RoundCommand::give_turn(1)));
    assert_eq!(game.round.turn_owner, Some(2));
    assert_eq!(game.tokens[1].movement, 6);
    assert_eq!(game.events, vec![GameEvent::IsNowActive { entity: 2 }]);
    assert!(!game.round.is_executing());
    assert_eq!(game.step(), None);
}

#[test]
fn turn_order_wraps_around() {
    let mut game = two_token_game();
    game.round.push_back_command(RoundCommand::give_turn(1));
    game.round.push_back_command(RoundCommand::give_turn(2));
    game.step();
    game.step();
    assert_eq!(game.round.turn_owner, Some(1));
    assert_eq!(
        game.events,
        vec![GameEvent::IsNowActive { entity: 2 }, GameEvent::IsNowActive { entity: 1 }]
    );
}

#[test]
fn give_turn_by_non_owner_changes_nothing() {
    let mut game = two_token_game();
    game.round.push_back_command(RoundCommand::give_turn(2));
    assert_eq!(game.step(), Some(RoundCommand::give_turn(2)));
    assert_eq!(game.round.turn_owner, Some(1));
    assert!(game.events.is_empty());
    assert!(!game.round.is_executing());
}

#[test]
fn command_for_missing_token_is_dropped() {
    let mut game = two_token_game();
    game.round.push_back_command(RoundCommand::move_far(7, c(1, 1)));
    game.round.push_back_command(RoundCommand::move_far(1, c(1, 0)));
    assert!(game.step().is_some());
    assert_eq!(game.tokens[0].grid_pos, c(0, 0));
    assert!(game.step().is_some());
    assert_eq!(game.tokens[0].grid_pos, c(1, 0));
    assert_eq!(game.tokens[0].movement, 5);
}

#[test]
fn move_onto_occupied_cell_fails() {
    let mut game = two_token_game();
    game.tokens[0].movement = 10;
    game.round.push_back_command(RoundCommand::move_far(2, c(3, 4)));
    game.round.push_back_command(RoundCommand::move_far(1, c(3, 4)));
    game.round.push_back_command(RoundCommand::move_far(1, c(0, 2)));
    game.step();
    assert_eq!(game.tokens[1].grid_pos, c(3, 4));
    game.step();
    assert_eq!(game.tokens[0].grid_pos, c(0, 0));
    assert_eq!(game.tokens[0].movement, 10);
    game.step();
    assert_eq!(game.tokens[0].grid_pos, c(0, 2));
    assert_eq!(game.tokens[0].movement, 8);
}

#[test]
fn move_beyond_budget_is_dropped() {
    let mut game = two_token_game();
    game.round.push_back_command(RoundCommand::move_far(1, c(4, 3)));
    game.step();
    assert_eq!(game.tokens[0].grid_pos, c(0, 0));
    assert_eq!(game.tokens[0].movement, 6);
}

#[test]
fn spawn_refuses_taken_cell_and_duplicate_id() {
    let mut game = two_token_game();
    assert!(!game.spawn_token(Token::new(3, "C".to_string(), c(0, 0), 1)));
    assert!(!game.spawn_token(Token::new(1, "D".to_string(), c(2, 2), 1)));
    assert!(!game.spawn_token(Token::new(4, "E".to_string(), c(5, 0), 1)));
    assert_eq!(game.tokens.len(), 2);
    assert!(game.in_turn_order(2));
    assert!(!game.in_turn_order(3));
}

#[test]
fn despawn_clears_cell_order_and_commands() {
    let mut game = two_token_game();
    game.round.push_back_command(RoundCommand::move_far(1, c(1, 0)));
    game.round.push_back_command(RoundCommand::move_far(2, c(4, 3)));
    game.round.push_back_command(RoundCommand::give_turn(1));
    assert!(game.despawn_token(1));
    assert_eq!(game.tokens.len(), 1);
    assert_eq!(game.tokens[0].id, 2);
    assert_eq!(game.grid.occupant(c(0, 0)), None);
    assert_eq!(game.grid.occupant(c(4, 4)), Some(2));
    assert_eq!(game.turn_order, vec![2]);
    assert_eq!(game.round.turn_owner, None);
    assert_eq!(game.round.commands.len(), 1);
    assert_eq!(game.step(), Some(RoundCommand::move_far(2, c(4, 3))));
    assert_eq!(game.tokens[0].grid_pos, c(4, 3));
    assert!(!game.despawn_token(1));
}

#[test]
fn despawn_of_non_owner_keeps_turn() {
    let mut game = two_token_game();
    assert!(game.despawn_token(2));
    assert_eq!(game.round.turn_owner, Some(1));
    assert_eq!(game.turn_order, vec![1]);
    assert_eq!(game.grid.occupant(c(4, 4)), None);
}
