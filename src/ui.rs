//! What player input does to the game, and what the screen should show: the
//! decisions behind selection, move and end-turn orders, highlighted cells,
//! waypoints and the turn owner's name. Reading the mouse and keyboard and
//! drawing are left to the host.

use vstd::prelude::*;
use crate::grid::{Cell, Token, TokenId};
use crate::game::{has_token, Game};
use crate::round::{Round, RoundCommand};
use crate::rules::{path, path_result, reachable_cells, reachable_result, PathStep};

verus! {

/// Input state kept between frames: the selected token and the cell under
/// the cursor.
pub struct Ui {
    pub selected_entity: Option<TokenId>,
    pub grid_cursor: Cell,
}

impl Ui {
    pub fn new() -> (r: Ui)
        ensures
            r.selected_entity is None,
            r.grid_cursor == (Cell { x: 0, y: 0 }),
    {
        Ui { selected_entity: None, grid_cursor: Cell { x: 0, y: 0 } }
    }
}

/// The cursor moved to another cell, or a mouse button was just pressed.
#[derive(Clone, Copy, Debug, PartialEq, Eq, Structural)]
pub struct GridCursorEvent {
    pub old_pos: Cell,
    pub grid_pos: Cell,
    pub left_just_pressed: bool,
    pub right_just_pressed: bool,
}

/// The selection changed.
#[derive(Clone, Copy, Debug, PartialEq, Eq, Structural)]
pub struct TokenSelectedEvent {
    pub selected: Option<TokenId>,
    pub deselected: Option<TokenId>,
}

/// Records the cell now under the cursor, and returns an event when it
/// differs from the last one or a button was just pressed.
pub fn cursor_event(ui: &mut Ui, pos: Cell, left_just_pressed: bool, right_just_pressed: bool) -> (r:
    Option<GridCursorEvent>)
    ensures
        final(ui).grid_cursor == pos,
        final(ui).selected_entity == old(ui).selected_entity,
        r == (if pos != old(ui).grid_cursor || left_just_pressed || right_just_pressed {
            Some(
                GridCursorEvent {
                    old_pos: old(ui).grid_cursor,
                    grid_pos: pos,
                    left_just_pressed,
                    right_just_pressed,
                },
            )
        } else {
            None
        }),
{
    let old_pos = ui.grid_cursor;
    ui.grid_cursor = pos;
    if pos != old_pos || left_just_pressed || right_just_pressed {
        Some(GridCursorEvent { old_pos, grid_pos: pos, left_just_pressed, right_just_pressed })
    } else {
        None
    }
}

/// The first token standing on `pos`, if any.
pub open spec fn token_at(tokens: Seq<Token>, pos: Cell) -> Option<TokenId>
    decreases tokens.len(),
{
    if tokens.len() == 0 {
        None
    } else if tokens[0].grid_pos == pos {
        Some(tokens[0].id)
    } else {
        token_at(tokens.subrange(1, tokens.len() as int), pos)
    }
}

/// The first token standing on `pos`, if any.
pub fn find_token_at(tokens: &Vec<Token>, pos: Cell) -> (r: Option<TokenId>)
    ensures
        r == token_at(tokens@, pos),
{
    let mut i: usize = tokens.len();
    let mut found: Option<TokenId> = None;
    while i > 0
        invariant
            i <= tokens@.len(),
            found == token_at(tokens@.subrange(i as int, tokens@.len() as int), pos),
        decreases i,
    {
        i = i - 1;
        proof {
            let s = tokens@.subrange(i as int, tokens@.len() as int);
            assert(s.subrange(1, s.len() as int) =~= tokens@.subrange(
                i + 1,
                tokens@.len() as int,
            ));
        }
        if tokens[i].grid_pos == pos {
            found = Some(tokens[i].id);
        }
    }
    proof {
        assert(tokens@.subrange(0, tokens@.len() as int) =~= tokens@);
    }
    found
}

/// Input state while a frame's cursor events are handled: the selection, the
/// round's pending commands, and the selection changes reported so far.
pub type CursorState = (Option<TokenId>, Seq<RoundCommand>, Seq<TokenSelectedEvent>);

/// One cursor event. A left click selects the token under the cursor (or
/// clears the selection on an empty cell) and reports any change; then a
/// right click orders the selected token to walk to the cell, ahead of every
/// pending command.
pub open spec fn after_event(tokens: Seq<Token>, st: CursorState, ev: GridCursorEvent) -> CursorState {
    let sel = if ev.left_just_pressed {
        token_at(tokens, ev.grid_pos)
    } else {
        st.0
    };
    let reports = if sel != st.0 {
        st.2.push(TokenSelectedEvent { selected: sel, deselected: st.0 })
    } else {
        st.2
    };
    let commands = if ev.right_just_pressed && sel is Some {
        seq![RoundCommand::MoveFar { token: sel->0, destination: ev.grid_pos }] + st.1
    } else {
        st.1
    };
    (sel, commands, reports)
}

/// The events of a frame, handled in order.
pub open spec fn after_events(tokens: Seq<Token>, st: CursorState, evs: Seq<GridCursorEvent>) -> CursorState
    decreases evs.len(),
{
    if evs.len() == 0 {
        st
    } else {
        after_event(tokens, after_events(tokens, st, evs.drop_last()), evs.last())
    }
}

/// Handles one cursor event, whatever the round is doing: see `after_event`.
/// Returns the selection change it reports, if any.
pub fn cursor_input_event(
    ui: &mut Ui,
    tokens: &Vec<Token>,
    round: &mut Round,
    ev: GridCursorEvent,
) -> (r: Option<TokenSelectedEvent>)
    ensures
        final(ui).grid_cursor == old(ui).grid_cursor,
        final(round).turn_owner == old(round).turn_owner,
        ({
            let st = after_event(
                tokens@,
                (old(ui).selected_entity, old(round).commands@, Seq::empty()),
                ev,
            );
            &&& final(ui).selected_entity == st.0
            &&& final(round).commands@ == st.1
            &&& r == (if st.2.len() > 0 {
                Some(st.2[0])
            } else {
                None
            })
            &&& st.2.len() <= 1
        }),
{
    let mut r: Option<TokenSelectedEvent> = None;
    if ev.left_just_pressed {
        let selected = find_token_at(tokens, ev.grid_pos);
        if selected != ui.selected_entity {
            r = Some(TokenSelectedEvent { selected, deselected: ui.selected_entity });
            ui.selected_entity = selected;
        }
    }
    if ev.right_just_pressed {
        if let Some(selected) = ui.selected_entity {
            round.push_front_command(RoundCommand::move_far(selected, ev.grid_pos));
        }
    }
    r
}

/// Handles a frame's cursor events while the round is idle; the whole frame
/// is ignored when it is executing as the frame begins. Returns the selection
/// changes, in order.
pub fn grid_cursor_input(
    ui: &mut Ui,
    tokens: &Vec<Token>,
    round: &mut Round,
    events: &Vec<GridCursorEvent>,
) -> (r: Vec<TokenSelectedEvent>)
    ensures
        final(ui).grid_cursor == old(ui).grid_cursor,
        final(round).turn_owner == old(round).turn_owner,
        old(round).executing() ==> {
            &&& r@.len() == 0
            &&& final(ui).selected_entity == old(ui).selected_entity
            &&& final(round).commands@ == old(round).commands@
        },
        !old(round).executing() ==> (final(ui).selected_entity, final(round).commands@, r@)
            == after_events(
            tokens@,
            (old(ui).selected_entity, old(round).commands@, Seq::empty()),
            events@,
        ),
{
    let mut out: Vec<TokenSelectedEvent> = Vec::new();
    if round.is_executing() {
        return out;
    }
    let ghost init: CursorState = (ui.selected_entity, round.commands@, Seq::empty());
    let mut i: usize = 0;
    while i < events.len()
        invariant
            i <= events@.len(),
            ui.grid_cursor == old(ui).grid_cursor,
            round.turn_owner == old(round).turn_owner,
            init == (old(ui).selected_entity, old(round).commands@, Seq::<TokenSelectedEvent>::empty()),
            (ui.selected_entity, round.commands@, out@) == after_events(
                tokens@,
                init,
                events@.subrange(0, i as int),
            ),
        decreases events@.len() - i,
    {
        let ev = events[i];
        let ghost sel0 = ui.selected_entity;
        let ghost q0 = round.commands@;
        let ghost out0 = out@;
        let rep = cursor_input_event(ui, tokens, round, ev);
        if let Some(e) = rep {
            out.push(e);
        }
        proof {
            assert(events@.subrange(0, i + 1).drop_last() =~= events@.subrange(0, i as int));
            assert(events@.subrange(0, i + 1).last() == ev);
            let one = after_event(tokens@, (sel0, q0, Seq::empty()), ev);
            let full = after_event(tokens@, (sel0, q0, out0), ev);
            assert(one.0 == full.0 && one.1 == full.1);
            if one.2.len() > 0 {
                assert(full.2 =~= out0.push(one.2[0]));
            } else {
                assert(full.2 =~= out0);
            }
        }
        i = i + 1;
    }
    proof {
        assert(events@.subrange(0, events@.len() as int) =~= events@);
    }
    out
}

/// Ends the selected token's turn when the end-turn key was just pressed and
/// the round is idle: queues `GiveTurn` behind any pending command.
pub fn action_input(ui: &Ui, round: &mut Round, end_turn_pressed: bool)
    ensures
        final(round).turn_owner == old(round).turn_owner,
        final(round).commands@ == (if !old(round).executing() && end_turn_pressed
            && ui.selected_entity is Some {
            old(round).commands@.push(RoundCommand::GiveTurn { token: ui.selected_entity->0 })
        } else {
            old(round).commands@
        }),
{
    if round.is_executing() {
        return;
    }
    if let Some(entity) = ui.selected_entity {
        if end_turn_pressed {
            round.push_back_command(RoundCommand::give_turn(entity));
        }
    }
}

/// Cells to highlight: where the selected token can go, while the round is
/// idle; nothing while it executes or when no token is selected.
pub fn highlight_cells(ui: &Ui, game: &Game) -> (r: Vec<(Cell, u32)>)
    requires
        game.wf(),
    ensures
        (game.round.executing() || ui.selected_entity is None || !has_token(
            game.tokens@,
            ui.selected_entity->0,
        )) ==> r@.len() == 0,
        forall|i: int|
            0 <= i < game.tokens@.len() && !game.round.executing() && ui.selected_entity == Some(
                (#[trigger] game.tokens@[i]).id,
            ) ==> reachable_result(game.grid, game.tokens@[i], r@),
{
    if game.round.is_executing() {
        return Vec::new();
    }
    match ui.selected_entity {
        None => Vec::new(),
        Some(id) => match game.find_token(id) {
            None => Vec::new(),
            Some(i) => {
                proof {
                    assert forall|j: int| 0 <= j < game.tokens@.len() && (#[trigger] game.tokens@[j]).id == id implies j == i by {
                        if j < i {
                            assert(game.tokens@[j].id != game.tokens@[i as int].id);
                        } else if i < j {
                            assert(game.tokens@[i as int].id != game.tokens@[j].id);
                        }
                    }
                }
                reachable_cells(&game.tokens[i], &game.grid)
            },
        },
    }
}

/// Waypoints to show: the path of the selected token to the cell under the
/// cursor, while the round is idle; nothing while it executes or when no
/// token is selected.
pub fn waypoint_steps(ui: &Ui, game: &Game) -> (r: Vec<PathStep>)
    requires
        game.wf(),
    ensures
        (game.round.executing() || ui.selected_entity is None || !has_token(
            game.tokens@,
            ui.selected_entity->0,
        )) ==> r@.len() == 0,
        forall|i: int|
            0 <= i < game.tokens@.len() && !game.round.executing() && ui.selected_entity == Some(
                (#[trigger] game.tokens@[i]).id,
            ) ==> path_result(game.grid, game.tokens@[i], ui.grid_cursor, r@),
{
    if game.round.is_executing() {
        return Vec::new();
    }
    match ui.selected_entity {
        None => Vec::new(),
        Some(id) => match game.find_token(id) {
            None => Vec::new(),
            Some(i) => {
                proof {
                    assert forall|j: int| 0 <= j < game.tokens@.len() && (#[trigger] game.tokens@[j]).id == id implies j == i by {
                        if j < i {
                            assert(game.tokens@[j].id != game.tokens@[i as int].id);
                        } else if i < j {
                            assert(game.tokens@[i as int].id != game.tokens@[j].id);
                        }
                    }
                }
                path(&game.tokens[i], &game.grid, ui.grid_cursor)
            },
        },
    }
}

/// Name to show for the token whose turn it is; empty when nobody holds the
/// turn or that token is gone.
pub fn turn_owner_name(game: &Game) -> (r: String)
    requires
        game.wf(),
    ensures
        (game.round.turn_owner is None || !has_token(game.tokens@, game.round.turn_owner->0))
            ==> r@.len() == 0,
        forall|i: int|
            0 <= i < game.tokens@.len() && game.round.turn_owner == Some(
                (#[trigger] game.tokens@[i]).id,
            ) ==> r@ == game.tokens@[i].name@,
{
    match game.round.turn_owner {
        None => String::new(),
        Some(id) => match game.find_token(id) {
            None => String::new(),
            Some(i) => {
                proof {
                    assert forall|j: int| 0 <= j < game.tokens@.len() && (#[trigger] game.tokens@[j]).id == id implies j == i by {
                        if j < i {
                            assert(game.tokens@[j].id != game.tokens@[i as int].id);
                        } else if i < j {
                            assert(game.tokens@[i as int].id != game.tokens@[j].id);
                        }
                    }
                }
                game.tokens[i].name.clone()
            },
        },
    }
}

} // verus!
