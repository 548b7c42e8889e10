//! Turn resolution and grid movement for a tactical grid game: a board of
//! cells with terrain costs and occupancy, tokens with movement budgets, the
//! movement rules that decide where a token may go and by which path, and the
//! round state machine whose command queue moves tokens and passes turns.

pub mod assets;
pub mod grid;
pub mod rules;
pub mod round;
pub mod game;
pub mod laws;
pub mod ui;
