//! Statblocks: the game data a token's movement budget comes from, and the
//! loader that claims statblock files.

use vstd::prelude::*;
use crate::grid::{movement_budget_from_feet, FEET_PER_CELL};

verus! {

/// A creature's statistics; `movement_ft` is its walking speed in whole feet,
/// when it has one.
pub struct Statblock {
    pub movement_ft: Option<u32>,
}

impl Statblock {
    /// Movement budget in cells; no speed means no movement.
    pub fn movement_budget(&self) -> (r: u32)
        ensures
            r == match self.movement_ft {
                Some(ft) => ft / FEET_PER_CELL,
                None => 0,
            },
    {
        match self.movement_ft {
            Some(ft) => movement_budget_from_feet(ft),
            None => 0,
        }
    }
}

/// Loads statblock files, recognised by their extension.
#[derive(Default)]
pub struct StablockAssetLoader;

impl StablockAssetLoader {
    /// File extensions this loader claims.
    pub fn extensions(&self) -> (r: &'static [&'static str])
        ensures
            r@.len() == 1,
            r@[0]@ == "statblock"@,
    {
        proof {
            reveal_strlit("statblock");
        }
        &["statblock"]
    }
}

} // verus!
