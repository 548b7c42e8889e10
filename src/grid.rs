//! The board: cells, terrain costs, occupancy, and the tokens placed on it.

use vstd::prelude::*;

verus! {

/// Identity of a token, stable for the whole session.
pub type TokenId = u64;

/// An integer position on the board; `x` runs along a row, `y` across rows.
#[derive(Clone, Copy, Debug, PartialEq, Eq, Structural)]
pub struct Cell {
    pub x: i32,
    pub y: i32,
}

impl Cell {
    pub fn new(x: i32, y: i32) -> (r: Cell)
        ensures
            r.x == x,
            r.y == y,
    {
        Cell { x, y }
    }
}

/// Two cells that share an edge.
pub open spec fn adjacent(a: Cell, b: Cell) -> bool {
    ||| a.x == b.x && (a.y as int - b.y as int == 1 || b.y as int - a.y as int == 1)
    ||| a.y == b.y && (a.x as int - b.x as int == 1 || b.x as int - a.x as int == 1)
}

/// A rectangular board. Cells are stored row by row: cell `(x, y)` sits at
/// index `y * width + x`. A terrain cost of 0 marks an impassable cell; any
/// other value is what it costs to step into the cell. `occupants` records
/// which token, if any, stands on each cell.
pub struct Grid {
    pub width: i32,
    pub height: i32,
    pub costs: Vec<u32>,
    pub occupants: Vec<Option<TokenId>>,
}

pub proof fn lemma_index_in_range(w: int, h: int, x: int, y: int)
    requires
        0 <= x < w,
        0 <= y < h,
    ensures
        0 <= y * w + x < w * h,
{
    assert(0 <= y * w) by (nonlinear_arith)
        requires
            0 <= y,
            0 <= w,
    ;
    assert(y * w + x < w * h) by (nonlinear_arith)
        requires
            0 <= x < w,
            0 <= y < h,
    ;
}

impl Grid {
    /// Number of cells.
    pub open spec fn size(&self) -> int {
        self.width * self.height
    }

    pub open spec fn wf(&self) -> bool {
        &&& self.width >= 0
        &&& self.height >= 0
        &&& self.costs@.len() == self.size()
        &&& self.occupants@.len() == self.size()
    }

    pub open spec fn in_bounds(&self, x: int, y: int) -> bool {
        0 <= x < self.width && 0 <= y < self.height
    }

    pub open spec fn idx(&self, x: int, y: int) -> int {
        y * self.width + x
    }

    pub open spec fn cost_at(&self, x: int, y: int) -> int {
        self.costs@[self.idx(x, y)] as int
    }

    pub open spec fn occupant_at(&self, x: int, y: int) -> Option<TokenId> {
        self.occupants@[self.idx(x, y)]
    }

    /// Whether the token `mover` may step into `(x, y)`: the cell is on the
    /// board, passable, and no other token stands on it. Occupied cells block
    /// movement entirely: a token never passes through another one.
    pub open spec fn enterable(&self, mover: TokenId, x: int, y: int) -> bool {
        &&& self.in_bounds(x, y)
        &&& self.cost_at(x, y) > 0
        &&& (self.occupant_at(x, y) is None || self.occupant_at(x, y) == Some(mover))
    }

    /// A board of `width` by `height` cells, all of terrain cost `cost`, and
    /// no token on it.
    pub fn new(width: i32, height: i32, cost: u32) -> (r: Grid)
        requires
            width >= 0,
            height >= 0,
            width * height <= usize::MAX,
        ensures
            r.wf(),
            r.width == width,
            r.height == height,
            forall|x: int, y: int| #[trigger]
                r.in_bounds(x, y) ==> r.cost_at(x, y) == cost && r.occupant_at(x, y) is None,
    {
        let n: usize = (width as usize) * (height as usize);
        let mut costs: Vec<u32> = Vec::new();
        let mut occupants: Vec<Option<TokenId>> = Vec::new();
        let mut i: usize = 0;
        while i < n
            invariant
                n == width * height,
                i <= n,
                costs@.len() == i,
                occupants@.len() == i,
                forall|j: int| 0 <= j < i ==> costs@[j] == cost && occupants@[j] is None,
            decreases n - i,
        {
            costs.push(cost);
            occupants.push(None);
            i = i + 1;
        }
        let r = Grid { width, height, costs, occupants };
        assert forall|x: int, y: int| #[trigger] r.in_bounds(x, y) implies r.cost_at(x, y) == cost
            && r.occupant_at(x, y) is None by {
            lemma_index_in_range(width as int, height as int, x, y);
        }
        r
    }

    /// Position of `(x, y)` in the cell vectors, or `None` off the board.
    pub fn index(&self, x: i32, y: i32) -> (r: Option<usize>)
        requires
            self.wf(),
        ensures
            r is Some <==> self.in_bounds(x as int, y as int),
            r is Some ==> r->0 == self.idx(x as int, y as int) && r->0 < self.size(),
    {
        let n = self.costs.len();
        if 0 <= x && x < self.width && 0 <= y && y < self.height {
            proof {
                lemma_index_in_range(self.width as int, self.height as int, x as int, y as int);
                assert((y as usize) * (self.width as usize) == y * self.width);
                assert(y * self.width + x < n);
            }
            Some((y as usize) * (self.width as usize) + (x as usize))
        } else {
            None
        }
    }

    /// Terrain cost of a cell, `None` off the board.
    pub fn cost(&self, c: Cell) -> (r: Option<u32>)
        requires
            self.wf(),
        ensures
            r is Some <==> self.in_bounds(c.x as int, c.y as int),
            r is Some ==> r->0 == self.cost_at(c.x as int, c.y as int),
    {
        match self.index(c.x, c.y) {
            Some(i) => Some(self.costs[i]),
            None => None,
        }
    }

    /// The token standing on a cell; `None` when the cell is free or off the
    /// board.
    pub fn occupant(&self, c: Cell) -> (r: Option<TokenId>)
        requires
            self.wf(),
        ensures
            r == (if self.in_bounds(c.x as int, c.y as int) {
                self.occupant_at(c.x as int, c.y as int)
            } else {
                None
            }),
    {
        match self.index(c.x, c.y) {
            Some(i) => self.occupants[i],
            None => None,
        }
    }

    /// Changes the terrain cost of one cell; returns false, changing nothing,
    /// when the cell is off the board.
    pub fn set_cost(&mut self, c: Cell, cost: u32) -> (r: bool)
        requires
            old(self).wf(),
        ensures
            final(self).wf(),
            r == old(self).in_bounds(c.x as int, c.y as int),
            final(self).width == old(self).width,
            final(self).height == old(self).height,
            final(self).occupants == old(self).occupants,
            r ==> final(self).costs@ == old(self).costs@.update(
                old(self).idx(c.x as int, c.y as int),
                cost,
            ),
            !r ==> final(self).costs@ == old(self).costs@,
    {
        match self.index(c.x, c.y) {
            Some(i) => {
                self.costs.set(i, cost);
                true
            },
            None => false,
        }
    }

    /// Records `who` as standing on a cell (or the cell as free, for `None`);
    /// returns false, changing nothing, when the cell is off the board.
    pub fn set_occupant(&mut self, c: Cell, who: Option<TokenId>) -> (r: bool)
        requires
            old(self).wf(),
        ensures
            final(self).wf(),
            r == old(self).in_bounds(c.x as int, c.y as int),
            final(self).width == old(self).width,
            final(self).height == old(self).height,
            final(self).costs == old(self).costs,
            r ==> final(self).occupants@ == old(self).occupants@.update(
                old(self).idx(c.x as int, c.y as int),
                who,
            ),
            !r ==> final(self).occupants@ == old(self).occupants@,
    {
        match self.index(c.x, c.y) {
            Some(i) => {
                self.occupants.set(i, who);
                true
            },
            None => false,
        }
    }
}

/// A participant on the board. `movement` is what is left of its movement
/// budget this turn; `movement_max` is the full budget it gets back when its
/// turn begins. Both are in terrain-cost units.
pub struct Token {
    pub id: TokenId,
    pub name: String,
    pub grid_pos: Cell,
    pub movement: u32,
    pub movement_max: u32,
}

/// Length of one cell's side, in feet.
pub const FEET_PER_CELL: u32 = 5;

/// Movement budget in cells for a statblock movement distance in feet:
/// whole cells only, a partial cell is dropped.
pub fn movement_budget_from_feet(feet: u32) -> (r: u32)
    ensures
        r == feet / FEET_PER_CELL,
{
    feet / FEET_PER_CELL
}

impl Token {
    pub fn new(id: TokenId, name: String, grid_pos: Cell, movement_max: u32) -> (r: Token)
        ensures
            r.id == id,
            r.name@ == name@,
            r.grid_pos == grid_pos,
            r.movement == movement_max,
            r.movement_max == movement_max,
    {
        Token { id, name, grid_pos, movement: movement_max, movement_max }
    }
}

} // verus!
