//! Movement rules: which cells a token can reach within its movement budget,
//! at what cost, and the cheapest path to a chosen cell.
//!
//! Costs are found by dynamic programming over walk length: layer `k` holds,
//! for every cell, the least cost of a walk of at most `k` steps from the
//! token's cell. Every passable cell costs at least 1 to enter, so a walk that
//! fits a budget `b` has at most `b` steps, and layer `b` is exact for every
//! cell within the budget.

use vstd::prelude::*;
use crate::grid::{adjacent, lemma_index_in_range, Cell, Grid, Token, TokenId};

verus! {

/// Cost that stands for "no walk at all".
pub const UNREACHABLE: u64 = 0x1_0000_0000_0000;

pub open spec fn min(a: int, b: int) -> int {
    if a <= b {
        a
    } else {
        b
    }
}

pub open spec fn cap(v: int) -> int {
    if v < UNREACHABLE {
        v
    } else {
        UNREACHABLE as int
    }
}

/// Least cost of a walk of at most `k` steps from `origin` to `(x, y)`, where
/// each step goes to an edge-adjacent cell that `mover` may enter and costs
/// that cell's terrain cost; UNREACHABLE when no such walk exists.
pub open spec fn best(g: Grid, mover: TokenId, origin: Cell, k: nat, x: int, y: int) -> int
    decreases k,
{
    if !g.in_bounds(x, y) {
        UNREACHABLE as int
    } else if k == 0 {
        if x == origin.x && y == origin.y {
            0
        } else {
            UNREACHABLE as int
        }
    } else {
        let stay = best(g, mover, origin, (k - 1) as nat, x, y);
        if g.enterable(mover, x, y) {
            let from = min(
                min(
                    best(g, mover, origin, (k - 1) as nat, x - 1, y),
                    best(g, mover, origin, (k - 1) as nat, x + 1, y),
                ),
                min(
                    best(g, mover, origin, (k - 1) as nat, x, y - 1),
                    best(g, mover, origin, (k - 1) as nat, x, y + 1),
                ),
            );
            min(stay, cap(from + g.cost_at(x, y)))
        } else {
            stay
        }
    }
}

/// Cost for token `t` to reach `(x, y)`: the cheapest walk from its cell that
/// fits in its remaining movement, or more than that movement if none does.
pub open spec fn reach_cost(g: Grid, t: Token, x: int, y: int) -> int {
    best(g, t.id, t.grid_pos, t.movement as nat, x, y)
}

pub open spec fn reachable(g: Grid, t: Token, x: int, y: int) -> bool {
    reach_cost(g, t, x, y) <= t.movement
}

/// Row-major order of cells: by row, then by column.
pub open spec fn before(a: Cell, b: Cell) -> bool {
    a.y < b.y || (a.y == b.y && a.x < b.x)
}

/// What `reachable_cells` returns: exactly the reachable cells, each once with
/// its reach cost, in row-major order.
pub open spec fn reachable_result(g: Grid, t: Token, s: Seq<(Cell, u32)>) -> bool {
    &&& forall|i: int|
        0 <= i < s.len() ==> {
            &&& g.in_bounds(#[trigger] s[i].0.x as int, s[i].0.y as int)
            &&& reachable(g, t, s[i].0.x as int, s[i].0.y as int)
            &&& s[i].1 == reach_cost(g, t, s[i].0.x as int, s[i].0.y as int)
        }
    &&& forall|x: int, y: int|
        g.in_bounds(x, y) && #[trigger] reachable(g, t, x, y) ==> exists|i: int|
            0 <= i < s.len() && s[i].0.x == x && s[i].0.y == y
    &&& forall|i: int, j: int| 0 <= i < j < s.len() ==> before(#[trigger] s[i].0, #[trigger] s[j].0)
}

/// One step of a path: from a cell into an adjacent one, paying the terrain
/// cost of the cell entered.
#[derive(Clone, Copy, Debug, PartialEq, Eq, Structural)]
pub struct PathStep {
    pub from: Cell,
    pub to: Cell,
    pub cost: u32,
}

pub open spec fn step_ok(g: Grid, mover: TokenId, s: PathStep) -> bool {
    &&& adjacent(s.from, s.to)
    &&& g.enterable(mover, s.to.x as int, s.to.y as int)
    &&& s.cost == g.cost_at(s.to.x as int, s.to.y as int)
}

/// `s` is a chain of legal steps for `mover` that leads from `from` to `to`.
pub open spec fn is_walk(g: Grid, mover: TokenId, from: Cell, s: Seq<PathStep>, to: Cell) -> bool {
    &&& s.len() == 0 ==> from == to
    &&& s.len() > 0 ==> s[0].from == from && s.last().to == to
    &&& forall|i: int| 0 < i < s.len() ==> #[trigger] s[i].from == s[i - 1].to
    &&& forall|i: int| 0 <= i < s.len() ==> step_ok(g, mover, #[trigger] s[i])
}

pub open spec fn total_cost(s: Seq<PathStep>) -> int
    decreases s.len(),
{
    if s.len() == 0 {
        0
    } else {
        s[0].cost + total_cost(s.subrange(1, s.len() as int))
    }
}

/// The path the cost table leads back along from `(x, y)` at layer `k`:
/// where layer `k - 1` already has the same cost it goes down a layer in
/// place, otherwise it steps back into the first neighbour (left, right,
/// down, up) whose layer `k - 1` cost plus this cell's cost makes up the
/// layer `k` cost. This fixes which of several cheapest paths is taken.
pub open spec fn trace(g: Grid, mover: TokenId, origin: Cell, k: nat, x: int, y: int) -> Seq<
    PathStep,
>
    decreases k,
{
    if k == 0 || (x == origin.x && y == origin.y) {
        Seq::empty()
    } else {
        let km = (k - 1) as nat;
        let here = best(g, mover, origin, k, x, y);
        if best(g, mover, origin, km, x, y) == here {
            trace(g, mover, origin, km, x, y)
        } else {
            let cost = g.cost_at(x, y);
            let (nx, ny) = if best(g, mover, origin, km, x - 1, y) + cost == here {
                (x - 1, y)
            } else if best(g, mover, origin, km, x + 1, y) + cost == here {
                (x + 1, y)
            } else if best(g, mover, origin, km, x, y - 1) + cost == here {
                (x, y - 1)
            } else {
                (x, y + 1)
            };
            trace(g, mover, origin, km, nx, ny).push(
                PathStep {
                    from: Cell { x: nx as i32, y: ny as i32 },
                    to: Cell { x: x as i32, y: y as i32 },
                    cost: cost as u32,
                },
            )
        }
    }
}

/// What `path` returns: for a reachable cell other than the token's own, a
/// walk there whose total cost is the reach cost; otherwise no step at all.
pub open spec fn path_result(g: Grid, t: Token, dest: Cell, s: Seq<PathStep>) -> bool {
    if g.in_bounds(dest.x as int, dest.y as int) && reachable(g, t, dest.x as int, dest.y as int)
        && dest != t.grid_pos {
        &&& s.len() > 0
        &&& is_walk(g, t.id, t.grid_pos, s, dest)
        &&& total_cost(s) == reach_cost(g, t, dest.x as int, dest.y as int)
        &&& s == trace(g, t.id, t.grid_pos, t.movement as nat, dest.x as int, dest.y as int)
    } else {
        s.len() == 0
    }
}

pub proof fn lemma_best_range(g: Grid, mover: TokenId, origin: Cell, k: nat)
    ensures
        forall|x: int, y: int|
            0 <= #[trigger] best(g, mover, origin, k, x, y) <= UNREACHABLE,
    decreases k,
{
    if k > 0 {
        lemma_best_range(g, mover, origin, (k - 1) as nat);
        assert forall|x: int, y: int| 0 <= #[trigger] best(g, mover, origin, k, x, y) <= UNREACHABLE by {
            assert(0 <= best(g, mover, origin, (k - 1) as nat, x, y));
            assert(0 <= best(g, mover, origin, (k - 1) as nat, x - 1, y));
            assert(0 <= best(g, mover, origin, (k - 1) as nat, x + 1, y));
            assert(0 <= best(g, mover, origin, (k - 1) as nat, x, y - 1));
            assert(0 <= best(g, mover, origin, (k - 1) as nat, x, y + 1));
        }
    } else {
        assert forall|x: int, y: int| 0 <= #[trigger] best(g, mover, origin, k, x, y) <= UNREACHABLE by {
        }
    }
}

pub proof fn lemma_best_origin(g: Grid, mover: TokenId, origin: Cell, k: nat)
    requires
        g.in_bounds(origin.x as int, origin.y as int),
    ensures
        best(g, mover, origin, k, origin.x as int, origin.y as int) == 0,
    decreases k,
{
    if k > 0 {
        let (x, y) = (origin.x as int, origin.y as int);
        lemma_best_origin(g, mover, origin, (k - 1) as nat);
        lemma_best_range(g, mover, origin, (k - 1) as nat);
        assert(0 <= best(g, mover, origin, (k - 1) as nat, x - 1, y));
        assert(0 <= best(g, mover, origin, (k - 1) as nat, x + 1, y));
        assert(0 <= best(g, mover, origin, (k - 1) as nat, x, y - 1));
        assert(0 <= best(g, mover, origin, (k - 1) as nat, x, y + 1));
    }
}

/// A cell that `mover` may not enter is never reached, unless it is the
/// starting cell.
pub proof fn lemma_best_blocked(g: Grid, mover: TokenId, origin: Cell, k: nat, x: int, y: int)
    requires
        !g.enterable(mover, x, y),
        !(x == origin.x && y == origin.y),
    ensures
        best(g, mover, origin, k, x, y) == UNREACHABLE,
    decreases k,
{
    if k > 0 {
        lemma_best_blocked(g, mover, origin, (k - 1) as nat, x, y);
    }
}

/// `layer` holds, at each cell's index, the least cost over walks of at most
/// `k` steps.
pub open spec fn is_layer(g: Grid, mover: TokenId, origin: Cell, k: nat, layer: Seq<u64>) -> bool {
    &&& layer.len() == g.size()
    &&& forall|x: int, y: int|
        g.in_bounds(x, y) ==> #[trigger] layer[g.idx(x, y)] == best(g, mover, origin, k, x, y)
}

proof fn lemma_index_before(w: int, x1: int, y1: int, x2: int, y2: int)
    requires
        0 <= x1 < w,
        0 <= x2 <= w,
        0 <= y1,
        y1 < y2 || (y1 == y2 && x1 < x2),
    ensures
        y1 * w + x1 < y2 * w + x2,
{
    if y1 < y2 {
        assert(y1 * w + w <= y2 * w) by (nonlinear_arith)
            requires
                y1 < y2,
                0 <= w,
        ;
    }
}

/// Value of `layer` at `(x, y)`, UNREACHABLE off the board.
fn value_at(g: &Grid, layer: &Vec<u64>, x: i32, y: i32) -> (r: u64)
    requires
        g.wf(),
        layer@.len() == g.size(),
    ensures
        r == (if g.in_bounds(x as int, y as int) {
            layer@[g.idx(x as int, y as int)]
        } else {
            UNREACHABLE
        }),
{
    match g.index(x, y) {
        Some(i) => layer[i],
        None => UNREACHABLE,
    }
}

/// Whether `mover` may step into `(x, y)`.
pub fn can_enter(g: &Grid, mover: TokenId, x: i32, y: i32) -> (r: bool)
    requires
        g.wf(),
    ensures
        r == g.enterable(mover, x as int, y as int),
{
    match g.index(x, y) {
        Some(i) => {
            g.costs[i] > 0 && match g.occupants[i] {
                None => true,
                Some(o) => o == mover,
            }
        },
        None => false,
    }
}

fn min_u64(a: u64, b: u64) -> (r: u64)
    ensures
        r == min(a as int, b as int),
{
    if a <= b {
        a
    } else {
        b
    }
}

/// Layer `k` at one cell, from layer `k - 1`.
fn layer_cell(
    g: &Grid,
    mover: TokenId,
    origin: Cell,
    k: usize,
    prev: &Vec<u64>,
    x: i32,
    y: i32,
) -> (r: u64)
    requires
        g.wf(),
        k > 0,
        g.in_bounds(x as int, y as int),
        is_layer(*g, mover, origin, (k - 1) as nat, prev@),
    ensures
        r == best(*g, mover, origin, k as nat, x as int, y as int),
{
    proof {
        lemma_best_range(*g, mover, origin, (k - 1) as nat);
    }
    let stay = value_at(g, prev, x, y);
    if can_enter(g, mover, x, y) {
        let a = value_at(g, prev, x - 1, y);
        let b = value_at(g, prev, x + 1, y);
        let c = value_at(g, prev, x, y - 1);
        let d = value_at(g, prev, x, y + 1);
        let from = min_u64(min_u64(a, b), min_u64(c, d));
        let i = g.index(x, y).unwrap();
        proof {
            let km = (k - 1) as nat;
            let (xi, yi) = (x as int, y as int);
            assert(a == best(*g, mover, origin, km, xi - 1, yi));
            assert(b == best(*g, mover, origin, km, xi + 1, yi));
            assert(c == best(*g, mover, origin, km, xi, yi - 1));
            assert(d == best(*g, mover, origin, km, xi, yi + 1));
            assert(stay == best(*g, mover, origin, km, xi, yi));
            assert(0 <= a);
        }
        let cand0 = from + g.costs[i] as u64;
        let cand = if cand0 < UNREACHABLE {
            cand0
        } else {
            UNREACHABLE
        };
        min_u64(stay, cand)
    } else {
        stay
    }
}

/// The whole of layer `k`: from `prev` (layer `k - 1`) when `k > 0`, and from
/// the origin alone when `k == 0`.
fn build_layer(g: &Grid, mover: TokenId, origin: Cell, k: usize, prev: &Vec<u64>) -> (r: Vec<u64>)
    requires
        g.wf(),
        k > 0 ==> is_layer(*g, mover, origin, (k - 1) as nat, prev@),
    ensures
        is_layer(*g, mover, origin, k as nat, r@),
{
    let w = g.width;
    let h = g.height;
    let mut out: Vec<u64> = Vec::new();
    let mut y: i32 = 0;
    while y < h
        invariant
            g.wf(),
            w == g.width,
            h == g.height,
            k > 0 ==> is_layer(*g, mover, origin, (k - 1) as nat, prev@),
            0 <= y <= h,
            out@.len() == y * w,
            forall|x2: int, y2: int|
                g.in_bounds(x2, y2) && y2 < y ==> #[trigger] out@[g.idx(x2, y2)] == best(
                    *g,
                    mover,
                    origin,
                    k as nat,
                    x2,
                    y2,
                ),
        decreases h - y,
    {
        let mut x: i32 = 0;
        while x < w
            invariant
                g.wf(),
                w == g.width,
                h == g.height,
                k > 0 ==> is_layer(*g, mover, origin, (k - 1) as nat, prev@),
                0 <= y < h,
                0 <= x <= w,
                out@.len() == y * w + x,
                forall|x2: int, y2: int|
                    g.in_bounds(x2, y2) && (y2 < y || (y2 == y && x2 < x))
                        ==> #[trigger] out@[g.idx(x2, y2)] == best(
                        *g,
                        mover,
                        origin,
                        k as nat,
                        x2,
                        y2,
                    ),
            decreases w - x,
        {
            let v = if k == 0 {
                if x == origin.x && y == origin.y {
                    0
                } else {
                    UNREACHABLE
                }
            } else {
                layer_cell(g, mover, origin, k, prev, x, y)
            };
            let ghost before_push = out@;
            out.push(v);
            proof {
                assert forall|x2: int, y2: int|
                    g.in_bounds(x2, y2) && (y2 < y || (y2 == y && x2 < x + 1)) implies
                    #[trigger] out@[g.idx(x2, y2)] == best(*g, mover, origin, k as nat, x2, y2) by {
                    if y2 < y || (y2 == y && x2 < x) {
                        lemma_index_before(w as int, x2, y2, x as int, y as int);
                        assert(out@[g.idx(x2, y2)] == before_push[g.idx(x2, y2)]);
                    } else {
                        assert(x2 == x && y2 == y);
                    }
                }
            }
            x = x + 1;
        }
        assert((y + 1) * w == y * w + w) by (nonlinear_arith);
        y = y + 1;
    }
    proof {
        assert(h * w == w * h) by (nonlinear_arith);
    }
    out
}

/// Layers `0` to `t.movement` of the cost table.
fn cost_layers(g: &Grid, t: &Token) -> (r: Vec<Vec<u64>>)
    requires
        g.wf(),
    ensures
        r@.len() == t.movement + 1,
        forall|k: int|
            0 <= k < r@.len() ==> is_layer(*g, t.id, t.grid_pos, k as nat, #[trigger] r@[k]@),
{
    let b = t.movement as usize;
    let empty: Vec<u64> = Vec::new();
    let first = build_layer(g, t.id, t.grid_pos, 0, &empty);
    let mut layers: Vec<Vec<u64>> = Vec::new();
    layers.push(first);
    let mut k: usize = 0;
    while k < b
        invariant
            g.wf(),
            b == t.movement,
            k <= b,
            layers@.len() == k + 1,
            forall|j: int|
                0 <= j < layers@.len() ==> is_layer(
                    *g,
                    t.id,
                    t.grid_pos,
                    j as nat,
                    #[trigger] layers@[j]@,
                ),
        decreases b - k,
    {
        let next = build_layer(g, t.id, t.grid_pos, k + 1, &layers[k]);
        layers.push(next);
        k = k + 1;
    }
    layers
}

/// Every cell that `token` can reach within its remaining movement, with the
/// cost of the cheapest way there, in row-major order. The token's own cell is
/// included at cost 0. Cells held by another token are never included.
pub fn reachable_cells(token: &Token, grid: &Grid) -> (r: Vec<(Cell, u32)>)
    requires
        grid.wf(),
    ensures
        reachable_result(*grid, *token, r@),
{
    let layers = cost_layers(grid, token);
    let b = token.movement as usize;
    let last = &layers[b];
    let ghost g = *grid;
    let ghost t = *token;
    let w = grid.width;
    let h = grid.height;
    let mut out: Vec<(Cell, u32)> = Vec::new();
    let mut y: i32 = 0;
    while y < h
        invariant
            g == *grid,
            t == *token,
            g.wf(),
            w == g.width,
            h == g.height,
            is_layer(g, t.id, t.grid_pos, t.movement as nat, last@),
            0 <= y <= h,
            forall|i: int|
                0 <= i < out@.len() ==> {
                    &&& g.in_bounds((#[trigger] out@[i]).0.x as int, out@[i].0.y as int)
                    &&& reachable(g, t, out@[i].0.x as int, out@[i].0.y as int)
                    &&& out@[i].1 == reach_cost(g, t, out@[i].0.x as int, out@[i].0.y as int)
                    &&& out@[i].0.y < y
                },
            forall|x2: int, y2: int|
                g.in_bounds(x2, y2) && y2 < y && #[trigger] reachable(g, t, x2, y2) ==> exists|
                    i: int,
                | 0 <= i < out@.len() && out@[i].0.x == x2 && out@[i].0.y == y2,
            forall|i: int, j: int|
                0 <= i < j < out@.len() ==> before(#[trigger] out@[i].0, #[trigger] out@[j].0),
        decreases h - y,
    {
        let mut x: i32 = 0;
        while x < w
            invariant
                g == *grid,
                t == *token,
                g.wf(),
                w == g.width,
                h == g.height,
                is_layer(g, t.id, t.grid_pos, t.movement as nat, last@),
                0 <= y < h,
                0 <= x <= w,
                forall|i: int|
                    0 <= i < out@.len() ==> {
                        &&& g.in_bounds((#[trigger] out@[i]).0.x as int, out@[i].0.y as int)
                        &&& reachable(g, t, out@[i].0.x as int, out@[i].0.y as int)
                        &&& out@[i].1 == reach_cost(g, t, out@[i].0.x as int, out@[i].0.y as int)
                        &&& before(out@[i].0, Cell { x, y })
                    },
                forall|x2: int, y2: int|
                    g.in_bounds(x2, y2) && (y2 < y || (y2 == y && x2 < x)) && #[trigger] reachable(
                        g,
                        t,
                        x2,
                        y2,
                    ) ==> exists|i: int| 0 <= i < out@.len() && out@[i].0.x == x2 && out@[i].0.y == y2,
                forall|i: int, j: int|
                    0 <= i < j < out@.len() ==> before(#[trigger] out@[i].0, #[trigger] out@[j].0),
            decreases w - x,
        {
            let v = value_at(grid, last, x, y);
            let ghost before_push = out@;
            if v <= token.movement as u64 {
                out.push((Cell { x, y }, v as u32));
                proof {
                    assert forall|i: int, j: int| 0 <= i < j < out@.len() implies before(
                        #[trigger] out@[i].0,
                        #[trigger] out@[j].0,
                    ) by {
                        assert(out@[i] == before_push[i]);
                        if j < before_push.len() {
                            assert(out@[j] == before_push[j]);
                        } else {
                            assert(before(before_push[i].0, Cell { x, y }));
                        }
                    }
                    assert forall|x2: int, y2: int|
                        g.in_bounds(x2, y2) && (y2 < y || (y2 == y && x2 < x + 1))
                            && #[trigger] reachable(g, t, x2, y2) implies exists|i: int|
                        0 <= i < out@.len() && out@[i].0.x == x2 && out@[i].0.y == y2 by {
                        if y2 < y || (y2 == y && x2 < x) {
                            let i = choose|i: int|
                                0 <= i < before_push.len() && before_push[i].0.x == x2
                                    && before_push[i].0.y == y2;
                            assert(out@[i] == before_push[i]);
                        } else {
                            assert(out@[before_push.len() as int].0.x == x2);
                        }
                    }
                }
            } else {
                proof {
                    assert forall|x2: int, y2: int|
                        g.in_bounds(x2, y2) && (y2 < y || (y2 == y && x2 < x + 1))
                            && #[trigger] reachable(g, t, x2, y2) implies exists|i: int|
                        0 <= i < out@.len() && out@[i].0.x == x2 && out@[i].0.y == y2 by {
                        if y2 == y && x2 == x {
                            assert(false);
                        }
                    }
                }
            }
            x = x + 1;
        }
        assert forall|i: int| 0 <= i < out@.len() implies #[trigger] out@[i].0.y < y + 1 by {
            assert(before(out@[i].0, Cell { x, y }));
        }
        y = y + 1;
    }
    out
}

/// Prepending a legal step into the start of a walk gives a walk from the
/// step's origin, costing the step's cost more.
proof fn lemma_walk_prepend(
    g: Grid,
    mover: TokenId,
    st: PathStep,
    s: Seq<PathStep>,
    dest: Cell,
)
    requires
        step_ok(g, mover, st),
        is_walk(g, mover, st.to, s, dest),
    ensures
        is_walk(g, mover, st.from, seq![st] + s, dest),
        total_cost(seq![st] + s) == st.cost + total_cost(s),
{
    let n = seq![st] + s;
    assert(n.subrange(1, n.len() as int) =~= s);
    assert forall|i: int| 0 < i < n.len() implies #[trigger] n[i].from == n[i - 1].to by {
        if i > 1 {
            assert(s[i - 1].from == s[i - 2].to);
        }
    }
    assert forall|i: int| 0 <= i < n.len() implies step_ok(g, mover, #[trigger] n[i]) by {
        if i > 0 {
            assert(step_ok(g, mover, s[i - 1]));
        }
    }
}

/// The cheapest path for `token` to `destination`, one step per cell
/// entered. It is empty when the destination is off the board, cannot be
/// reached within the token's remaining movement, or is the token's own cell.
/// Among several cheapest paths the one `trace` describes is taken, so the
/// result depends on the board and the token alone.
pub fn path(token: &Token, grid: &Grid, destination: Cell) -> (r: Vec<PathStep>)
    requires
        grid.wf(),
    ensures
        path_result(*grid, *token, destination, r@),
{
    let ghost g = *grid;
    let ghost t = *token;
    let dest_i = match grid.index(destination.x, destination.y) {
        Some(i) => i,
        None => {
            return Vec::new();
        },
    };
    if destination.x == token.grid_pos.x && destination.y == token.grid_pos.y {
        return Vec::new();
    }
    let layers = cost_layers(grid, token);
    let b = token.movement as usize;
    if layers[b][dest_i] > token.movement as u64 {
        return Vec::new();
    }
    proof {
        assert(is_layer(g, t.id, t.grid_pos, b as nat, layers@[b as int]@));
    }
    let mut steps: Vec<PathStep> = Vec::new();
    let mut k: usize = b;
    let mut c: Cell = destination;
    proof {
        let tr = trace(g, t.id, t.grid_pos, b as nat, destination.x as int, destination.y as int);
        assert(tr + steps@ =~= tr);
    }
    while !(c.x == token.grid_pos.x && c.y == token.grid_pos.y)
        invariant
            g == *grid,
            t == *token,
            g.wf(),
            b == t.movement,
            layers@.len() == b + 1,
            forall|j: int|
                0 <= j < layers@.len() ==> is_layer(g, t.id, t.grid_pos, j as nat, #[trigger] layers@[j]@),
            k <= b,
            g.in_bounds(c.x as int, c.y as int),
            best(g, t.id, t.grid_pos, k as nat, c.x as int, c.y as int) <= t.movement,
            is_walk(g, t.id, c, steps@, destination),
            trace(g, t.id, t.grid_pos, k as nat, c.x as int, c.y as int) + steps@ == trace(
                g,
                t.id,
                t.grid_pos,
                b as nat,
                destination.x as int,
                destination.y as int,
            ),
            best(g, t.id, t.grid_pos, k as nat, c.x as int, c.y as int) + total_cost(steps@)
                == reach_cost(g, t, destination.x as int, destination.y as int),
        decreases k,
    {
        let ghost (cx, cy) = (c.x as int, c.y as int);
        proof {
            if k == 0 {
                assert(best(g, t.id, t.grid_pos, 0, cx, cy) == UNREACHABLE);
            }
            assert(is_layer(g, t.id, t.grid_pos, k as nat, layers@[k as int]@));
            assert(is_layer(g, t.id, t.grid_pos, (k - 1) as nat, layers@[k - 1]@));
            lemma_best_range(g, t.id, t.grid_pos, (k - 1) as nat);
        }
        let here = value_at(grid, &layers[k], c.x, c.y);
        let below = value_at(grid, &layers[k - 1], c.x, c.y);
        if below == here {
            k = k - 1;
        } else {
            let i = grid.index(c.x, c.y).unwrap();
            let cost = grid.costs[i];
            let prev = &layers[k - 1];
            let a = value_at(grid, prev, c.x - 1, c.y);
            let e = value_at(grid, prev, c.x + 1, c.y);
            let s = value_at(grid, prev, c.x, c.y - 1);
            let nn = value_at(grid, prev, c.x, c.y + 1);
            proof {
                let km = (k - 1) as nat;
                assert(a == best(g, t.id, t.grid_pos, km, cx - 1, cy));
                assert(e == best(g, t.id, t.grid_pos, km, cx + 1, cy));
                assert(s == best(g, t.id, t.grid_pos, km, cx, cy - 1));
                assert(nn == best(g, t.id, t.grid_pos, km, cx, cy + 1));
                assert(below == best(g, t.id, t.grid_pos, km, cx, cy));
                assert(here == best(g, t.id, t.grid_pos, k as nat, cx, cy));
                assert(cost == g.cost_at(cx, cy));
            }
            let n = if a + cost as u64 == here {
                Cell { x: c.x - 1, y: c.y }
            } else if e + cost as u64 == here {
                Cell { x: c.x + 1, y: c.y }
            } else if s + cost as u64 == here {
                Cell { x: c.x, y: c.y - 1 }
            } else {
                Cell { x: c.x, y: c.y + 1 }
            };
            let st = PathStep { from: n, to: c, cost };
            proof {
                assert(g.enterable(t.id, cx, cy));
                assert(best(g, t.id, t.grid_pos, (k - 1) as nat, n.x as int, n.y as int) + cost
                    == here);
                assert(g.in_bounds(n.x as int, n.y as int));
                assert(step_ok(g, t.id, st));
                lemma_walk_prepend(g, t.id, st, steps@, destination);
            }
            let ghost prior = steps@;
            steps.insert(0, st);
            proof {
                assert(steps@ =~= seq![st] + prior);
                let tn = trace(g, t.id, t.grid_pos, (k - 1) as nat, n.x as int, n.y as int);
                assert(trace(g, t.id, t.grid_pos, k as nat, cx, cy) == tn.push(st));
                assert(tn + steps@ =~= tn.push(st) + prior);
            }
            c = n;
            k = k - 1;
        }
    }
    proof {
        lemma_best_origin(g, t.id, t.grid_pos, k as nat);
        let tr = trace(g, t.id, t.grid_pos, k as nat, c.x as int, c.y as int);
        assert(tr.len() == 0);
        assert(tr + steps@ =~= steps@);
    }
    steps
}

/// Whether `token` can walk to `dest` at all: the cell is on the board,
/// within its movement, and not where it already stands.
pub open spec fn can_move(g: Grid, t: Token, dest: Cell) -> bool {
    &&& g.in_bounds(dest.x as int, dest.y as int)
    &&& reachable(g, t, dest.x as int, dest.y as int)
    &&& dest != t.grid_pos
}

/// The cost for `token` to reach `destination`, or `None` when it cannot
/// within its remaining movement (or the cell is off the board).
pub fn movement_cost(token: &Token, grid: &Grid, destination: Cell) -> (r: Option<u32>)
    requires
        grid.wf(),
    ensures
        r is Some <==> grid.in_bounds(destination.x as int, destination.y as int) && reachable(
            *grid,
            *token,
            destination.x as int,
            destination.y as int,
        ),
        r is Some ==> r->0 == reach_cost(*grid, *token, destination.x as int, destination.y as int),
{
    let i = match grid.index(destination.x, destination.y) {
        Some(i) => i,
        None => {
            return None;
        },
    };
    let layers = cost_layers(grid, token);
    let b = token.movement as usize;
    proof {
        assert(is_layer(*grid, token.id, token.grid_pos, b as nat, layers@[b as int]@));
    }
    let v = layers[b][i];
    if v <= token.movement as u64 {
        Some(v as u32)
    } else {
        None
    }
}

proof fn lemma_suffix_cost_le(s: Seq<PathStep>, i: int)
    requires
        0 <= i <= s.len(),
    ensures
        0 <= total_cost(s.subrange(i, s.len() as int)) <= total_cost(s),
    decreases i,
{
    if i == 0 {
        assert(s.subrange(0, s.len() as int) =~= s);
        lemma_suffix_cost_le_zero(s);
    } else {
        lemma_suffix_cost_le(s, i - 1);
        let a = s.subrange(i - 1, s.len() as int);
        assert(a.subrange(1, a.len() as int) =~= s.subrange(i, s.len() as int));
        lemma_suffix_cost_le_zero(s.subrange(i, s.len() as int));
        assert(total_cost(a) == a[0].cost + total_cost(s.subrange(i, s.len() as int)));
    }
}

proof fn lemma_suffix_cost_le_zero(s: Seq<PathStep>)
    ensures
        total_cost(s) >= 0,
    decreases s.len(),
{
    if s.len() > 0 {
        lemma_suffix_cost_le_zero(s.subrange(1, s.len() as int));
    }
}

/// Total cost of a sequence of steps.
pub fn steps_cost(steps: &Vec<PathStep>) -> (r: u64)
    requires
        total_cost(steps@) <= u64::MAX,
    ensures
        r == total_cost(steps@),
{
    let n = steps.len();
    let mut i: usize = n;
    let mut acc: u64 = 0;
    proof {
        assert(steps@.subrange(n as int, n as int).len() == 0);
    }
    while i > 0
        invariant
            n == steps@.len(),
            i <= n,
            total_cost(steps@) <= u64::MAX,
            acc == total_cost(steps@.subrange(i as int, n as int)),
        decreases i,
    {
        let ghost a = steps@.subrange(i - 1, n as int);
        proof {
            assert(a.subrange(1, a.len() as int) =~= steps@.subrange(i as int, n as int));
            lemma_suffix_cost_le(steps@, i - 1);
        }
        acc = acc + steps[i - 1].cost as u64;
        i = i - 1;
    }
    proof {
        assert(steps@.subrange(0, n as int) =~= steps@);
    }
    acc
}

} // verus!
