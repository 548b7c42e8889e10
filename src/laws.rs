//! Facts that relate the movement rules and the round's queue operations,
//! stated over the same spec functions as their contracts.

use vstd::prelude::*;
use crate::grid::{Cell, Grid, Token, TokenId};
use crate::round::{Round, RoundCommand};
use crate::rules::{
    before, best, is_walk, lemma_best_blocked, lemma_best_origin, lemma_best_range, path_result,
    reach_cost, reachable, reachable_result, step_ok, total_cost, PathStep,
};

verus! {

/// A token with no movement left reaches its own cell, at cost 0, and no
/// other cell; its path to any cell is empty.
pub proof fn law_zero_budget(g: Grid, t: Token, s: Seq<(Cell, u32)>, dest: Cell, p: Seq<PathStep>)
    requires
        g.wf(),
        t.movement == 0,
        g.in_bounds(t.grid_pos.x as int, t.grid_pos.y as int),
        reachable_result(g, t, s),
        path_result(g, t, dest, p),
    ensures
        s == seq![(t.grid_pos, 0u32)],
        p.len() == 0,
{
    let o = t.grid_pos;
    assert forall|i: int| 0 <= i < s.len() implies #[trigger] s[i] == (o, 0u32) by {
        assert(g.in_bounds(s[i].0.x as int, s[i].0.y as int));
        assert(best(g, t.id, o, 0, s[i].0.x as int, s[i].0.y as int) == 0);
    }
    assert(reachable(g, t, o.x as int, o.y as int));
    let i0 = choose|i: int| 0 <= i < s.len() && s[i].0.x == o.x && s[i].0.y == o.y;
    if s.len() > 1 {
        assert(s[0] == (o, 0u32));
        assert(s[1] == (o, 0u32));
        assert(before(s[0].0, s[1].0));
    }
    assert(s =~= seq![(o, 0u32)]);
}

/// For every cell in the reachable set other than the token's own, the path
/// there is non-empty and costs exactly the cost the set reports.
pub proof fn law_path_cost_matches_reachable(
    g: Grid,
    t: Token,
    s: Seq<(Cell, u32)>,
    i: int,
    p: Seq<PathStep>,
)
    requires
        reachable_result(g, t, s),
        0 <= i < s.len(),
        s[i].0 != t.grid_pos,
        path_result(g, t, s[i].0, p),
    ensures
        p.len() > 0,
        total_cost(p) == s[i].1,
{
    assert(g.in_bounds(s[i].0.x as int, s[i].0.y as int));
}

/// A cell missing from the reachable set has an empty path.
pub proof fn law_path_empty_outside_reachable(
    g: Grid,
    t: Token,
    s: Seq<(Cell, u32)>,
    dest: Cell,
    p: Seq<PathStep>,
)
    requires
        reachable_result(g, t, s),
        forall|i: int| 0 <= i < s.len() ==> #[trigger] s[i].0 != dest,
        path_result(g, t, dest, p),
    ensures
        p.len() == 0,
{
    if g.in_bounds(dest.x as int, dest.y as int) && reachable(g, t, dest.x as int, dest.y as int) {
        let i = choose|i: int| 0 <= i < s.len() && s[i].0.x == dest.x && s[i].0.y == dest.y;
        assert(s[i].0 == dest);
    }
}

/// A cell where another token stands is never in the reachable set, whatever
/// the budget and terrain.
pub proof fn law_occupied_excluded(
    g: Grid,
    t: Token,
    s: Seq<(Cell, u32)>,
    c: Cell,
    other: TokenId,
)
    requires
        g.in_bounds(c.x as int, c.y as int),
        g.occupant_at(c.x as int, c.y as int) == Some(other),
        other != t.id,
        c != t.grid_pos,
        reachable_result(g, t, s),
    ensures
        forall|i: int| 0 <= i < s.len() ==> #[trigger] s[i].0 != c,
{
    lemma_best_blocked(g, t.id, t.grid_pos, t.movement as nat, c.x as int, c.y as int);
    assert forall|i: int| 0 <= i < s.len() implies #[trigger] s[i].0 != c by {
        if s[i].0 == c {
            assert(reachable(g, t, c.x as int, c.y as int));
        }
    }
}

proof fn lemma_same_prefix(g: Grid, t: Token, s1: Seq<(Cell, u32)>, s2: Seq<(Cell, u32)>, n: int)
    requires
        reachable_result(g, t, s1),
        reachable_result(g, t, s2),
        0 <= n <= s1.len(),
        n <= s2.len(),
    ensures
        forall|k: int| 0 <= k < n ==> #[trigger] s1[k] == s2[k],
    decreases n,
{
    if n > 0 {
        let i = n - 1;
        lemma_same_prefix(g, t, s1, s2, i);
        let c1 = s1[i].0;
        let c2 = s2[i].0;
        assert(g.in_bounds(c1.x as int, c1.y as int));
        assert(reachable(g, t, c1.x as int, c1.y as int));
        assert(g.in_bounds(c2.x as int, c2.y as int));
        assert(reachable(g, t, c2.x as int, c2.y as int));
        let j = choose|j: int| 0 <= j < s2.len() && s2[j].0.x == c1.x && s2[j].0.y == c1.y;
        let j2 = choose|j: int| 0 <= j < s1.len() && s1[j].0.x == c2.x && s1[j].0.y == c2.y;
        if j < i {
            assert(s1[j] == s2[j]);
            assert(before(s1[j].0, s1[i].0));
        }
        if j2 < i {
            assert(s1[j2] == s2[j2]);
            assert(before(s2[j2].0, s2[i].0));
        }
        if j > i {
            assert(before(s2[i].0, s2[j].0));
            if j2 > i {
                assert(before(s1[i].0, s1[j2].0));
            }
        }
        assert(c1 == c2);
    }
}

/// The reachable set is fully determined by the board and the token: two
/// calls on unchanged state give the same sequence.
pub proof fn law_reachable_cells_deterministic(
    g: Grid,
    t: Token,
    s1: Seq<(Cell, u32)>,
    s2: Seq<(Cell, u32)>,
)
    requires
        reachable_result(g, t, s1),
        reachable_result(g, t, s2),
    ensures
        s1 == s2,
{
    if s1.len() > s2.len() {
        lemma_same_prefix(g, t, s1, s2, s2.len() as int);
        let c = s1[s2.len() as int].0;
        assert(g.in_bounds(c.x as int, c.y as int));
        let j = choose|j: int| 0 <= j < s2.len() && s2[j].0.x == c.x && s2[j].0.y == c.y;
        assert(s1[j] == s2[j]);
        assert(before(s1[j].0, s1[s2.len() as int].0));
    } else if s2.len() > s1.len() {
        lemma_same_prefix(g, t, s2, s1, s1.len() as int);
        let c = s2[s1.len() as int].0;
        assert(g.in_bounds(c.x as int, c.y as int));
        let j = choose|j: int| 0 <= j < s1.len() && s1[j].0.x == c.x && s1[j].0.y == c.y;
        assert(s2[j] == s1[j]);
        assert(before(s2[j].0, s2[s1.len() as int].0));
    } else {
        lemma_same_prefix(g, t, s1, s2, s1.len() as int);
        assert(s1 =~= s2);
    }
}

/// The path is fully determined by the board, the token and the
/// destination: two calls on unchanged state give the same steps.
pub proof fn law_path_deterministic(
    g: Grid,
    t: Token,
    dest: Cell,
    first: Seq<PathStep>,
    second: Seq<PathStep>,
)
    requires
        path_result(g, t, dest, first),
        path_result(g, t, dest, second),
    ensures
        first == second,
{
    if !(g.in_bounds(dest.x as int, dest.y as int) && reachable(g, t, dest.x as int, dest.y as int)
        && dest != t.grid_pos) {
        assert(first =~= second);
    }
}

/// Two pushes at the front drain newest first; two pushes at the back drain
/// oldest first, after everything that was already pending.
pub proof fn law_queue_order(q: Seq<RoundCommand>, a: RoundCommand, b: RoundCommand)
    ensures
        seq![b] + (seq![a] + q) == seq![b, a] + q,
        q.push(a).push(b) == q + seq![a, b],
{
    assert(seq![b] + (seq![a] + q) =~= seq![b, a] + q);
    assert(q.push(a).push(b) =~= q + seq![a, b]);
}

/// A push always leaves the round executing, and taking the head off the
/// queue leaves it idle exactly when that head was the last command pending.
pub proof fn law_executing_until_drained(before: Round, after: Round, cmd: RoundCommand)
    ensures
        (seq![cmd] + before.commands@).len() > 0,
        before.commands@.push(cmd).len() > 0,
        before.executing() && after.commands@ == before.commands@.drop_first() ==> (
        after.executing() <==> before.commands@.len() > 1),
{
}

proof fn lemma_best_monotone(g: Grid, mover: TokenId, origin: Cell, j: nat, k: nat, x: int, y: int)
    requires
        j <= k,
    ensures
        best(g, mover, origin, k, x, y) <= best(g, mover, origin, j, x, y),
    decreases k - j,
{
    if j < k {
        lemma_best_monotone(g, mover, origin, j, (k - 1) as nat, x, y);
    }
}

proof fn lemma_total_cost_push(s: Seq<PathStep>, st: PathStep)
    ensures
        total_cost(s.push(st)) == total_cost(s) + st.cost,
    decreases s.len(),
{
    let t = s.push(st);
    if s.len() > 0 {
        let rest = s.subrange(1, s.len() as int);
        assert(t.subrange(1, t.len() as int) =~= rest.push(st));
        lemma_total_cost_push(rest, st);
        assert(t[0] == s[0]);
    } else {
        let e = t.subrange(1, t.len() as int);
        assert(e =~= Seq::<PathStep>::empty());
        assert(total_cost(e) == 0);
        assert(t[0] == st);
    }
}

proof fn lemma_steps_len_le_cost(g: Grid, mover: TokenId, s: Seq<PathStep>)
    requires
        forall|i: int| 0 <= i < s.len() ==> step_ok(g, mover, #[trigger] s[i]),
    ensures
        s.len() <= total_cost(s),
    decreases s.len(),
{
    if s.len() > 0 {
        let rest = s.subrange(1, s.len() as int);
        assert forall|i: int| 0 <= i < rest.len() implies step_ok(g, mover, #[trigger] rest[i]) by {
            assert(rest[i] == s[i + 1]);
        }
        lemma_steps_len_le_cost(g, mover, rest);
        assert(step_ok(g, mover, s[0]));
    }
}

/// A legal walk of `n` steps bounds the `n`-step least cost from above.
proof fn lemma_walk_bounds_best(g: Grid, mover: TokenId, origin: Cell, w: Seq<PathStep>, c: Cell)
    requires
        g.in_bounds(origin.x as int, origin.y as int),
        is_walk(g, mover, origin, w, c),
    ensures
        best(g, mover, origin, w.len() as nat, c.x as int, c.y as int) <= total_cost(w),
    decreases w.len(),
{
    if w.len() == 0 {
        lemma_best_origin(g, mover, origin, 0);
    } else {
        let n = w.len() as int;
        let st = w[n - 1];
        let w2 = w.drop_last();
        let c2 = st.from;
        assert(step_ok(g, mover, w[n - 1]));
        assert forall|i: int| 0 < i < w2.len() implies #[trigger] w2[i].from == w2[i - 1].to by {
            assert(w[i].from == w[i - 1].to);
        }
        assert forall|i: int| 0 <= i < w2.len() implies step_ok(g, mover, #[trigger] w2[i]) by {
            assert(step_ok(g, mover, w[i]));
        }
        if w2.len() > 0 {
            assert(w[n - 1].from == w[n - 2].to);
        }
        assert(is_walk(g, mover, origin, w2, c2));
        lemma_walk_bounds_best(g, mover, origin, w2, c2);
        assert(w =~= w2.push(st));
        lemma_total_cost_push(w2, st);
        lemma_best_range(g, mover, origin, (n - 1) as nat);
    }
}

/// The path is a cheapest one: every legal walk from the token's cell to the
/// destination that fits in the token's movement costs at least as much.
pub proof fn law_path_is_cheapest(g: Grid, t: Token, dest: Cell, w: Seq<PathStep>, p: Seq<PathStep>)
    requires
        g.in_bounds(t.grid_pos.x as int, t.grid_pos.y as int),
        is_walk(g, t.id, t.grid_pos, w, dest),
        total_cost(w) <= t.movement,
        dest != t.grid_pos,
        path_result(g, t, dest, p),
    ensures
        p.len() > 0,
        total_cost(p) <= total_cost(w),
{
    lemma_steps_len_le_cost(g, t.id, w);
    lemma_walk_bounds_best(g, t.id, t.grid_pos, w, dest);
    lemma_best_monotone(
        g,
        t.id,
        t.grid_pos,
        w.len() as nat,
        t.movement as nat,
        dest.x as int,
        dest.y as int,
    );
    assert(step_ok(g, t.id, w[w.len() - 1]));
}

} // verus!
