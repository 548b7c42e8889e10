//! The game state and the command executor: each step takes one command from
//! the round's queue and applies it to the board, the tokens and the turn.

use vstd::prelude::*;
use crate::grid::{lemma_index_in_range, Cell, Grid, Token, TokenId};
use crate::round::{GameEvent, Round, RoundCommand};
use crate::rules::{can_move, lemma_best_blocked, path, reach_cost, steps_cost};
use vstd::arithmetic::div_mod::{lemma_mod_self_0, lemma_small_mod};

verus! {

/// Everything the executor reads and writes. `turn_order` lists the tokens in
/// the order the turn passes among them; `events` collects announcements for
/// the game loop.
pub struct Game {
    pub grid: Grid,
    pub tokens: Vec<Token>,
    pub round: Round,
    pub turn_order: Vec<TokenId>,
    pub events: Vec<GameEvent>,
}

pub open spec fn has_token(tokens: Seq<Token>, id: TokenId) -> bool {
    exists|i: int| 0 <= i < tokens.len() && tokens[i].id == id
}

/// Token ids are distinct, each token stands on the board, and the board
/// records it on its cell (so no two tokens share a cell).
pub open spec fn tokens_placed(g: Grid, tokens: Seq<Token>) -> bool {
    &&& forall|i: int, j: int|
        0 <= i < j < tokens.len() ==> #[trigger] tokens[i].id != #[trigger] tokens[j].id
    &&& forall|i: int|
        0 <= i < tokens.len() ==> {
            &&& g.in_bounds((#[trigger] tokens[i]).grid_pos.x as int, tokens[i].grid_pos.y as int)
            &&& g.occupant_at(tokens[i].grid_pos.x as int, tokens[i].grid_pos.y as int) == Some(
                tokens[i].id,
            )
        }
}

/// The token after `cur` in turn order, wrapping round at the end; `None`
/// when `cur` is not in the order.
pub open spec fn next_in_order(order: Seq<TokenId>, cur: TokenId) -> Option<TokenId> {
    if exists|p: int| 0 <= p < order.len() && order[p] == cur {
        let p = choose|p: int| 0 <= p < order.len() && order[p] == cur;
        Some(order[(p + 1) % (order.len() as int)])
    } else {
        None
    }
}

/// `t` after walking to `dest` for `cost` movement.
pub open spec fn moved(t: Token, dest: Cell, cost: int) -> Token {
    Token {
        id: t.id,
        name: t.name,
        grid_pos: dest,
        movement: (t.movement - cost) as u32,
        movement_max: t.movement_max,
    }
}

/// `t` with its full movement budget back.
pub open spec fn refreshed(t: Token) -> Token {
    Token {
        id: t.id,
        name: t.name,
        grid_pos: t.grid_pos,
        movement: t.movement_max,
        movement_max: t.movement_max,
    }
}

/// Board dimensions and terrain unchanged.
pub open spec fn same_terrain(o: Grid, n: Grid) -> bool {
    &&& n.width == o.width
    &&& n.height == o.height
    &&& n.costs@ == o.costs@
}

/// What applying `MoveFar { token, destination }` does: if the token exists
/// and can walk there, it stands on `destination` with the path's cost taken
/// from its movement, and the board records the move; otherwise nothing
/// changes. The turn, turn order and events are never touched.
pub open spec fn move_effect(o: Game, n: Game, token: TokenId, dest: Cell) -> bool {
    &&& same_terrain(o.grid, n.grid)
    &&& n.round.turn_owner == o.round.turn_owner
    &&& n.turn_order@ == o.turn_order@
    &&& n.events@ == o.events@
    &&& forall|i: int|
        0 <= i < o.tokens@.len() && (#[trigger] o.tokens@[i]).id == token ==> if can_move(
            o.grid,
            o.tokens@[i],
            dest,
        ) {
            let t = o.tokens@[i];
            &&& n.tokens@ == o.tokens@.update(
                i,
                moved(t, dest, reach_cost(o.grid, t, dest.x as int, dest.y as int)),
            )
            &&& n.grid.occupants@ == o.grid.occupants@.update(
                o.grid.idx(t.grid_pos.x as int, t.grid_pos.y as int),
                None,
            ).update(o.grid.idx(dest.x as int, dest.y as int), Some(token))
        } else {
            n.tokens@ == o.tokens@ && n.grid.occupants@ == o.grid.occupants@
        }
    &&& !has_token(o.tokens@, token) ==> n.tokens@ == o.tokens@ && n.grid.occupants@
        == o.grid.occupants@
}

/// What applying `GiveTurn { token }` does: if `token` exists and holds the
/// turn, the turn passes to the next token in turn order (or to nobody when
/// `token` is not in it), that token gets its full movement back, and an
/// `IsNowActive` event announces it; otherwise nothing changes. The board is
/// never touched.
pub open spec fn give_turn_effect(o: Game, n: Game, token: TokenId) -> bool {
    &&& same_terrain(o.grid, n.grid)
    &&& n.grid.occupants@ == o.grid.occupants@
    &&& n.turn_order@ == o.turn_order@
    &&& if o.round.turn_owner == Some(token) && has_token(o.tokens@, token) {
        &&& n.round.turn_owner == next_in_order(o.turn_order@, token)
        &&& match next_in_order(o.turn_order@, token) {
            Some(m) => {
                &&& n.events@ == o.events@.push(GameEvent::IsNowActive { entity: m })
                &&& n.tokens@ == o.tokens@.map_values(
                    |t: Token|
                        if t.id == m {
                            refreshed(t)
                        } else {
                            t
                        },
                )
            },
            None => n.events@ == o.events@ && n.tokens@ == o.tokens@,
        }
    } else {
        &&& n.round.turn_owner == o.round.turn_owner
        &&& n.events@ == o.events@
        &&& n.tokens@ == o.tokens@
    }
}

impl Game {
    pub open spec fn wf(&self) -> bool {
        &&& self.grid.wf()
        &&& tokens_placed(self.grid, self.tokens@)
        &&& forall|i: int, j: int|
            0 <= i < j < self.turn_order@.len() ==> #[trigger] self.turn_order@[i]
                != #[trigger] self.turn_order@[j]
    }

    /// A game on `grid` with no token yet, turn order empty, and `round` as
    /// given.
    pub fn new(grid: Grid, round: Round) -> (r: Game)
        requires
            grid.wf(),
        ensures
            r.wf(),
            r.grid == grid,
            r.round == round,
            r.tokens@.len() == 0,
            r.turn_order@.len() == 0,
            r.events@.len() == 0,
    {
        Game { grid, tokens: Vec::new(), round, turn_order: Vec::new(), events: Vec::new() }
    }

    /// Whether `id` is already in the turn order.
    pub fn in_turn_order(&self, id: TokenId) -> (r: bool)
        ensures
            r == self.turn_order@.contains(id),
    {
        let mut i: usize = 0;
        while i < self.turn_order.len()
            invariant
                i <= self.turn_order@.len(),
                forall|j: int| 0 <= j < i ==> self.turn_order@[j] != id,
            decreases self.turn_order@.len() - i,
        {
            if self.turn_order[i] == id {
                return true;
            }
            i = i + 1;
        }
        false
    }

    /// Places `token` on the board and appends it to the turn order. Refused,
    /// changing nothing, when its cell is off the board or taken, or its id
    /// is already in use.
    pub fn spawn_token(&mut self, token: Token) -> (r: bool)
        requires
            old(self).wf(),
        ensures
            final(self).wf(),
            r == (old(self).grid.in_bounds(token.grid_pos.x as int, token.grid_pos.y as int)
                && old(self).grid.occupant_at(token.grid_pos.x as int, token.grid_pos.y as int) is None
                && !has_token(old(self).tokens@, token.id) && !old(self).turn_order@.contains(
                token.id,
            )),
            same_terrain(old(self).grid, final(self).grid),
            final(self).round == old(self).round,
            final(self).events@ == old(self).events@,
            r ==> final(self).tokens@ == old(self).tokens@.push(token) && final(self).turn_order@
                == old(self).turn_order@.push(token.id) && final(self).grid.occupants@ == old(
                self,
            ).grid.occupants@.update(
                old(self).grid.idx(token.grid_pos.x as int, token.grid_pos.y as int),
                Some(token.id),
            ),
            !r ==> final(self).tokens@ == old(self).tokens@ && final(self).turn_order@ == old(
                self,
            ).turn_order@ && final(self).grid.occupants@ == old(self).grid.occupants@,
    {
        let pos = token.grid_pos;
        if self.grid.index(pos.x, pos.y).is_none() {
            return false;
        }
        if self.grid.occupant(pos).is_some() {
            return false;
        }
        if self.find_token(token.id).is_some() {
            return false;
        }
        if self.in_turn_order(token.id) {
            return false;
        }
        let ghost o = *self;
        let id = token.id;
        self.grid.set_occupant(pos, Some(id));
        self.tokens.push(token);
        self.turn_order.push(id);
        proof {
            let (w, h) = (o.grid.width as int, o.grid.height as int);
            lemma_index_in_range(w, h, pos.x as int, pos.y as int);
            assert forall|j: int| 0 <= j < self.tokens@.len() implies {
                &&& self.grid.in_bounds(
                    (#[trigger] self.tokens@[j]).grid_pos.x as int,
                    self.tokens@[j].grid_pos.y as int,
                )
                &&& self.grid.occupant_at(
                    self.tokens@[j].grid_pos.x as int,
                    self.tokens@[j].grid_pos.y as int,
                ) == Some(self.tokens@[j].id)
            } by {
                if j < o.tokens@.len() {
                    let tj = o.tokens@[j];
                    assert(self.tokens@[j] == tj);
                    lemma_index_in_range(w, h, tj.grid_pos.x as int, tj.grid_pos.y as int);
                    assert(o.grid.occupant_at(tj.grid_pos.x as int, tj.grid_pos.y as int) == Some(
                        tj.id,
                    ));
                }
            }
            assert forall|a: int, b: int| 0 <= a < b < self.tokens@.len() implies #[trigger] self.tokens@[a].id
                != #[trigger] self.tokens@[b].id by {
                if b < o.tokens@.len() {
                    assert(o.tokens@[a].id != o.tokens@[b].id);
                } else {
                    assert(o.tokens@[a].id != id);
                }
            }
            assert forall|a: int, b: int| 0 <= a < b < self.turn_order@.len() implies #[trigger] self.turn_order@[a]
                != #[trigger] self.turn_order@[b] by {
                if b < o.turn_order@.len() {
                    assert(o.turn_order@[a] != o.turn_order@[b]);
                } else {
                    assert(o.turn_order@[a] != id);
                }
            }
        }
        true
    }

    /// Removes the token `id` from the game: its cell is freed, it leaves the
    /// turn order, every pending command that names it is dropped, and if it
    /// held the turn nobody holds it now. Returns false, changing nothing,
    /// when there is no such token.
    pub fn despawn_token(&mut self, id: TokenId) -> (r: bool)
        requires
            old(self).wf(),
        ensures
            final(self).wf(),
            r == has_token(old(self).tokens@, id),
            same_terrain(old(self).grid, final(self).grid),
            final(self).events@ == old(self).events@,
            !r ==> {
                &&& final(self).tokens@ == old(self).tokens@
                &&& final(self).grid.occupants@ == old(self).grid.occupants@
                &&& final(self).turn_order@ == old(self).turn_order@
                &&& final(self).round.commands@ == old(self).round.commands@
                &&& final(self).round.turn_owner == old(self).round.turn_owner
            },
            r ==> {
                &&& forall|i: int|
                    0 <= i < old(self).tokens@.len() && (#[trigger] old(self).tokens@[i]).id == id
                        ==> {
                        let t = old(self).tokens@[i];
                        &&& final(self).tokens@ == old(self).tokens@.remove(i)
                        &&& final(self).grid.occupants@ == old(self).grid.occupants@.update(
                            old(self).grid.idx(t.grid_pos.x as int, t.grid_pos.y as int),
                            None,
                        )
                    }
                &&& (old(self).turn_order@.contains(id) ==> exists|p: int|
                    0 <= p < old(self).turn_order@.len() && old(self).turn_order@[p] == id
                        && final(self).turn_order@ == old(self).turn_order@.remove(p))
                &&& (!old(self).turn_order@.contains(id) ==> final(self).turn_order@ == old(
                    self,
                ).turn_order@)
                &&& final(self).round.commands@ == old(self).round.commands@.filter(
                    |c: RoundCommand| c.token_spec() != id,
                )
                &&& final(self).round.turn_owner == (if old(self).round.turn_owner == Some(id) {
                    None
                } else {
                    old(self).round.turn_owner
                })
            },
    {
        let i = match self.find_token(id) {
            Some(i) => i,
            None => {
                return false;
            },
        };
        let ghost o = *self;
        let tk = self.tokens.remove(i);
        self.grid.set_occupant(tk.grid_pos, None);
        proof {
            let t = o.tokens@[i as int];
            let (w, h) = (o.grid.width as int, o.grid.height as int);
            lemma_index_in_range(w, h, t.grid_pos.x as int, t.grid_pos.y as int);
            assert forall|j: int| 0 <= j < o.tokens@.len() && (#[trigger] o.tokens@[j]).id == id implies j == i by {
                if j < i {
                    assert(o.tokens@[j].id != o.tokens@[i as int].id);
                } else if i < j {
                    assert(o.tokens@[i as int].id != o.tokens@[j].id);
                }
            }
            assert forall|j: int| 0 <= j < self.tokens@.len() implies {
                &&& self.grid.in_bounds(
                    (#[trigger] self.tokens@[j]).grid_pos.x as int,
                    self.tokens@[j].grid_pos.y as int,
                )
                &&& self.grid.occupant_at(
                    self.tokens@[j].grid_pos.x as int,
                    self.tokens@[j].grid_pos.y as int,
                ) == Some(self.tokens@[j].id)
            } by {
                let k = if j < i { j } else { j + 1 };
                let tj = o.tokens@[k];
                assert(self.tokens@[j] == tj);
                lemma_index_in_range(w, h, tj.grid_pos.x as int, tj.grid_pos.y as int);
                assert(o.grid.occupant_at(tj.grid_pos.x as int, tj.grid_pos.y as int) == Some(
                    tj.id,
                ));
                if k < i {
                    assert(tj.id != t.id);
                } else {
                    assert(t.id != tj.id);
                }
            }
            assert forall|a: int, b: int| 0 <= a < b < self.tokens@.len() implies #[trigger] self.tokens@[a].id
                != #[trigger] self.tokens@[b].id by {
                let ka = if a < i { a } else { a + 1 };
                let kb = if b < i { b } else { b + 1 };
                assert(self.tokens@[a] == o.tokens@[ka]);
                assert(self.tokens@[b] == o.tokens@[kb]);
                assert(o.tokens@[ka].id != o.tokens@[kb].id);
            }
        }
        let n = self.turn_order.len();
        let mut p: usize = 0;
        while p < n && self.turn_order[p] != id
            invariant
                n == self.turn_order@.len(),
                p <= n,
                forall|q: int| 0 <= q < p ==> self.turn_order@[q] != id,
            decreases n - p,
        {
            p = p + 1;
        }
        if p < n {
            let ghost before_order = self.turn_order@;
            self.turn_order.remove(p);
            proof {
                assert forall|a: int, b: int| 0 <= a < b < self.turn_order@.len() implies #[trigger] self.turn_order@[a]
                    != #[trigger] self.turn_order@[b] by {
                    let ka = if a < p { a } else { a + 1 };
                    let kb = if b < p { b } else { b + 1 };
                    assert(self.turn_order@[a] == before_order[ka]);
                    assert(self.turn_order@[b] == before_order[kb]);
                    assert(before_order[ka] != before_order[kb]);
                }
            }
        }
        let ghost pending = self.round.commands@;
        let mut kept: std::collections::VecDeque<RoundCommand> = std::collections::VecDeque::new();
        let mut k: usize = 0;
        let m = self.round.commands.len();
        while k < m
            invariant
                pending == self.round.commands@,
                m == pending.len(),
                k <= m,
                kept@ == pending.subrange(0, k as int).filter(|c: RoundCommand| c.token_spec() != id),
            decreases m - k,
        {
            let cmd = self.round.commands[k];
            proof {
                assert(pending.subrange(0, k + 1) =~= pending.subrange(0, k as int).push(cmd));
                pending.subrange(0, k as int).lemma_filter_push(
                    cmd,
                    |c: RoundCommand| c.token_spec() != id,
                );
                assert(cmd == pending[k as int]);
            }
            if cmd.token() != id {
                kept.push_back(cmd);
            }
            k = k + 1;
        }
        proof {
            assert(pending.subrange(0, m as int) =~= pending);
        }
        self.round.commands = kept;
        if self.round.turn_owner == Some(id) {
            self.round.turn_owner = None;
        }
        true
    }

    /// Position of the token with id `id` in `tokens`.
    pub fn find_token(&self, id: TokenId) -> (r: Option<usize>)
        ensures
            r is Some ==> r->0 < self.tokens@.len() && self.tokens@[r->0 as int].id == id,
            r is None ==> !has_token(self.tokens@, id),
    {
        let mut i: usize = 0;
        while i < self.tokens.len()
            invariant
                i <= self.tokens@.len(),
                forall|j: int| 0 <= j < i ==> self.tokens@[j].id != id,
            decreases self.tokens@.len() - i,
        {
            if self.tokens[i].id == id {
                return Some(i);
            }
            i = i + 1;
        }
        None
    }

    /// Applies a move order: see `move_effect`.
    pub fn apply_move_far(&mut self, token: TokenId, destination: Cell)
        requires
            old(self).wf(),
        ensures
            final(self).wf(),
            final(self).round.commands@ == old(self).round.commands@,
            move_effect(*old(self), *final(self), token, destination),
    {
        let i = match self.find_token(token) {
            Some(i) => i,
            None => {
                return;
            },
        };
        let steps = path(&self.tokens[i], &self.grid, destination);
        if steps.len() == 0 {
            return;
        }
        let spent = steps_cost(&steps) as u32;
        let ghost o = *self;
        let mut tk = self.tokens.remove(i);
        let from = tk.grid_pos;
        self.grid.set_occupant(from, None);
        self.grid.set_occupant(destination, Some(token));
        tk.grid_pos = destination;
        tk.movement = tk.movement - spent;
        self.tokens.insert(i, tk);
        proof {
            let t = o.tokens@[i as int];
            let (dx, dy) = (destination.x as int, destination.y as int);
            assert(can_move(o.grid, t, destination));
            if !o.grid.enterable(token, dx, dy) {
                lemma_best_blocked(o.grid, token, t.grid_pos, t.movement as nat, dx, dy);
            }
            assert(o.grid.occupant_at(t.grid_pos.x as int, t.grid_pos.y as int) == Some(token));
            let (w, h) = (o.grid.width as int, o.grid.height as int);
            lemma_index_in_range(w, h, dx, dy);
            lemma_index_in_range(w, h, t.grid_pos.x as int, t.grid_pos.y as int);
            assert(self.tokens@ =~= o.tokens@.update(
                i as int,
                moved(t, destination, reach_cost(o.grid, t, destination.x as int, destination.y as int)),
            ));
            assert forall|j: int| 0 <= j < self.tokens@.len() implies {
                &&& self.grid.in_bounds(
                    (#[trigger] self.tokens@[j]).grid_pos.x as int,
                    self.tokens@[j].grid_pos.y as int,
                )
                &&& self.grid.occupant_at(
                    self.tokens@[j].grid_pos.x as int,
                    self.tokens@[j].grid_pos.y as int,
                ) == Some(self.tokens@[j].id)
            } by {
                if j == i {
                    assert(self.tokens@[j].grid_pos == destination);
                    assert(self.tokens@[j].id == token);
                    assert(self.grid.in_bounds(dx, dy));
                    assert(self.grid.idx(dx, dy) == o.grid.idx(dx, dy));
                    assert(self.grid.occupants@[o.grid.idx(dx, dy)] == Some(token));
                    assert(self.grid.occupant_at(dx, dy) == Some(token));
                }
                if j != i {
                    let tj = o.tokens@[j];
                    assert(o.tokens@[j] == self.tokens@[j]);
                    lemma_index_in_range(w, h, tj.grid_pos.x as int, tj.grid_pos.y as int);
                    if i < j {
                        assert(o.tokens@[i as int].id != o.tokens@[j].id);
                    } else {
                        assert(o.tokens@[j].id != o.tokens@[i as int].id);
                    }
                    assert(o.grid.occupant_at(tj.grid_pos.x as int, tj.grid_pos.y as int) == Some(
                        tj.id,
                    ));
                    assert(o.grid.idx(tj.grid_pos.x as int, tj.grid_pos.y as int) != o.grid.idx(
                        t.grid_pos.x as int,
                        t.grid_pos.y as int,
                    ));
                    assert(o.grid.idx(tj.grid_pos.x as int, tj.grid_pos.y as int) != o.grid.idx(
                        dx,
                        dy,
                    ));
                }
            }
            assert forall|a: int, b: int| 0 <= a < b < self.tokens@.len() implies #[trigger] self.tokens@[a].id
                != #[trigger] self.tokens@[b].id by {
                assert(o.tokens@[a].id != o.tokens@[b].id);
            }
        }
    }

    /// Applies an end-of-turn order: see `give_turn_effect`.
    pub fn apply_give_turn(&mut self, token: TokenId)
        requires
            old(self).wf(),
        ensures
            final(self).wf(),
            final(self).round.commands@ == old(self).round.commands@,
            give_turn_effect(*old(self), *final(self), token),
    {
        if self.round.turn_owner != Some(token) {
            return;
        }
        if self.find_token(token).is_none() {
            return;
        }
        let ghost o = *self;
        let n = self.turn_order.len();
        let mut p: usize = 0;
        while p < n && self.turn_order[p] != token
            invariant
                n == self.turn_order@.len(),
                p <= n,
                forall|q: int| 0 <= q < p ==> self.turn_order@[q] != token,
            decreases n - p,
        {
            p = p + 1;
        }
        if p == n {
            self.round.turn_owner = None;
            return;
        }
        let next = if p + 1 < n {
            self.turn_order[p + 1]
        } else {
            self.turn_order[0]
        };
        proof {
            let c = choose|q: int| 0 <= q < o.turn_order@.len() && o.turn_order@[q] == token;
            if c < p {
            } else if p < c {
                assert(o.turn_order@[p as int] != o.turn_order@[c]);
            }
            assert(c == p);
            if p + 1 < n {
                lemma_small_mod((p + 1) as nat, n as nat);
            } else {
                lemma_mod_self_0(n as int);
            }
        }
        self.round.turn_owner = Some(next);
        self.events.push(GameEvent::IsNowActive { entity: next });
        match self.find_token(next) {
            Some(j) => {
                let mut tk = self.tokens.remove(j);
                tk.movement = tk.movement_max;
                self.tokens.insert(j, tk);
                proof {
                    assert forall|q: int| 0 <= q < o.tokens@.len() && q != j implies o.tokens@[q].id
                        != next by {
                        if q < j {
                            assert(o.tokens@[q].id != o.tokens@[j as int].id);
                        } else {
                            assert(o.tokens@[j as int].id != o.tokens@[q].id);
                        }
                    }
                    assert(self.tokens@ =~= o.tokens@.map_values(
                        |t: Token|
                            if t.id == next {
                                refreshed(t)
                            } else {
                                t
                            },
                    ));
                    assert forall|a: int, b: int| 0 <= a < b < self.tokens@.len() implies #[trigger] self.tokens@[a].id
                        != #[trigger] self.tokens@[b].id by {
                        assert(o.tokens@[a].id != o.tokens@[b].id);
                    }
                    assert forall|q: int| 0 <= q < self.tokens@.len() implies {
                        &&& self.grid.in_bounds(
                            (#[trigger] self.tokens@[q]).grid_pos.x as int,
                            self.tokens@[q].grid_pos.y as int,
                        )
                        &&& self.grid.occupant_at(
                            self.tokens@[q].grid_pos.x as int,
                            self.tokens@[q].grid_pos.y as int,
                        ) == Some(self.tokens@[q].id)
                    } by {
                        assert(o.tokens@[q].grid_pos == self.tokens@[q].grid_pos);
                        assert(o.tokens@[q].id == self.tokens@[q].id);
                    }
                }
            },
            None => {
                proof {
                    assert(self.tokens@ =~= o.tokens@.map_values(
                        |t: Token|
                            if t.id == next {
                                refreshed(t)
                            } else {
                                t
                            },
                    ));
                }
            },
        }
    }

    /// Takes the command at the head of the queue, applies it, and returns
    /// it; does nothing and returns `None` when the queue is empty. A command
    /// whose token is gone, or that can no longer be carried out, is dropped
    /// without effect, so the rest of the queue still drains.
    pub fn step(&mut self) -> (r: Option<RoundCommand>)
        requires
            old(self).wf(),
        ensures
            final(self).wf(),
            old(self).round.commands@.len() == 0 ==> {
                &&& r is None
                &&& final(self).round.commands@ == old(self).round.commands@
                &&& final(self).round.turn_owner == old(self).round.turn_owner
                &&& final(self).tokens@ == old(self).tokens@
                &&& final(self).grid.occupants@ == old(self).grid.occupants@
                &&& final(self).events@ == old(self).events@
                &&& final(self).turn_order@ == old(self).turn_order@
                &&& same_terrain(old(self).grid, final(self).grid)
            },
            old(self).round.commands@.len() > 0 ==> {
                &&& r == Some(old(self).round.commands@[0])
                &&& final(self).round.commands@ == old(self).round.commands@.drop_first()
                &&& match old(self).round.commands@[0] {
                    RoundCommand::MoveFar { token, destination } => move_effect(
                        *old(self),
                        *final(self),
                        token,
                        destination,
                    ),
                    RoundCommand::GiveTurn { token } => give_turn_effect(
                        *old(self),
                        *final(self),
                        token,
                    ),
                }
            },
    {
        let cmd = self.round.pop_command();
        match cmd {
            None => None,
            Some(c) => {
                match c {
                    RoundCommand::MoveFar { token, destination } => {
                        self.apply_move_far(token, destination);
                    },
                    RoundCommand::GiveTurn { token } => {
                        self.apply_give_turn(token);
                    },
                }
                Some(c)
            },
        }
    }
}

} // verus!
