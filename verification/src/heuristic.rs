//! The territory heuristic: which snake gets to each cell first when all
//! living snakes spread over the board at one cell per tick, a cell being
//! closed while a body still lies on it.

use crate::game_state::{lemma_step_back, step_cell, Direction, GameState, GameStateView, OFF_BOARD};
use vstd::prelude::*;

verus! {

/// The entry of a cell that no snake reaches.
pub const UNCLAIMED: i8 = -1;

/// How far the snakes have spread: for each cell the tick at which it was
/// reached and the snake that goes on from it, both -1 for a cell not reached
/// yet.
pub ghost struct Spread {
    pub tick: Seq<int>,
    pub lead: Seq<int>,
}

/// The smaller of two snake indices, where -1 stands for none.
pub open spec fn better(a: int, b: int) -> int {
    if a < 0 {
        b
    } else if b < 0 {
        a
    } else if a <= b {
        a
    } else {
        b
    }
}

impl GameStateView {
    /// Whether snake `j` takes part: it lives and its head is on the board.
    pub open spec fn playing(self, j: int) -> bool {
        &&& 0 <= j < self.snakes.len()
        &&& self.snakes[j].alive()
        &&& self.snakes[j].head().index < self.cells()
    }

    /// Whether segment `k` of the playing snake `j` lies on `cell`.
    pub open spec fn segment_at(self, j: int, k: int, cell: int) -> bool {
        &&& self.playing(j)
        &&& 0 <= k < self.snakes[j].body.len()
        &&& self.snakes[j].body[k].index == cell
    }

    /// Whether a body still lies on `cell` at tick `t`: segment `k` of a
    /// snake, counted from the head at 0, lies where it is through tick
    /// `k + 1`.
    pub open spec fn occupied_at(self, cell: int, t: int) -> bool {
        exists|j: int, k: int| self.segment_at(j, k, cell) && k + 1 > t
    }

    /// The first of the snakes below `n` that takes part and has its head on
    /// `cell`, or -1.
    pub open spec fn first_head_at(self, cell: int, n: int) -> int
        decreases n,
    {
        if n <= 0 {
            -1
        } else if self.first_head_at(cell, n - 1) >= 0 {
            self.first_head_at(cell, n - 1)
        } else if self.playing(n - 1) && self.snakes[n - 1].head().index == cell {
            n - 1
        } else {
            -1
        }
    }

    /// The last of the snakes below `n` that takes part and has its head on
    /// `cell`, or -1.
    pub open spec fn last_head_at(self, cell: int, n: int) -> int
        decreases n,
    {
        if n <= 0 {
            -1
        } else if self.playing(n - 1) && self.snakes[n - 1].head().index == cell {
            n - 1
        } else {
            self.last_head_at(cell, n - 1)
        }
    }

    /// The snake that may enter `cell` at tick `t` from its neighbour in
    /// `direction`: the one that goes on from that neighbour, if the
    /// neighbour was reached at tick `t - 1`; else -1.
    pub open spec fn source(self, prev: Spread, t: int, cell: int, direction: Direction) -> int {
        let from = step_cell(self.width, self.height, cell as usize, direction);
        if from != OFF_BOARD && prev.tick[from as int] == t - 1 {
            prev.lead[from as int]
        } else {
            -1
        }
    }

    /// The snake with the lowest index among those that may enter `cell` at
    /// tick `t`, or -1.
    pub open spec fn offer(self, prev: Spread, t: int, cell: int) -> int {
        better(
            better(
                self.source(prev, t, cell, Direction::Up),
                self.source(prev, t, cell, Direction::Down),
            ),
            better(
                self.source(prev, t, cell, Direction::Left),
                self.source(prev, t, cell, Direction::Right),
            ),
        )
    }

    /// Whether `cell`, not reached before, is reached at tick `t`: no body
    /// lies on it any more, and a neighbour was reached one tick earlier.
    pub open spec fn reached_now(self, prev: Spread, t: int, cell: int) -> bool {
        &&& prev.tick[cell] < 0
        &&& !self.occupied_at(cell, t)
        &&& self.offer(prev, t, cell) >= 0
    }

    /// The spread after `t` ticks. At tick 0 the heads of the playing snakes
    /// are reached. A cell reached once stays as it is.
    pub open spec fn spread(self, t: nat) -> Spread
        decreases t,
    {
        if t == 0 {
            Spread {
                tick: Seq::new(
                    self.cells() as nat,
                    |c: int|
                        if self.first_head_at(c, self.snakes.len() as int) >= 0 {
                            0int
                        } else {
                            -1int
                        },
                ),
                lead: Seq::new(
                    self.cells() as nat,
                    |c: int| self.first_head_at(c, self.snakes.len() as int),
                ),
            }
        } else {
            let prev = self.spread((t - 1) as nat);
            Spread {
                tick: Seq::new(
                    self.cells() as nat,
                    |c: int|
                        if self.reached_now(prev, t as int, c) {
                            t as int
                        } else {
                            prev.tick[c]
                        },
                ),
                lead: Seq::new(
                    self.cells() as nat,
                    |c: int|
                        if self.reached_now(prev, t as int, c) {
                            self.offer(prev, t as int, c)
                        } else {
                            prev.lead[c]
                        },
                ),
            }
        }
    }

    /// The snake that controls `cell`: on a head, the last playing snake with
    /// its head there; elsewhere the snake that reached the cell first, the
    /// one with the lower index if two reach it at the same tick; -1 if none
    /// ever does.
    pub open spec fn control_of(self, cell: int) -> int {
        if self.last_head_at(cell, self.snakes.len() as int) >= 0 {
            self.last_head_at(cell, self.snakes.len() as int)
        } else {
            self.spread(self.cells() as nat).lead[cell]
        }
    }

    /// The control vector: one entry for each cell.
    pub open spec fn snake_control(self) -> Seq<int> {
        Seq::new(self.cells() as nat, |c: int| self.control_of(c))
    }
}

/// `better` picks one of its arguments.
pub proof fn lemma_better_picks(a: int, b: int)
    ensures
        better(a, b) == a || better(a, b) == b,
        better(a, b) >= 0 <==> a >= 0 || b >= 0,
{
}

/// The first head on a cell is -1 or a playing snake with its head there, and
/// it is -1 exactly when the last head is.
pub proof fn lemma_heads_at(s: GameStateView, cell: int, n: int)
    ensures
        -1 <= s.first_head_at(cell, n) <= s.last_head_at(cell, n),
        s.last_head_at(cell, n) < n || s.last_head_at(cell, n) == -1,
        s.first_head_at(cell, n) >= 0 <==> s.last_head_at(cell, n) >= 0,
        s.first_head_at(cell, n) >= 0 ==> s.playing(s.first_head_at(cell, n))
            && s.snakes[s.first_head_at(cell, n)].head().index == cell,
        s.last_head_at(cell, n) >= 0 ==> s.playing(s.last_head_at(cell, n))
            && s.snakes[s.last_head_at(cell, n)].head().index == cell,
    decreases n,
{
    if n > 0 {
        lemma_heads_at(s, cell, n - 1);
    }
}

/// The shape of a spread: one entry for each cell; a cell has a tick exactly
/// when a snake goes on from it, the tick is none later than `t`, and the
/// snake is one of the board.
pub proof fn lemma_spread_shape(s: GameStateView, t: nat)
    ensures
        s.spread(t).tick.len() == s.cells() as nat,
        s.spread(t).lead.len() == s.cells() as nat,
        forall|c: int|
            #![trigger s.spread(t).tick[c]]
            #![trigger s.spread(t).lead[c]]
            0 <= c < s.cells() ==> -1 <= s.spread(t).tick[c] <= t && -1 <= s.spread(t).lead[c]
                < s.snakes.len() && (s.spread(t).tick[c] >= 0 <==> s.spread(t).lead[c] >= 0),
    decreases t,
{
    if t == 0 {
        assert forall|c: int|
            #![trigger s.spread(t).tick[c]]
            #![trigger s.spread(t).lead[c]]
            0 <= c < s.cells() implies -1 <= s.spread(t).tick[c] <= t && -1 <= s.spread(
            t,
        ).lead[c] < s.snakes.len() && (s.spread(t).tick[c] >= 0 <==> s.spread(t).lead[c]
            >= 0) by {
            lemma_heads_at(s, c, s.snakes.len() as int);
        }
    } else {
        let prev = s.spread((t - 1) as nat);
        lemma_spread_shape(s, (t - 1) as nat);
        assert forall|c: int|
            #![trigger s.spread(t).tick[c]]
            #![trigger s.spread(t).lead[c]]
            0 <= c < s.cells() implies -1 <= s.spread(t).tick[c] <= t && -1 <= s.spread(
            t,
        ).lead[c] < s.snakes.len() && (s.spread(t).tick[c] >= 0 <==> s.spread(t).lead[c]
            >= 0) by {
            lemma_offer_shape(s, prev, t as int, c);
            assert(prev.tick[c] >= -1);
        }
    }
}

/// An offer is -1 or a snake that goes on from a neighbour.
pub proof fn lemma_offer_shape(s: GameStateView, prev: Spread, t: int, c: int)
    requires
        0 <= c < s.cells(),
        prev.tick.len() == s.cells(),
        prev.lead.len() == s.cells(),
        forall|n: int| 0 <= n < s.cells() ==> -1 <= (#[trigger] prev.lead[n]) < s.snakes.len(),
    ensures
        -1 <= s.offer(prev, t, c) < s.snakes.len(),
{
    let up = s.source(prev, t, c, Direction::Up);
    let down = s.source(prev, t, c, Direction::Down);
    let left = s.source(prev, t, c, Direction::Left);
    let right = s.source(prev, t, c, Direction::Right);
    lemma_source_shape(s, prev, t, c, Direction::Up);
    lemma_source_shape(s, prev, t, c, Direction::Down);
    lemma_source_shape(s, prev, t, c, Direction::Left);
    lemma_source_shape(s, prev, t, c, Direction::Right);
    lemma_better_picks(up, down);
    lemma_better_picks(left, right);
    lemma_better_picks(better(up, down), better(left, right));
}

/// What a neighbour hands on is -1 or a snake that goes on from it.
pub proof fn lemma_source_shape(s: GameStateView, prev: Spread, t: int, c: int, d: Direction)
    requires
        0 <= c < s.cells(),
        prev.tick.len() == s.cells(),
        prev.lead.len() == s.cells(),
        forall|n: int| 0 <= n < s.cells() ==> -1 <= (#[trigger] prev.lead[n]) < s.snakes.len(),
    ensures
        -1 <= s.source(prev, t, c, d) < s.snakes.len(),
{
    let from = step_cell(s.width, s.height, c as usize, d);
    if from != OFF_BOARD && s.cells() <= usize::MAX {
        lemma_step_back(s.width, s.height, c as usize, d);
    }
    if from != OFF_BOARD && s.cells() > usize::MAX {
        assert(from < s.cells());
    }
}

/// Once a tick has reached no cell, later ticks reach none either.
pub proof fn lemma_spread_settles(s: GameStateView, t: nat, u: nat)
    requires
        t <= u,
        forall|c: int| 0 <= c < s.cells() ==> s.spread(t).tick[c] != t,
    ensures
        s.spread(u) == s.spread(t),
    decreases u,
{
    if u > t {
        lemma_spread_settles(s, t, (u - 1) as nat);
        let prev = s.spread((u - 1) as nat);
        lemma_spread_shape(s, t);
        assert forall|c: int| 0 <= c < s.cells() implies !s.reached_now(prev, u as int, c) by {
            if s.offer(prev, u as int, c) >= 0 {
                lemma_no_source(s, prev, u as int, c, Direction::Up);
                lemma_no_source(s, prev, u as int, c, Direction::Down);
                lemma_no_source(s, prev, u as int, c, Direction::Left);
                lemma_no_source(s, prev, u as int, c, Direction::Right);
            }
        }
        assert(s.spread(u).tick =~= prev.tick);
        assert(s.spread(u).lead =~= prev.lead);
    }
}

/// Nothing is handed on where no cell was reached one tick earlier.
pub proof fn lemma_no_source(s: GameStateView, prev: Spread, t: int, c: int, d: Direction)
    requires
        0 <= c < s.cells(),
        prev.tick.len() == s.cells(),
        forall|n: int| 0 <= n < s.cells() ==> (#[trigger] prev.tick[n]) != t - 1,
    ensures
        s.source(prev, t, c, d) == -1,
{
    let from = step_cell(s.width, s.height, c as usize, d);
    if from != OFF_BOARD {
        if s.cells() <= usize::MAX {
            lemma_step_back(s.width, s.height, c as usize, d);
        }
        assert(from < s.cells());
    }
}

/// What the search has found: which cells are reached, at which tick, and
/// which snake goes on from each.
struct Reach {
    seen: Vec<bool>,
    tick: Vec<usize>,
    lead: Vec<i8>,
}

/// One entry for each cell.
spec fn sized(seen: Seq<bool>, tick: Seq<usize>, lead: Seq<i8>, cells: int) -> bool {
    &&& seen.len() == cells
    &&& tick.len() == cells
    &&& lead.len() == cells
}

/// The cells marked are those that `sp` has reached, with its ticks and
/// snakes.
spec fn agree(seen: Seq<bool>, tick: Seq<usize>, lead: Seq<i8>, sp: Spread, cells: int) -> bool {
    &&& sized(seen, tick, lead, cells)
    &&& forall|c: int|
        #![trigger seen[c]]
        0 <= c < cells ==> (seen[c] <==> sp.tick[c] >= 0) && (seen[c] ==> tick[c] == sp.tick[c]
            && lead[c] == sp.lead[c])
}

/// In the middle of tick `t`: the cells of `prev` are as they were, and each
/// cell marked since is reached now, with the snake offered to it.
spec fn halfway(
    seen: Seq<bool>,
    tick: Seq<usize>,
    lead: Seq<i8>,
    s: GameStateView,
    prev: Spread,
    t: int,
) -> bool {
    &&& sized(seen, tick, lead, s.cells())
    &&& forall|c: int|
        #![trigger seen[c]]
        0 <= c < s.cells() ==> {
            &&& prev.tick[c] >= 0 ==> seen[c] && tick[c] == prev.tick[c] && lead[c]
                == prev.lead[c]
            &&& prev.tick[c] < 0 && seen[c] ==> tick[c] == t && lead[c] == s.offer(prev, t, c)
                && s.reached_now(prev, t, c)
        }
}

impl Reach {
    /// See `sized`.
    spec fn sized(&self, cells: int) -> bool {
        sized(self.seen@, self.tick@, self.lead@, cells)
    }

    /// See `agree`.
    spec fn agrees(&self, sp: Spread, cells: int) -> bool {
        agree(self.seen@, self.tick@, self.lead@, sp, cells)
    }

    /// See `halfway`.
    spec fn midway(&self, s: GameStateView, prev: Spread, t: int) -> bool {
        halfway(self.seen@, self.tick@, self.lead@, s, prev, t)
    }
}

/// `frontier` holds the cells reached at tick `t`, and no others.
spec fn lists(frontier: Seq<usize>, tick: Seq<int>, t: int, cells: int) -> bool {
    &&& forall|k: int| 0 <= k < frontier.len() ==> frontier[k] < cells && tick[frontier[k] as int] == t
    &&& forall|c: int|
        0 <= c < cells && tick[c] == t ==> exists|k: int| 0 <= k < frontier.len() && frontier[k] == c
}

/// Whether snake `j` takes part.
fn is_playing(game_state: &GameState, j: usize, cells: usize) -> (r: bool)
    requires
        j < game_state.snakes.len(),
        cells == game_state@.cells(),
    ensures
        r == game_state@.playing(j as int),
{
    game_state.snakes[j].health > 0 && game_state.snakes[j].head().index < cells
}

/// For each cell the first tick at which no body lies on it any more.
fn vacate_ticks(game_state: &GameState, cells: usize) -> (vacate: Vec<usize>)
    requires
        cells == game_state@.cells(),
    ensures
        vacate.len() == cells,
        forall|c: int, t: int|
            0 <= c < cells && 0 <= t ==> (vacate@[c] > t <==> #[trigger] game_state@.occupied_at(
                c,
                t,
            )),
{
    let ghost s = game_state@;
    let mut vacate: Vec<usize> = vec![0usize; cells];
    let mut j: usize = 0;
    while j < game_state.snakes.len()
        invariant
            j <= game_state.snakes.len(),
            s == game_state@,
            cells == s.cells(),
            vacate.len() == cells,
            forall|jj: int, kk: int, c: int|
                0 <= c < cells && jj < j && #[trigger] s.segment_at(jj, kk, c) ==> vacate@[c] >= kk
                    + 1,
            forall|c: int|
                0 <= c < cells ==> (#[trigger] vacate@[c]) == 0 || exists|jj: int, kk: int|
                    s.segment_at(jj, kk, c) && vacate@[c] == kk + 1,
        decreases game_state.snakes.len() - j,
    {
        if is_playing(game_state, j, cells) {
            let body = &game_state.snakes[j].body;
            let mut k: usize = 0;
            while k < body.len()
                invariant
                    k <= body.len(),
                    j < game_state.snakes.len(),
                    s == game_state@,
                    s.playing(j as int),
                    body@ == s.snakes[j as int].body,
                    cells == s.cells(),
                    vacate.len() == cells,
                    forall|jj: int, kk: int, c: int|
                        0 <= c < cells && (jj < j || (jj == j && kk < k)) && #[trigger] s.segment_at(
                            jj,
                            kk,
                            c,
                        ) ==> vacate@[c] >= kk + 1,
                    forall|c: int|
                        0 <= c < cells ==> (#[trigger] vacate@[c]) == 0 || exists|
                            jj: int,
                            kk: int,
                        | s.segment_at(jj, kk, c) && vacate@[c] == kk + 1,
                decreases body.len() - k,
            {
                let cell = body[k].index;
                if cell < cells && vacate[cell] < k + 1 {
                    vacate.set(cell, k + 1);
                    assert(s.segment_at(j as int, k as int, cell as int));
                }
                k += 1;
            }
        }
        j += 1;
    }
    proof {
        assert forall|c: int, t: int| 0 <= c < cells && 0 <= t implies (vacate@[c] > t
            <==> #[trigger] s.occupied_at(c, t)) by {
            if s.occupied_at(c, t) {
                let (jj, kk) = choose|jj: int, kk: int| s.segment_at(jj, kk, c) && kk + 1 > t;
                assert(s.segment_at(jj, kk, c));
            }
            if vacate@[c] > t {
                let (jj, kk) = choose|jj: int, kk: int|
                    s.segment_at(jj, kk, c) && vacate@[c] == kk + 1;
                assert(s.segment_at(jj, kk, c) && kk + 1 > t);
            }
        }
    }
    vacate
}

/// The smaller of two snakes, where -1 stands for none.
fn better_of(a: i8, b: i8) -> (r: i8)
    ensures
        r as int == better(a as int, b as int),
{
    if a < 0 {
        b
    } else if b < 0 {
        a
    } else if a <= b {
        a
    } else {
        b
    }
}

/// The snake that may enter `cell` at tick `t` from its neighbour in
/// `direction`.
fn source_at(
    game_state: &GameState,
    reach: &Reach,
    cell: usize,
    direction: Direction,
    t: usize,
    Ghost(prev): Ghost<Spread>,
) -> (r: i8)
    requires
        game_state@.well_sized(),
        cell < game_state@.cells(),
        t >= 1,
        reach.sized(game_state@.cells()),
        prev.tick.len() == game_state@.cells(),
        forall|n: int|
            #![trigger reach.seen@[n]]
            0 <= n < game_state@.cells() ==> (reach.seen@[n] && reach.tick@[n] == t - 1
                <==> prev.tick[n] == t - 1) && (prev.tick[n] == t - 1 ==> reach.lead@[n]
                == prev.lead[n]),
    ensures
        r as int == game_state@.source(prev, t as int, cell as int, direction),
{
    let from = game_state.step(cell, direction);
    if from != OFF_BOARD && reach.seen[from] && reach.tick[from] == t - 1 {
        reach.lead[from]
    } else {
        UNCLAIMED
    }
}

/// The snake with the lowest index among those that may enter `cell` at tick
/// `t`.
fn offer_at(
    game_state: &GameState,
    reach: &Reach,
    cell: usize,
    t: usize,
    Ghost(prev): Ghost<Spread>,
) -> (r: i8)
    requires
        game_state@.well_sized(),
        cell < game_state@.cells(),
        t >= 1,
        reach.sized(game_state@.cells()),
        prev.tick.len() == game_state@.cells(),
        forall|n: int|
            #![trigger reach.seen@[n]]
            0 <= n < game_state@.cells() ==> (reach.seen@[n] && reach.tick@[n] == t - 1
                <==> prev.tick[n] == t - 1) && (prev.tick[n] == t - 1 ==> reach.lead@[n]
                == prev.lead[n]),
    ensures
        r as int == game_state@.offer(prev, t as int, cell as int),
{
    let up = source_at(game_state, reach, cell, Direction::Up, t, Ghost(prev));
    let down = source_at(game_state, reach, cell, Direction::Down, t, Ghost(prev));
    let left = source_at(game_state, reach, cell, Direction::Left, t, Ghost(prev));
    let right = source_at(game_state, reach, cell, Direction::Right, t, Ghost(prev));
    better_of(better_of(up, down), better_of(left, right))
}

/// Whether the step from `from` in direction `d` has been looked at: the cell
/// it leads to is marked if it can be reached now.
spec fn handled(
    seen: Seq<bool>,
    s: GameStateView,
    prev: Spread,
    t: int,
    from: int,
    d: Direction,
) -> bool {
    let c = step_cell(s.width, s.height, from as usize, d);
    c != OFF_BOARD && prev.tick[c as int] < 0 && !s.occupied_at(c as int, t) ==> seen[c as int]
}

/// `next` holds the cells marked during this tick, and no others.
spec fn fresh(next: Seq<usize>, seen: Seq<bool>, prev: Spread, cells: int) -> bool {
    &&& forall|k: int|
        0 <= k < next.len() ==> next[k] < cells && prev.tick[next[k] as int] < 0 && seen[next[k] as int]
    &&& forall|c: int|
        0 <= c < cells && prev.tick[c] < 0 && #[trigger] seen[c] ==> exists|k: int|
            0 <= k < next.len() && next[k] == c
}

/// A step that was looked at stays so while cells are only added.
proof fn lemma_handled_stays(
    before: Seq<bool>,
    after: Seq<bool>,
    s: GameStateView,
    prev: Spread,
    t: int,
    from: int,
    d: Direction,
)
    requires
        s.well_sized(),
        0 <= from < s.cells(),
        before.len() == s.cells(),
        after.len() == s.cells(),
        forall|c: int| 0 <= c < s.cells() && before[c] ==> after[c],
        handled(before, s, prev, t, from, d),
    ensures
        handled(after, s, prev, t, from, d),
{
    if step_cell(s.width, s.height, from as usize, d) != OFF_BOARD {
        lemma_step_back(s.width, s.height, from as usize, d);
    }
}

/// At the end of tick `t`, when every step from the frontier has been looked
/// at, the cells marked are those of the spread after `t` ticks, and `next`
/// is its frontier.
proof fn lemma_tick_done(
    s: GameStateView,
    seen: Seq<bool>,
    tick: Seq<usize>,
    lead: Seq<i8>,
    frontier: Seq<usize>,
    next: Seq<usize>,
    t: nat,
)
    requires
        t >= 1,
        s.well_sized(),
        halfway(seen, tick, lead, s, s.spread((t - 1) as nat), t as int),
        fresh(next, seen, s.spread((t - 1) as nat), s.cells()),
        lists(frontier, s.spread((t - 1) as nat).tick, t - 1, s.cells()),
        forall|kk: int, d: Direction|
            0 <= kk < frontier.len() ==> #[trigger] handled(
                seen,
                s,
                s.spread((t - 1) as nat),
                t as int,
                frontier[kk] as int,
                d,
            ),
    ensures
        agree(seen, tick, lead, s.spread(t), s.cells()),
        lists(next, s.spread(t).tick, t as int, s.cells()),
{
    let prev = s.spread((t - 1) as nat);
    let now = s.spread(t);
    let tt = t as int;
    lemma_spread_shape(s, (t - 1) as nat);
    lemma_spread_shape(s, t);
    assert forall|c: int| 0 <= c < s.cells() && prev.tick[c] < 0 && !seen[c] implies !s.reached_now(
        prev,
        tt,
        c,
    ) by {
        if s.reached_now(prev, tt, c) {
            let up = s.source(prev, tt, c, Direction::Up);
            let down = s.source(prev, tt, c, Direction::Down);
            let left = s.source(prev, tt, c, Direction::Left);
            let right = s.source(prev, tt, c, Direction::Right);
            lemma_better_picks(up, down);
            lemma_better_picks(left, right);
            lemma_better_picks(better(up, down), better(left, right));
            let d = if up >= 0 {
                Direction::Up
            } else if down >= 0 {
                Direction::Down
            } else if left >= 0 {
                Direction::Left
            } else {
                Direction::Right
            };
            assert(s.source(prev, tt, c, d) >= 0);
            let from = step_cell(s.width, s.height, c as usize, d);
            lemma_step_back(s.width, s.height, c as usize, d);
            assert(prev.tick[from as int] == tt - 1);
            let kk = choose|kk: int| 0 <= kk < frontier.len() && frontier[kk] == from;
            assert(handled(seen, s, prev, tt, frontier[kk] as int, d.opposite()));
        }
    }
    assert forall|c: int| #![trigger seen[c]] 0 <= c < s.cells() implies (seen[c] <==> now.tick[c]
        >= 0) && (seen[c] ==> tick[c] == now.tick[c] && lead[c] == now.lead[c]) by {
        assert(prev.tick[c] >= -1);
    }
    assert forall|c: int| 0 <= c < s.cells() && now.tick[c] == tt implies exists|k: int|
        0 <= k < next.len() && next[k] == c by {
        assert(prev.tick[c] <= tt - 1);
        assert(s.reached_now(prev, tt, c));
        assert(seen[c]);
    }
}

/// Looks at the step from `from` in `direction` during tick `t`, and marks
/// the cell it leads to if that cell is reached now.
fn claim_step(
    game_state: &GameState,
    reach: &mut Reach,
    next: &mut Vec<usize>,
    vacate: &Vec<usize>,
    from: usize,
    direction: Direction,
    t: usize,
    Ghost(prev): Ghost<Spread>,
)
    requires
        game_state@.well_sized(),
        from < game_state@.cells(),
        t >= 1,
        prev.tick.len() == game_state@.cells(),
        prev.lead.len() == game_state@.cells(),
        prev.tick[from as int] == t - 1,
        prev.lead[from as int] >= 0,
        old(reach).midway(game_state@, prev, t as int),
        fresh(old(next)@, old(reach).seen@, prev, game_state@.cells()),
        vacate.len() == game_state@.cells(),
        forall|c: int, u: int|
            0 <= c < game_state@.cells() && 0 <= u ==> (vacate@[c] > u
                <==> #[trigger] game_state@.occupied_at(c, u)),
    ensures
        final(reach).midway(game_state@, prev, t as int),
        fresh(final(next)@, final(reach).seen@, prev, game_state@.cells()),
        forall|c: int|
            0 <= c < game_state@.cells() && old(reach).seen@[c] ==> final(reach).seen@[c],
        handled(final(reach).seen@, game_state@, prev, t as int, from as int, direction),
{
    let ghost s = game_state@;
    let c = game_state.step(from, direction);
    if c != OFF_BOARD && !reach.seen[c] && vacate[c] <= t {
        let who = offer_at(game_state, reach, c, t, Ghost(prev));
        proof {
            lemma_step_back(s.width, s.height, from, direction);
            let back = direction.opposite();
            assert(s.source(prev, t as int, c as int, back) == prev.lead[from as int]);
            let up = s.source(prev, t as int, c as int, Direction::Up);
            let down = s.source(prev, t as int, c as int, Direction::Down);
            let left = s.source(prev, t as int, c as int, Direction::Left);
            let right = s.source(prev, t as int, c as int, Direction::Right);
            lemma_better_picks(up, down);
            lemma_better_picks(left, right);
            lemma_better_picks(better(up, down), better(left, right));
            assert(s.offer(prev, t as int, c as int) >= 0);
            assert(!s.occupied_at(c as int, t as int));
            assert(s.reached_now(prev, t as int, c as int));
        }
        let ghost seen0 = reach.seen@;
        let ghost next0 = next@;
        reach.seen.set(c, true);
        reach.tick.set(c, t);
        reach.lead.set(c, who);
        next.push(c);
        proof {
            let tt = t as int;
            assert forall|x: int| #![trigger reach.seen@[x]] 0 <= x < s.cells() implies {
                &&& prev.tick[x] >= 0 ==> reach.seen@[x] && reach.tick@[x] == prev.tick[x]
                    && reach.lead@[x] == prev.lead[x]
                &&& prev.tick[x] < 0 && reach.seen@[x] ==> reach.tick@[x] == tt && reach.lead@[x]
                    == s.offer(prev, tt, x) && s.reached_now(prev, tt, x)
            } by {
                if x != c {
                    assert(reach.seen@[x] == seen0[x]);
                }
            }
            assert forall|x: int| 0 <= x < s.cells() && prev.tick[x] < 0 && #[trigger] reach.seen@[x]
                implies exists|k: int| 0 <= k < next@.len() && next@[k] == x by {
                if x == c {
                    assert(next@[next0.len() as int] == c);
                } else {
                    assert(seen0[x]);
                    let k = choose|k: int| 0 <= k < next0.len() && next0[k] == x;
                    assert(next@[k] == x);
                }
            }
        }
    } else {
        proof {
            if c != OFF_BOARD {
                assert(reach.seen@[c as int] || s.occupied_at(c as int, t as int));
            }
        }
    }
}

/// For each cell the last playing snake with its head there, or `UNCLAIMED`.
fn head_crowns(game_state: &GameState, cells: usize) -> (crown: Vec<i8>)
    requires
        cells == game_state@.cells(),
        game_state@.snakes.len() <= 128,
    ensures
        crown.len() == cells,
        forall|c: int|
            0 <= c < cells ==> (#[trigger] crown@[c]) == game_state@.last_head_at(
                c,
                game_state@.snakes.len() as int,
            ),
{
    let ghost s = game_state@;
    let mut crown: Vec<i8> = vec![UNCLAIMED; cells];
    let mut j: usize = 0;
    while j < game_state.snakes.len()
        invariant
            j <= game_state.snakes.len(),
            game_state.snakes.len() <= 128,
            s == game_state@,
            cells == s.cells(),
            crown.len() == cells,
            forall|c: int| 0 <= c < cells ==> (#[trigger] crown@[c]) == s.last_head_at(c, j as int),
        decreases game_state.snakes.len() - j,
    {
        if is_playing(game_state, j, cells) {
            let head = game_state.snakes[j].head().index;
            crown.set(head, j as i8);
        }
        j += 1;
    }
    crown
}

/// Marks the heads of the playing snakes: the spread at tick 0, and the
/// cells that it has reached.
fn seed_heads(game_state: &GameState, cells: usize) -> (r: (Reach, Vec<usize>))
    requires
        cells == game_state@.cells(),
        game_state@.snakes.len() <= 128,
    ensures
        r.0.agrees(game_state@.spread(0), cells as int),
        lists(r.1@, game_state@.spread(0).tick, 0, cells as int),
{
    let ghost s = game_state@;
    let n = game_state.snakes.len();
    let mut reach = Reach {
        seen: vec![false; cells],
        tick: vec![0usize; cells],
        lead: vec![UNCLAIMED; cells],
    };
    let mut frontier: Vec<usize> = Vec::new();
    let mut j: usize = 0;
    while j < n
        invariant
            j <= n,
            n == game_state.snakes.len(),
            n <= 128,
            s == game_state@,
            cells == s.cells(),
            reach.sized(cells as int),
            forall|c: int|
                0 <= c < cells ==> (#[trigger] reach.lead@[c]) == s.first_head_at(c, j as int),
            forall|c: int|
                0 <= c < cells ==> ((#[trigger] reach.seen@[c]) <==> reach.lead@[c] >= 0),
            forall|c: int| 0 <= c < cells ==> (#[trigger] reach.tick@[c]) == 0,
            forall|k: int|
                0 <= k < frontier@.len() ==> frontier@[k] < cells && reach.seen@[frontier@[k] as int],
            forall|c: int|
                0 <= c < cells && #[trigger] reach.seen@[c] ==> exists|k: int|
                    0 <= k < frontier@.len() && frontier@[k] == c,
        decreases n - j,
    {
        if is_playing(game_state, j, cells) {
            let head = game_state.snakes[j].head().index;
            let ghost seen0 = reach.seen@;
            let ghost frontier0 = frontier@;
            if !reach.seen[head] {
                reach.seen.set(head, true);
                reach.lead.set(head, j as i8);
                frontier.push(head);
            }
            proof {
                assert forall|c: int| 0 <= c < cells implies (#[trigger] reach.lead@[c])
                    == s.first_head_at(c, j + 1) by {
                    assert(seen0[c] <==> s.first_head_at(c, j as int) >= 0);
                }
                assert forall|c: int| 0 <= c < cells implies ((#[trigger] reach.seen@[c])
                    <==> reach.lead@[c] >= 0) by {
                    assert(seen0[c] <==> s.first_head_at(c, j as int) >= 0);
                }
                assert forall|c: int| 0 <= c < cells && #[trigger] reach.seen@[c] implies exists|
                    k: int,
                | 0 <= k < frontier@.len() && frontier@[k] == c by {
                    if seen0[c] {
                        let k = choose|k: int| 0 <= k < frontier0.len() && frontier0[k] == c;
                        assert(frontier@[k] == c);
                    } else {
                        assert(frontier@[frontier0.len() as int] == c);
                    }
                }
            }
        } else {
            proof {
                assert forall|c: int| 0 <= c < cells implies (#[trigger] reach.lead@[c])
                    == s.first_head_at(c, j + 1) by {
                    assert(reach.seen@[c] <==> reach.lead@[c] >= 0);
                }
            }
        }
        j += 1;
    }
    proof {
        let sp = s.spread(0);
        assert forall|c: int| #![trigger reach.seen@[c]] 0 <= c < cells implies (reach.seen@[c]
            <==> sp.tick[c] >= 0) && (reach.seen@[c] ==> reach.tick@[c] == sp.tick[c]
            && reach.lead@[c] == sp.lead[c]) by {}
        assert(reach.agrees(sp, cells as int));
        assert forall|k: int| 0 <= k < frontier@.len() implies frontier@[k] < cells
            && sp.tick[frontier@[k] as int] == 0 by {
            assert(reach.seen@[frontier@[k] as int]);
        }
        assert forall|c: int| 0 <= c < cells && sp.tick[c] == 0 implies exists|k: int|
            0 <= k < frontier@.len() && frontier@[k] == c by {
            assert(reach.seen@[c]);
        }
        assert(lists(frontier@, sp.tick, 0, cells as int));
    }
    (reach, frontier)
}

/// Plays tick `t`: looks at every step from the cells of `frontier`, those
/// reached at tick `t - 1`, and returns the cells reached at tick `t`.
fn spread_tick(
    game_state: &GameState,
    reach: &mut Reach,
    frontier: &Vec<usize>,
    vacate: &Vec<usize>,
    t: usize,
) -> (next: Vec<usize>)
    requires
        game_state@.well_sized(),
        1 <= t <= game_state@.cells(),
        old(reach).agrees(game_state@.spread((t - 1) as nat), game_state@.cells()),
        lists(frontier@, game_state@.spread((t - 1) as nat).tick, t - 1, game_state@.cells()),
        vacate.len() == game_state@.cells(),
        forall|c: int, u: int|
            0 <= c < game_state@.cells() && 0 <= u ==> (vacate@[c] > u
                <==> #[trigger] game_state@.occupied_at(c, u)),
    ensures
        final(reach).agrees(game_state@.spread(t as nat), game_state@.cells()),
        lists(next@, game_state@.spread(t as nat).tick, t as int, game_state@.cells()),
{
    let ghost s = game_state@;
    let ghost cells = s.cells();
    let ghost prev = s.spread((t - 1) as nat);
    proof {
        lemma_spread_shape(s, (t - 1) as nat);
    }
    let mut next: Vec<usize> = Vec::new();
    let mut k: usize = 0;
    while k < frontier.len()
        invariant
            k <= frontier.len(),
            1 <= t <= cells,
            s == game_state@,
            s.well_sized(),
            cells == s.cells(),
            prev == s.spread((t - 1) as nat),
            prev.tick.len() == cells,
            prev.lead.len() == cells,
            forall|c: int|
                #![trigger prev.tick[c]]
                #![trigger prev.lead[c]]
                0 <= c < cells ==> (prev.tick[c] >= 0 <==> prev.lead[c] >= 0),
            lists(frontier@, prev.tick, t - 1, cells),
            reach.midway(s, prev, t as int),
            fresh(next@, reach.seen@, prev, cells),
            forall|kk: int, d: Direction|
                0 <= kk < k ==> #[trigger] handled(
                    reach.seen@,
                    s,
                    prev,
                    t as int,
                    frontier@[kk] as int,
                    d,
                ),
            vacate.len() == cells,
            forall|c: int, u: int|
                0 <= c < cells && 0 <= u ==> (vacate@[c] > u <==> #[trigger] s.occupied_at(
                    c,
                    u,
                )),
        decreases frontier.len() - k,
    {
        let from = frontier[k];
        let ghost seen0 = reach.seen@;
        claim_step(game_state, reach, &mut next, &vacate, from, Direction::Up, t, Ghost(prev));
        let ghost seen1 = reach.seen@;
        claim_step(
            game_state,
            reach,
            &mut next,
            &vacate,
            from,
            Direction::Down,
            t,
            Ghost(prev),
        );
        let ghost seen2 = reach.seen@;
        claim_step(
            game_state,
            reach,
            &mut next,
            &vacate,
            from,
            Direction::Left,
            t,
            Ghost(prev),
        );
        let ghost seen3 = reach.seen@;
        claim_step(
            game_state,
            reach,
            &mut next,
            &vacate,
            from,
            Direction::Right,
            t,
            Ghost(prev),
        );
        proof {
            let seen4 = reach.seen@;
            let tt = t as int;
            lemma_handled_stays(seen1, seen4, s, prev, tt, from as int, Direction::Up);
            lemma_handled_stays(seen2, seen4, s, prev, tt, from as int, Direction::Down);
            lemma_handled_stays(seen3, seen4, s, prev, tt, from as int, Direction::Left);
            assert forall|kk: int, d: Direction| 0 <= kk < k + 1 implies #[trigger] handled(
                seen4,
                s,
                prev,
                tt,
                frontier@[kk] as int,
                d,
            ) by {
                if kk < k {
                    assert(handled(seen0, s, prev, tt, frontier@[kk] as int, d));
                    lemma_handled_stays(seen0, seen4, s, prev, tt, frontier@[kk] as int, d);
                } else {
                    match d {
                        Direction::Up => {},
                        Direction::Down => {},
                        Direction::Left => {},
                        Direction::Right => {},
                    }
                }
            }
        }
        k += 1;
    }
    proof {
        lemma_tick_done(s, reach.seen@, reach.tick@, reach.lead@, frontier@, next@, t as nat);
    }
    next
}

/// Which snake controls each cell: one entry per cell in row-major order,
/// the index of the snake or `UNCLAIMED`. See `GameStateView::control_of`.
pub fn calculate_snake_control(game_state: &GameState) -> (control: Vec<i8>)
    requires
        game_state@.well_sized(),
        game_state@.snakes.len() <= 128,
    ensures
        control@.len() == game_state@.cells(),
        forall|c: int|
            0 <= c < game_state@.cells() ==> (#[trigger] control@[c]) as int
                == game_state@.control_of(c),
{
    let ghost s = game_state@;
    let cells = game_state.width * game_state.height;
    let vacate = vacate_ticks(game_state, cells);
    let (mut reach, mut frontier) = seed_heads(game_state, cells);
    let mut t: usize = 0;
    while t < cells && frontier.len() > 0
        invariant
            t <= cells,
            s == game_state@,
            s.well_sized(),
            cells == s.cells(),
            reach.agrees(s.spread(t as nat), cells as int),
            lists(frontier@, s.spread(t as nat).tick, t as int, cells as int),
            vacate.len() == cells,
            forall|c: int, u: int|
                0 <= c < cells && 0 <= u ==> (vacate@[c] > u <==> #[trigger] s.occupied_at(c, u)),
        decreases cells - t,
    {
        t += 1;
        frontier = spread_tick(game_state, &mut reach, &frontier, &vacate, t);
    }
    proof {
        if t < cells {
            assert forall|c: int| 0 <= c < s.cells() implies s.spread(t as nat).tick[c] != t by {
                if s.spread(t as nat).tick[c] == t {
                    let k = choose|k: int| 0 <= k < frontier@.len() && frontier@[k] == c;
                }
            }
            lemma_spread_settles(s, t as nat, cells as nat);
        }
        assert(reach.agrees(s.spread(cells as nat), cells as int));
        lemma_spread_shape(s, cells as nat);
    }
    let crown = head_crowns(game_state, cells);
    let mut control: Vec<i8> = Vec::new();
    let mut c: usize = 0;
    while c < cells
        invariant
            c <= cells,
            cells == s.cells(),
            control.len() == c,
            crown.len() == cells,
            reach.agrees(s.spread(cells as nat), cells as int),
            forall|x: int|
                0 <= x < cells ==> (#[trigger] crown@[x]) == s.last_head_at(x, s.snakes.len() as int),
            forall|x: int|
                #![trigger s.spread(cells as nat).tick[x]]
                #![trigger s.spread(cells as nat).lead[x]]
                0 <= x < cells ==> (s.spread(cells as nat).tick[x] >= 0 <==> s.spread(
                    cells as nat,
                ).lead[x] >= 0) && s.spread(cells as nat).lead[x] >= -1,
            forall|x: int| 0 <= x < c ==> (#[trigger] control@[x]) as int == s.control_of(x),
        decreases cells - c,
    {
        let owner = if crown[c] >= 0 {
            crown[c]
        } else if reach.seen[c] {
            reach.lead[c]
        } else {
            UNCLAIMED
        };
        control.push(owner);
        c += 1;
    }
    control
}

/// A cell that was reached stays as it is.
pub proof fn lemma_reached_stays(s: GameStateView, t: nat, u: nat, c: int)
    requires
        t <= u,
        0 <= c < s.cells(),
        s.spread(t).tick[c] >= 0,
    ensures
        s.spread(u).tick[c] == s.spread(t).tick[c],
        s.spread(u).lead[c] == s.spread(t).lead[c],
    decreases u,
{
    if u > t {
        lemma_reached_stays(s, t, (u - 1) as nat, c);
    }
}

/// How many of the first `n` cells `sp` has reached.
pub open spec fn reached_count(sp: Spread, n: int) -> nat
    decreases n,
{
    if n <= 0 {
        0
    } else {
        reached_count(sp, n - 1) + if sp.tick[n - 1] >= 0 {
            1nat
        } else {
            0nat
        }
    }
}

/// No more cells are reached than there are.
pub proof fn lemma_reached_count_bound(sp: Spread, n: int)
    requires
        0 <= n,
    ensures
        reached_count(sp, n) <= n,
    decreases n,
{
    if n > 0 {
        lemma_reached_count_bound(sp, n - 1);
    }
}

/// A tick loses no cell, and a tick that reaches a cell among the first `n`
/// has reached one more of them than the tick before. Here `u` is the tick
/// after `t`.
pub proof fn lemma_reached_count_grows(s: GameStateView, t: nat, u: nat, n: int)
    requires
        u == t + 1,
        0 <= n <= s.cells(),
    ensures
        reached_count(s.spread(u), n) >= reached_count(s.spread(t), n),
        (exists|c: int| 0 <= c < n && #[trigger] s.spread(u).tick[c] == u) ==> reached_count(
            s.spread(u),
            n,
        ) >= reached_count(s.spread(t), n) + 1,
    decreases n,
{
    if n > 0 {
        lemma_reached_count_grows(s, t, u, n - 1);
        lemma_spread_shape(s, t);
        lemma_spread_shape(s, u);
        if s.spread(t).tick[n - 1] >= 0 {
            lemma_reached_stays(s, t, u, n - 1);
        }
        if exists|c: int| 0 <= c < n && #[trigger] s.spread(u).tick[c] == u {
            let c = choose|c: int| 0 <= c < n && #[trigger] s.spread(u).tick[c] == u;
            if c == n - 1 {
                assert(s.spread(t).tick[n - 1] <= t);
            } else {
                assert(0 <= c < n - 1 && s.spread(u).tick[c] == u);
            }
        }
    }
}

/// Among the ticks up to `last` there is one that reaches no cell, or each
/// of them has reached a cell of its own.
pub proof fn lemma_idle_tick(s: GameStateView, last: nat) -> (t: nat)
    ensures
        t <= last,
        (forall|c: int| 0 <= c < s.cells() ==> #[trigger] s.spread(t).tick[c] != t)
            || reached_count(s.spread(last), s.cells()) >= last + 1,
    decreases last,
{
    if forall|c: int| 0 <= c < s.cells() ==> #[trigger] s.spread(last).tick[c] != last {
        last
    } else if last == 0 {
        let c = choose|c: int| 0 <= c < s.cells() && #[trigger] s.spread(0).tick[c] == 0;
        lemma_reached_one(s.spread(0), s.cells(), c);
        0
    } else {
        let t = lemma_idle_tick(s, (last - 1) as nat);
        lemma_reached_count_grows(s, (last - 1) as nat, last, s.cells());
        t
    }
}

/// A cell that is reached counts.
pub proof fn lemma_reached_one(sp: Spread, n: int, c: int)
    requires
        0 <= c < n,
        sp.tick[c] >= 0,
    ensures
        reached_count(sp, n) >= 1,
    decreases n,
{
    if c < n - 1 {
        lemma_reached_one(sp, n - 1, c);
    }
}

/// After as many ticks as the board has cells the spread has come to its
/// end: no later tick reaches a cell.
pub proof fn lemma_spread_ends(s: GameStateView, u: nat)
    requires
        u >= s.cells(),
    ensures
        s.spread(u) == s.spread(s.cells() as nat),
{
    let last = s.cells() as nat;
    let t = lemma_idle_tick(s, last);
    lemma_reached_count_bound(s.spread(last), s.cells());
    lemma_spread_settles(s, t, u);
    lemma_spread_settles(s, t, last);
}

/// Whether `cell` is ever reached by a snake: by `lemma_spread_ends` a cell
/// not reached after as many ticks as there are cells never is.
pub open spec fn reached(s: GameStateView, cell: int) -> bool {
    s.spread(s.cells() as nat).tick[cell] >= 0
}

/// The entry of a cell is the index of a snake of the board, or -1 for a
/// cell that is never reached and for no other.
pub proof fn lemma_control_shape(s: GameStateView, c: int)
    requires
        0 <= c < s.cells(),
    ensures
        -1 <= s.control_of(c) < s.snakes.len(),
        s.control_of(c) >= 0 <==> reached(s, c),
        s.control_of(c) >= 0 ==> s.snakes[s.control_of(c)].alive(),
{
    let n = s.snakes.len() as int;
    lemma_heads_at(s, c, n);
    lemma_spread_shape(s, s.cells() as nat);
    if s.first_head_at(c, n) >= 0 {
        lemma_reached_stays(s, 0, s.cells() as nat, c);
    } else {
        lemma_lead_plays(s, s.cells() as nat, c);
    }
}

/// The snake that goes on from a cell takes part.
pub proof fn lemma_lead_plays(s: GameStateView, t: nat, c: int)
    requires
        0 <= c < s.cells(),
    ensures
        s.spread(t).lead[c] >= 0 ==> s.playing(s.spread(t).lead[c]),
    decreases t, 1nat,
{
    if t == 0 {
        lemma_heads_at(s, c, s.snakes.len() as int);
    } else {
        let prev = s.spread((t - 1) as nat);
        lemma_lead_plays(s, (t - 1) as nat, c);
        lemma_spread_shape(s, (t - 1) as nat);
        if s.reached_now(prev, t as int, c) {
            let up = s.source(prev, t as int, c, Direction::Up);
            let down = s.source(prev, t as int, c, Direction::Down);
            let left = s.source(prev, t as int, c, Direction::Left);
            let right = s.source(prev, t as int, c, Direction::Right);
            lemma_better_picks(up, down);
            lemma_better_picks(left, right);
            lemma_better_picks(better(up, down), better(left, right));
            lemma_source_plays(s, (t - 1) as nat, c, Direction::Up);
            lemma_source_plays(s, (t - 1) as nat, c, Direction::Down);
            lemma_source_plays(s, (t - 1) as nat, c, Direction::Left);
            lemma_source_plays(s, (t - 1) as nat, c, Direction::Right);
        }
    }
}

/// The snake that a neighbour hands on takes part.
pub proof fn lemma_source_plays(s: GameStateView, t: nat, c: int, d: Direction)
    requires
        0 <= c < s.cells(),
    ensures
        s.source(s.spread(t), (t + 1) as int, c, d) >= 0 ==> s.playing(
            s.source(s.spread(t), (t + 1) as int, c, d),
        ),
    decreases t, 2nat,
{
    let from = step_cell(s.width, s.height, c as usize, d);
    if from != OFF_BOARD {
        if s.cells() <= usize::MAX {
            lemma_step_back(s.width, s.height, c as usize, d);
        }
        lemma_lead_plays(s, t, from as int);
    }
}

/// On a board with one snake every cell that is reached belongs to that
/// snake, and every other cell is unclaimed.
pub proof fn lemma_single_snake_control(s: GameStateView, c: int)
    requires
        s.snakes.len() == 1,
        0 <= c < s.cells(),
    ensures
        s.control_of(c) == if reached(s, c) {
            0int
        } else {
            -1int
        },
{
    lemma_control_shape(s, c);
}

/// How many entries of `control` are `who`.
pub open spec fn count_of(control: Seq<int>, who: int) -> nat
    decreases control.len(),
{
    if control.len() == 0 {
        0
    } else {
        count_of(control.drop_last(), who) + if control.last() == who {
            1nat
        } else {
            0nat
        }
    }
}

impl GameStateView {
    /// For each snake the number of cells that it controls.
    pub open spec fn control_counts(self) -> Seq<nat> {
        Seq::new(self.snakes.len(), |i: int| count_of(self.snake_control(), i))
    }

    /// The number of cells that the first snake with the name of snake `i`
    /// controls once snake `i` has been moved in `direction` and the turn has
    /// ended; 0 if there is no snake `i`.
    pub open spec fn move_control_cells(self, i: int, direction: Direction) -> nat {
        if 0 <= i < self.snakes.len() {
            let after = self.advance(i, direction).resolved();
            count_of(after.snake_control(), after.snake_named(self.snakes[i].id))
        } else {
            0
        }
    }
}

/// For each snake the number of cells that it controls. Divided by the
/// number of cells this is the share of the board that the snake holds.
pub fn calculate_control_counts(game_state: &GameState) -> (counts: Vec<usize>)
    requires
        game_state@.well_sized(),
        game_state@.snakes.len() <= 128,
    ensures
        counts@.len() == game_state@.snakes.len(),
        forall|i: int|
            0 <= i < counts@.len() ==> (#[trigger] counts@[i]) == game_state@.control_counts()[i],
        forall|i: int| 0 <= i < counts@.len() ==> (#[trigger] counts@[i]) <= game_state@.cells(),
{
    let ghost s = game_state@;
    let control = calculate_snake_control(game_state);
    let n = game_state.snakes.len();
    let mut counts: Vec<usize> = vec![0usize; n];
    let mut k: usize = 0;
    proof {
        assert(s.snake_control().take(0) =~= Seq::<int>::empty());
    }
    while k < control.len()
        invariant
            k <= control.len(),
            control@.len() == s.cells(),
            n == s.snakes.len(),
            counts.len() == n,
            forall|c: int| 0 <= c < s.cells() ==> (#[trigger] control@[c]) as int == s.control_of(c),
            forall|i: int|
                0 <= i < n ==> (#[trigger] counts@[i]) == count_of(
                    s.snake_control().take(k as int),
                    i,
                ) && counts@[i] <= k,
        decreases control.len() - k,
    {
        let owner = control[k];
        proof {
            lemma_control_shape(s, k as int);
            let grown = s.snake_control().take(k + 1);
            assert(grown.drop_last() =~= s.snake_control().take(k as int));
            assert(grown.last() == s.control_of(k as int));
        }
        if owner >= 0 {
            let who = owner as usize;
            let had = counts[who];
            counts.set(who, had + 1);
        }
        k += 1;
    }
    proof {
        assert(s.snake_control().take(k as int) =~= s.snake_control());
    }
    counts
}

/// How many cells snake `snake_index` controls after a move of its own: the
/// snake is moved in `direction` on a copy of the board, the turn is ended,
/// and the cells of the first snake with its name are counted. 0 if there
/// is no such snake.
pub fn calculate_move_control_cells(
    game_state: &GameState,
    snake_index: usize,
    direction: Direction,
) -> (cells: usize)
    requires
        game_state@.well_sized(),
        game_state@.snakes.len() <= 128,
    ensures
        cells == game_state@.move_control_cells(snake_index as int, direction),
{
    if snake_index >= game_state.snakes.len() {
        return 0;
    }
    let ghost s = game_state@;
    let mut after = game_state.clone();
    after.move_snake(snake_index, direction);
    after.resolve_collisions();
    proof {
        let moved = s.advance(snake_index as int, direction);
        crate::simulation_laws::lemma_turn_keeps_names(s, snake_index as int, direction);
        crate::simulation_laws::lemma_turn_keeps_names(moved, snake_index as int, direction);
        assert(after@.snakes[snake_index as int].id == s.snakes[snake_index as int].id);
    }
    match after.find_snake(game_state.snakes[snake_index].id.as_str()) {
        Some(found) => {
            let counts = calculate_control_counts(&after);
            proof {
                crate::game_state::lemma_index_of_id_shape(
                    after@,
                    s.snakes[snake_index as int].id,
                    after@.snakes.len() as int,
                );
            }
            counts[found]
        },
        None => {
            proof {
                crate::game_state::lemma_index_of_id_shape(
                    after@,
                    s.snakes[snake_index as int].id,
                    after@.snakes.len() as int,
                );
            }
            0
        },
    }
}

} // verus!
