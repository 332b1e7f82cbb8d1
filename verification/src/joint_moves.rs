//! Joint moves: one choice for every snake of a board, all of them taken in
//! the same turn.

use crate::game_state::{Direction, GameState, GameStateView};
use vstd::prelude::*;

verus! {

/// The rows of a vector of vectors as sequences.
pub open spec fn rows<T>(v: Seq<Vec<T>>) -> Seq<Seq<T>> {
    Seq::new(v.len(), |i: int| v[i]@)
}

/// Every row of `rest` followed by every element of `pool`: the rows in
/// their order, and for each row the elements in theirs.
pub open spec fn extended<T>(rest: Seq<Seq<T>>, pool: Seq<T>) -> Seq<Seq<T>> {
    Seq::new(
        rest.len() * pool.len(),
        |i: int| rest[i / (pool.len() as int)].push(pool[i % (pool.len() as int)]),
    )
}

/// The Cartesian product of `lists`: every way to pick one element from each
/// list, the picks from the last list changing fastest.
pub open spec fn product<T>(lists: Seq<Seq<T>>) -> Seq<Seq<T>>
    decreases lists.len(),
{
    if lists.len() == 0 {
        seq![Seq::empty()]
    } else {
        extended(product(lists.drop_last()), lists.last())
    }
}

/// Every combination in a product picks one element from each list.
pub proof fn lemma_product_picks<T>(lists: Seq<Seq<T>>, i: int, j: int)
    requires
        0 <= i < product(lists).len(),
        0 <= j < lists.len(),
    ensures
        product(lists)[i].len() == lists.len(),
        lists[j].contains(product(lists)[i][j]),
    decreases lists.len(),
{
    let rest = product(lists.drop_last());
    let pool = lists.last();
    let m = pool.len() as int;
    assert(m > 0) by (nonlinear_arith)
        requires
            0 <= i < rest.len() * m,
            m >= 0,
    ;
    let a = i / m;
    let b = i % m;
    vstd::arithmetic::div_mod::lemma_fundamental_div_mod(i, m);
    assert(0 <= a < rest.len()) by (nonlinear_arith)
        requires
            i == m * a + b,
            0 <= b < m,
            0 <= i < rest.len() * m,
    ;
    if lists.len() > 1 {
        lemma_product_picks(lists.drop_last(), a, 0);
    }
    assert(rest[a].len() == lists.len() - 1);
    if j < lists.len() - 1 {
        lemma_product_picks(lists.drop_last(), a, j);
        assert(lists.drop_last()[j] == lists[j]);
    } else {
        assert(pool[b] == product(lists)[i][j]);
    }
}

/// A copy of `row`.
pub fn copy_row<T: Copy>(row: &Vec<T>) -> (r: Vec<T>)
    ensures
        r@ == row@,
{
    let mut r: Vec<T> = Vec::new();
    let mut k: usize = 0;
    while k < row.len()
        invariant
            k <= row.len(),
            r@ == row@.take(k as int),
        decreases row.len() - k,
    {
        r.push(row[k]);
        k += 1;
        assert(r@ =~= row@.take(k as int));
    }
    assert(row@.take(k as int) =~= row@);
    r
}

/// The Cartesian product of `lists`: see `product`.
pub fn cartesian_product<T: Copy>(lists: &[Vec<T>]) -> (result: Vec<Vec<T>>)
    ensures
        rows(result@) == product(rows(lists@)),
{
    let ghost all = rows(lists@);
    let mut result: Vec<Vec<T>> = Vec::new();
    result.push(Vec::new());
    let mut p: usize = 0;
    proof {
        assert(all.take(0) =~= Seq::empty());
        assert(rows(result@) =~= product(all.take(0)));
    }
    while p < lists.len()
        invariant
            p <= lists.len(),
            all == rows(lists@),
            rows(result@) == product(all.take(p as int)),
        decreases lists.len() - p,
    {
        let pool = &lists[p];
        let ghost m = pool@.len() as int;
        let ghost rest = rows(result@);
        let mut temp: Vec<Vec<T>> = Vec::new();
        let mut a: usize = 0;
        while a < result.len()
            invariant
                a <= result.len(),
                m == pool@.len(),
                rest == rows(result@),
                temp@.len() == a * m,
                forall|i: int|
                    0 <= i < temp@.len() ==> (#[trigger] temp@[i])@ == rest[i / m].push(pool@[i % m]),
            decreases result.len() - a,
        {
            let mut b: usize = 0;
            while b < pool.len()
                invariant
                    b <= pool.len(),
                    a < result.len(),
                    m == pool@.len(),
                    rest == rows(result@),
                    temp@.len() == a * m + b,
                    forall|i: int|
                        0 <= i < temp@.len() ==> (#[trigger] temp@[i])@ == rest[i / m].push(
                            pool@[i % m],
                        ),
                decreases pool.len() - b,
            {
                let mut x = copy_row(&result[a]);
                x.push(pool[b]);
                proof {
                    assert(m > 0);
                    vstd::arithmetic::div_mod::lemma_fundamental_div_mod_converse(
                        a * m + b,
                        m,
                        a as int,
                        b as int,
                    );
                }
                temp.push(x);
                b += 1;
            }
            proof {
                assert(a * m + m == (a + 1) * m) by (nonlinear_arith);
            }
            a += 1;
        }
        proof {
            let grown = all.take(p + 1);
            assert(grown.drop_last() =~= all.take(p as int));
            assert(grown.last() == pool@);
            assert(rows(temp@) =~= extended(rest, pool@));
        }
        result = temp;
        p += 1;
    }
    proof {
        assert(all.take(p as int) =~= all);
    }
    result
}

impl GameStateView {
    /// What snake `j` may do in a joint move: each of its safe moves, or
    /// nothing at all if it has none.
    pub open spec fn options(self, j: int) -> Seq<Option<Direction>> {
        if self.safe_moves(j).len() == 0 {
            seq![None]
        } else {
            Seq::new(self.safe_moves(j).len(), |k: int| Some(self.safe_moves(j)[k]))
        }
    }

    /// The joint moves of the board: every way to pick one option for each
    /// snake.
    pub open spec fn joint_moves(self) -> Seq<Seq<Option<Direction>>> {
        product(Seq::new(self.snakes.len(), |j: int| self.options(j)))
    }

    /// The board after the first `k` snakes have taken their part of
    /// `moves`.
    pub open spec fn moved_by(self, moves: Seq<Option<Direction>>, k: int) -> GameStateView
        decreases k,
    {
        if k <= 0 {
            self
        } else {
            let before = self.moved_by(moves, k - 1);
            match moves[k - 1] {
                Some(direction) => before.advance(k - 1, direction),
                None => before,
            }
        }
    }

    /// The board one turn after `moves`: every snake has moved, and the turn
    /// has ended.
    pub open spec fn after_joint_move(self, moves: Seq<Option<Direction>>) -> GameStateView {
        self.moved_by(moves, moves.len() as int).resolved()
    }
}

/// Moving snakes changes neither the size of the board, nor its hazards,
/// nor the number of snakes.
pub proof fn lemma_moved_by_keeps(s: GameStateView, moves: Seq<Option<Direction>>, k: int)
    ensures
        s.moved_by(moves, k).width == s.width,
        s.moved_by(moves, k).height == s.height,
        s.moved_by(moves, k).hazards == s.hazards,
        s.moved_by(moves, k).food == s.food,
        s.moved_by(moves, k).snakes.len() == s.snakes.len(),
    decreases k,
{
    if k > 0 {
        lemma_moved_by_keeps(s, moves, k - 1);
    }
}

/// The joint moves of `game_state`, in the order of `GameStateView::joint_moves`.
pub fn joint_moves(game_state: &GameState) -> (r: Vec<Vec<Option<Direction>>>)
    requires
        game_state@.well_sized(),
    ensures
        rows(r@) == game_state@.joint_moves(),
{
    let ghost s = game_state@;
    let mut pools: Vec<Vec<Option<Direction>>> = Vec::new();
    let mut j: usize = 0;
    while j < game_state.snakes.len()
        invariant
            j <= game_state.snakes.len(),
            s == game_state@,
            s.well_sized(),
            pools@.len() == j,
            forall|q: int| 0 <= q < j ==> (#[trigger] pools@[q])@ == s.options(q),
        decreases game_state.snakes.len() - j,
    {
        let safe = game_state.get_safe_moves(j);
        let mut pool: Vec<Option<Direction>> = Vec::new();
        if safe.len() == 0 {
            pool.push(None);
            assert(pool@ =~= s.options(j as int));
        } else {
            let mut k: usize = 0;
            while k < safe.len()
                invariant
                    k <= safe.len(),
                    pool@.len() == k,
                    forall|q: int| 0 <= q < k ==> pool@[q] == Some(safe@[q]),
                decreases safe.len() - k,
            {
                pool.push(Some(safe[k]));
                k += 1;
            }
            assert(pool@ =~= s.options(j as int));
        }
        pools.push(pool);
        j += 1;
    }
    let r = cartesian_product(pools.as_slice());
    proof {
        assert(rows(pools@) =~= Seq::new(s.snakes.len(), |q: int| s.options(q)));
    }
    r
}

/// Plays one turn on a copy of `game_state`: every snake takes its part of
/// `moves`, then the turn is ended.
pub fn play_joint_move(game_state: &GameState, moves: &Vec<Option<Direction>>) -> (r: GameState)
    requires
        game_state@.well_sized(),
    ensures
        r@ == game_state@.after_joint_move(moves@),
{
    let ghost s = game_state@;
    let mut next = game_state.clone();
    let mut k: usize = 0;
    while k < moves.len()
        invariant
            k <= moves.len(),
            s.well_sized(),
            next@ == s.moved_by(moves@, k as int),
        decreases moves.len() - k,
    {
        proof {
            lemma_moved_by_keeps(s, moves@, k as int);
        }
        match moves[k] {
            Some(direction) => {
                next.move_snake(k, direction);
            },
            None => {},
        }
        k += 1;
    }
    next.resolve_collisions();
    next
}

} // verus!
