//! What holds of every board when a turn is played: theorems about
//! `GameStateView::advance` and `GameStateView::resolved`.

use crate::game_state::{Direction, GameStateView, Position, step_cell, OFF_BOARD};
use vstd::prelude::*;

verus! {

/// Whatever a filter keeps passes its test.
pub proof fn lemma_filter_member<A>(s: Seq<A>, pred: spec_fn(A) -> bool, x: A)
    requires
        s.filter(pred).contains(x),
    ensures
        pred(x),
        s.contains(x),
    decreases s.len(),
{
    reveal(Seq::filter);
    if s.len() > 0 {
        let rest = s.drop_last();
        let kept = rest.filter(pred);
        if kept.contains(x) {
            lemma_filter_member(rest, pred, x);
            let k = choose|k: int| 0 <= k < rest.len() && rest[k] == x;
            assert(s[k] == x);
        } else {
            assert(pred(s.last()));
            let k = choose|k: int| 0 <= k < s.filter(pred).len() && s.filter(pred)[k] == x;
            assert(k == kept.len());
            assert(s[s.len() - 1] == x);
        }
    }
}

/// A filter whose test every element passes keeps the sequence as it is.
pub proof fn lemma_filter_all<A>(s: Seq<A>, pred: spec_fn(A) -> bool)
    requires
        forall|k: int| 0 <= k < s.len() ==> pred(#[trigger] s[k]),
    ensures
        s.filter(pred) == s,
    decreases s.len(),
{
    reveal(Seq::filter);
    if s.len() > 0 {
        let rest = s.drop_last();
        assert forall|k: int| 0 <= k < rest.len() implies pred(#[trigger] rest[k]) by {
            assert(rest[k] == s[k]);
        }
        lemma_filter_all(rest, pred);
        assert(rest.push(s.last()) =~= s);
    }
}

/// Eating changes neither who lives nor where a head is.
pub proof fn lemma_feed_keeps_heads(s: GameStateView, i: int)
    requires
        0 <= i < s.snakes.len(),
    ensures
        s.feed().snakes.len() == s.snakes.len(),
        s.feed().snakes[i].alive() == s.snakes[i].alive(),
        s.feed().snakes[i].head() == s.snakes[i].head(),
        s.feed().snakes[i].id == s.snakes[i].id,
        s.feed().snakes[i].body.len() >= s.snakes[i].body.len(),
        forall|k: int|
            0 <= k < s.snakes[i].body.len() ==> s.feed().snakes[i].body[k] == s.snakes[i].body[k],
{
}

/// Ending a turn twice is ending it once, on every board whose first ending
/// leaves no two living snakes with their heads on one cell. (Two snakes that
/// outlast a shorter third on one cell would meet again the second time.)
pub proof fn lemma_resolve_idempotent(s: GameStateView)
    requires
        forall|i: int, j: int|
            0 <= i < j < s.snakes.len() && s.resolved().snakes[i].alive()
                && s.resolved().snakes[j].alive() ==> s.resolved().snakes[i].head()
                != s.resolved().snakes[j].head(),
    ensures
        s.resolved().resolved() == s.resolved(),
{
    let m = s.feed();
    let r = m.settle();
    let n = s.snakes.len() as int;
    assert(r == s.resolved());
    assert forall|i: int| 0 <= i < n implies (r.snakes[i].alive() ==> s.snakes[i].alive()
        && !m.doomed(i)) && r.snakes[i].head() == s.snakes[i].head() && r.snakes[i].body
        == m.snakes[i].body by {
        lemma_feed_keeps_heads(s, i);
    }
    // Nothing is left to eat.
    assert forall|i: int| 0 <= i < n implies !r.feeds(i) by {
        if r.snakes[i].alive() && r.food.contains(r.snakes[i].head()) {
            lemma_filter_member(s.food, s.keeps_food(), r.snakes[i].head());
            assert(s.live_head_at(i, r.snakes[i].head()));
        }
    }
    assert forall|k: int| 0 <= k < r.food.len() implies (r.keeps_food())(#[trigger] r.food[k]) by {
        let cell = r.food[k];
        assert(r.food.contains(cell));
        lemma_filter_member(s.food, s.keeps_food(), cell);
        if r.under_live_head(cell) {
            let j = choose|j: int| r.live_head_at(j, cell);
            assert(s.live_head_at(j, cell));
        }
    }
    lemma_filter_all(r.food, r.keeps_food());
    assert(r.feed().snakes =~= r.snakes);
    assert(r.feed() == r);
    // Nobody is left to die.
    assert forall|i: int| 0 <= i < n implies !r.doomed(i) by {
        if r.snakes[i].alive() {
            if r.loses_head_on(i) {
                let j = choose|j: int| r.meets(i, j);
                assert(r.snakes[i].head() == r.snakes[j].head());
                if i < j {
                    assert(0 <= i < j < n);
                } else {
                    assert(0 <= j < i < n);
                }
            }
            if r.hits_body(i) {
                let (j, k) = choose|j: int, k: int| r.live_body_at(j, k, r.snakes[i].head());
                assert(m.live_body_at(j, k, m.snakes[i].head()));
            }
        }
    }
    assert(r.settle().snakes =~= r.snakes);
}

/// A snake that eats ends the turn with its last segment doubled, and no food
/// is left on the cell of its head. Its health is 100, unless it dies in the
/// same turn.
pub proof fn lemma_eating_grows(s: GameStateView, i: int)
    requires
        s.feeds(i),
        s.snakes[i].body.len() > 0,
    ensures
        s.resolved().snakes[i].body == s.snakes[i].body.push(s.snakes[i].body.last()),
        s.resolved().snakes[i].body.len() == s.snakes[i].body.len() + 1,
        !s.resolved().food.contains(s.snakes[i].head()),
        s.resolved().snakes[i].health == if s.feed().doomed(i) {
            0u8
        } else {
            100u8
        },
{
    let head = s.snakes[i].head();
    if s.resolved().food.contains(head) {
        lemma_filter_member(s.food, s.keeps_food(), head);
        assert(s.live_head_at(i, head));
    }
}

/// A snake that is moved onto a food cell, and is there the first living
/// snake, is one segment longer at the end of the turn than before the move.
pub proof fn lemma_moving_onto_food_grows(s: GameStateView, i: int, direction: Direction)
    requires
        s.can_move(i),
        s.advance(i, direction).feeds(i),
    ensures
        s.advance(i, direction).resolved().snakes[i].body.len() == s.snakes[i].body.len() + 1,
        !s.advance(i, direction).resolved().food.contains(
            Position {
                index: step_cell(s.width, s.height, s.snakes[i].head().index, direction),
            },
        ),
        !s.advance(i, direction).feed().doomed(i) ==> s.advance(
            i,
            direction,
        ).resolved().snakes[i].health == 100,
{
    let a = s.advance(i, direction);
    lemma_eating_grows(a, i);
}

/// A snake whose head is off the board has health 0 at the end of the turn.
pub proof fn lemma_off_board_dies(s: GameStateView, i: int)
    requires
        0 <= i < s.snakes.len(),
        s.snakes[i].head().index == OFF_BOARD,
    ensures
        s.resolved().snakes[i].health == 0,
{
    lemma_feed_keeps_heads(s, i);
}

/// A snake that is moved off the board has health 0 at the end of the turn.
pub proof fn lemma_leaving_board_dies(s: GameStateView, i: int, direction: Direction)
    requires
        s.can_move(i),
        step_cell(s.width, s.height, s.snakes[i].head().index, direction) == OFF_BOARD,
    ensures
        s.advance(i, direction).resolved().snakes[i].health == 0,
        s.advance(i, direction).resolved().snakes[i].head().index == OFF_BOARD,
{
    let a = s.advance(i, direction);
    lemma_feed_keeps_heads(a, i);
}

/// Two living snakes alone on one cell, as long as each other once they have
/// eaten: both have health 0 at the end of the turn.
pub proof fn lemma_equal_heads_both_die(s: GameStateView, i: int, j: int)
    requires
        0 <= i < s.snakes.len(),
        0 <= j < s.snakes.len(),
        i != j,
        s.snakes[i].alive(),
        s.snakes[j].alive(),
        s.snakes[i].head() == s.snakes[j].head(),
        forall|k: int| s.meets(i, k) ==> k == j,
        s.feed().snakes[i].body.len() == s.feed().snakes[j].body.len(),
    ensures
        s.resolved().snakes[i].health == 0,
        s.resolved().snakes[j].health == 0,
{
    let m = s.feed();
    lemma_feed_keeps_heads(s, i);
    lemma_feed_keeps_heads(s, j);
    assert(m.meets(i, j));
    assert(m.meets(j, i));
    assert forall|k: int| m.meets(i, k) implies m.snakes[k].body.len() == m.snakes[i].body.len() by {
        lemma_feed_keeps_heads(s, k);
        assert(s.meets(i, k));
    }
    assert forall|k: int| m.meets(j, k) implies m.snakes[k].body.len() == m.snakes[j].body.len() by {
        lemma_feed_keeps_heads(s, k);
        assert(s.meets(i, k) || k == i);
    }
    assert(m.loses_head_on(i));
    assert(m.loses_head_on(j));
}

/// Two living snakes alone on one cell, snake `i` the shorter once they have
/// eaten: the shorter has health 0 at the end of the turn, and the longer
/// lives on unless it is off the board or has run into a body.
pub proof fn lemma_shorter_loses_head_on(s: GameStateView, i: int, j: int)
    requires
        0 <= i < s.snakes.len(),
        0 <= j < s.snakes.len(),
        i != j,
        s.snakes[i].alive(),
        s.snakes[j].alive(),
        s.snakes[i].head() == s.snakes[j].head(),
        forall|k: int| s.meets(i, k) ==> k == j,
        s.feed().snakes[i].body.len() < s.feed().snakes[j].body.len(),
    ensures
        s.resolved().snakes[i].health == 0,
        s.resolved().snakes[j].alive() <==> s.snakes[j].head().index != OFF_BOARD
            && !s.feed().hits_body(j),
{
    let m = s.feed();
    lemma_feed_keeps_heads(s, i);
    lemma_feed_keeps_heads(s, j);
    assert(m.meets(i, j));
    assert(m.loses_head_on(i));
    assert forall|k: int| m.meets(j, k) implies k == i by {
        lemma_feed_keeps_heads(s, k);
        assert(s.meets(i, k) || k == i);
    }
    assert(m.meets(j, i));
    assert(!m.loses_head_on(j));
}

/// A snake whose head is on no food cell is not changed by the eating of
/// others.
pub proof fn lemma_unfed_unchanged(s: GameStateView, i: int)
    requires
        0 <= i < s.snakes.len(),
        !s.food.contains(s.snakes[i].head()),
    ensures
        s.feed().snakes[i] == s.snakes[i],
{
}

/// Two living snakes of one length, alone on one cell without food: both
/// have health 0 at the end of the turn.
pub proof fn lemma_equal_snakes_head_on(s: GameStateView, i: int, j: int)
    requires
        0 <= i < s.snakes.len(),
        0 <= j < s.snakes.len(),
        i != j,
        s.snakes[i].alive(),
        s.snakes[j].alive(),
        s.snakes[i].head() == s.snakes[j].head(),
        forall|k: int| s.meets(i, k) ==> k == j,
        !s.food.contains(s.snakes[i].head()),
        s.snakes[i].body.len() == s.snakes[j].body.len(),
    ensures
        s.resolved().snakes[i].health == 0,
        s.resolved().snakes[j].health == 0,
{
    lemma_unfed_unchanged(s, i);
    lemma_unfed_unchanged(s, j);
    lemma_equal_heads_both_die(s, i, j);
}

/// Two living snakes alone on one cell without food, snake `i` the shorter:
/// the shorter has health 0 at the end of the turn, and the longer keeps its
/// health unless it is off the board or has run into a body.
pub proof fn lemma_unequal_snakes_head_on(s: GameStateView, i: int, j: int)
    requires
        0 <= i < s.snakes.len(),
        0 <= j < s.snakes.len(),
        i != j,
        s.snakes[i].alive(),
        s.snakes[j].alive(),
        s.snakes[i].head() == s.snakes[j].head(),
        forall|k: int| s.meets(i, k) ==> k == j,
        !s.food.contains(s.snakes[i].head()),
        s.snakes[i].body.len() < s.snakes[j].body.len(),
    ensures
        s.resolved().snakes[i].health == 0,
        s.resolved().snakes[j].health == if s.snakes[j].head().index != OFF_BOARD
            && !s.feed().hits_body(j) {
            s.snakes[j].health
        } else {
            0u8
        },
{
    lemma_unfed_unchanged(s, i);
    lemma_unfed_unchanged(s, j);
    lemma_shorter_loses_head_on(s, i, j);
}

/// Where the end of a turn leaves two living snakes with their heads on one
/// cell, ending the turn once more changes the board: one of the snakes on
/// that cell dies.
pub proof fn lemma_resolve_again_when_heads_stay_together(s: GameStateView, i: int, j: int)
    requires
        0 <= i < j < s.snakes.len(),
        s.resolved().snakes[i].alive(),
        s.resolved().snakes[j].alive(),
        s.resolved().snakes[i].head() == s.resolved().snakes[j].head(),
    ensures
        s.resolved().resolved() != s.resolved(),
{
    let r = s.resolved();
    let m = r.feed();
    lemma_feed_keeps_heads(r, i);
    lemma_feed_keeps_heads(r, j);
    assert(m.meets(i, j));
    if m.loses_head_on(i) {
        assert(m.doomed(i));
        assert(m.settle().snakes[i].health == 0);
        assert(r.resolved().snakes[i].health != r.snakes[i].health);
    } else {
        let k = choose|k: int| m.meets(i, k) && m.snakes[k].body.len() != m.snakes[i].body.len();
        lemma_feed_keeps_heads(r, k);
        assert(m.snakes[k].body.len() < m.snakes[i].body.len());
        assert(m.meets(k, i));
        assert(m.loses_head_on(k));
        assert(m.doomed(k));
        assert(m.settle().snakes[k].health == 0);
        assert(r.snakes[k].alive());
        assert(r.resolved().snakes[k].health != r.snakes[k].health);
    }
}

/// A turn changes neither the size of the board, nor the number of snakes,
/// nor their names.
pub proof fn lemma_turn_keeps_names(s: GameStateView, i: int, direction: Direction)
    ensures
        s.advance(i, direction).snakes.len() == s.snakes.len(),
        s.advance(i, direction).width == s.width,
        s.advance(i, direction).height == s.height,
        s.resolved().snakes.len() == s.snakes.len(),
        s.resolved().width == s.width,
        s.resolved().height == s.height,
        s.resolved().hazards == s.hazards,
        forall|j: int|
            0 <= j < s.snakes.len() ==> (#[trigger] s.advance(i, direction).snakes[j]).id
                == s.snakes[j].id,
        forall|j: int|
            0 <= j < s.snakes.len() ==> (#[trigger] s.resolved().snakes[j]).id == s.snakes[j].id,
{
}

} // verus!
