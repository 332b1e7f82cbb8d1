//! Monte-Carlo tree search over joint moves. The tree is an arena: a node
//! names its parent and its children by their indices, the root is node 0,
//! and a child always stands behind its parent.

use crate::game_state::{Direction, GameState, GameStateView, SnakeView};
use crate::heuristic::calculate_control_counts;
use crate::joint_moves::{
    copy_row, joint_moves, lemma_moved_by_keeps, lemma_product_picks, play_joint_move, rows,
};
use crate::simulation_laws::lemma_turn_keeps_names;
use vstd::prelude::*;

verus! {

/// The most that one evaluation adds to the score of a snake.
pub const SCORE_LIMIT: u128 = 0xffff_ffff_ffff_ffff;

/// A node of the search tree: a board, how often the search came through it,
/// and for each snake the sum of its scores over those visits. A score is a
/// number of cells: the share of the board times the number of its cells.
#[derive(Debug)]
pub struct Node {
    pub game_state: GameState,
    pub total_value: Vec<u128>,
    pub visits: u32,
    pub children: Vec<usize>,
    pub moves: Vec<Option<Direction>>,
    pub parent: Option<usize>,
}

/// What the priority of a child is computed from.
#[derive(Debug, Clone, Copy)]
pub struct ChildStats {
    /// The visits of the parent.
    pub parent_visits: u32,
    /// The visits of the child, not 0.
    pub visits: u32,
    /// The scores of all snakes over all visits of the child, added up.
    pub total: u128,
    /// The number of snakes.
    pub snakes: usize,
    /// The number of cells of the board.
    pub cells: usize,
}

/// The search tree.
#[derive(Debug)]
pub struct MCTS {
    nodes: Vec<Node>,
}

/// How many of `snakes` live.
pub open spec fn alive_count(snakes: Seq<SnakeView>) -> nat
    decreases snakes.len(),
{
    if snakes.len() == 0 {
        0
    } else {
        alive_count(snakes.drop_last()) + if snakes.last().alive() {
            1nat
        } else {
            0nat
        }
    }
}

impl GameStateView {
    /// Whether the game is over: at most one snake lives.
    pub open spec fn terminal(self) -> bool {
        alive_count(self.snakes) <= 1
    }

    /// The score of each snake on this board, in cells. When the game is
    /// over a living snake has all cells and a dead one none; else each snake
    /// has the cells that it controls.
    pub open spec fn outcome(self) -> Seq<nat> {
        if self.terminal() {
            Seq::new(
                self.snakes.len(),
                |j: int|
                    if self.snakes[j].alive() {
                        self.cells() as nat
                    } else {
                        0nat
                    },
            )
        } else {
            self.control_counts()
        }
    }
}

/// Whether node `i` is what a child must be: it stands behind its parent, was
/// not visited more often, and its board is the parent's one turn after one
/// of the parent's joint moves.
pub open spec fn child_ok(nodes: Seq<Node>, i: int) -> bool {
    match nodes[i].parent {
        None => false,
        Some(p) => {
            &&& p < i
            &&& nodes[i].visits <= nodes[p as int].visits
            &&& nodes[p as int].game_state@.joint_moves().contains(nodes[i].moves@)
            &&& nodes[i].game_state@ == nodes[p as int].game_state@.after_joint_move(
                nodes[i].moves@,
            )
        },
    }
}

/// Whether node `i` fits into the tree.
pub open spec fn node_ok(nodes: Seq<Node>, i: int) -> bool {
    let node = nodes[i];
    &&& node.total_value@.len() == node.game_state@.snakes.len()
    &&& node.game_state@.snakes.len() == nodes[0].game_state@.snakes.len()
    &&& node.game_state@.width == nodes[0].game_state@.width
    &&& node.game_state@.height == nodes[0].game_state@.height
    &&& forall|j: int|
        0 <= j < node.total_value@.len() ==> (#[trigger] node.total_value@[j]) <= node.visits
            * SCORE_LIMIT
    &&& if i == 0 {
        node.parent is None
    } else {
        child_ok(nodes, i)
    }
    &&& forall|k: int|
        0 <= k < node.children@.len() ==> i < (#[trigger] node.children@[k]) < nodes.len()
            && nodes[node.children@[k] as int].parent == Some(i as usize)
}

/// Whether `nodes` is a search tree.
pub open spec fn tree_ok(nodes: Seq<Node>) -> bool {
    &&& nodes.len() >= 1
    &&& nodes[0].game_state@.in_limits()
    &&& forall|i: int| 0 <= i < nodes.len() ==> #[trigger] node_ok(nodes, i)
}

/// Whether `after` is `before` grown: the nodes of `before` are still there,
/// each with its board, its moves and its parent.
pub open spec fn grown_from(after: Seq<Node>, before: Seq<Node>) -> bool {
    &&& before.len() <= after.len()
    &&& forall|i: int|
        0 <= i < before.len() ==> (#[trigger] after[i]).game_state@ == before[i].game_state@
            && after[i].moves@ == before[i].moves@ && after[i].parent == before[i].parent
}

/// Whether `a` is node `i` or one of the nodes above it.
pub open spec fn on_path(nodes: Seq<Node>, a: int, i: int) -> bool
    decreases i,
{
    a == i || match nodes[i].parent {
        Some(p) => p < i && on_path(nodes, a, p as int),
        None => false,
    }
}

/// The sum of `values`.
pub open spec fn sum_of(values: Seq<u128>) -> nat
    decreases values.len(),
{
    if values.len() == 0 {
        0
    } else {
        sum_of(values.drop_last()) + values.last() as nat
    }
}

/// What the priority of child `c` of node `i` is computed from.
pub open spec fn stats_of(nodes: Seq<Node>, i: int, c: int) -> ChildStats {
    ChildStats {
        parent_visits: nodes[i].visits,
        visits: nodes[c].visits,
        total: sum_of(nodes[c].total_value@) as u128,
        snakes: nodes[c].game_state@.snakes.len() as usize,
        cells: nodes[c].game_state@.cells() as usize,
    }
}

/// Whether the `a`-th child of node `i` is at least as urgent as the `b`-th:
/// a child never visited is as urgent as can be, and among the others the
/// greater key is the more urgent.
pub open spec fn outranks(nodes: Seq<Node>, i: int, keys: Seq<u64>, a: int, b: int) -> bool {
    let ca = nodes[i].children@[a] as int;
    let cb = nodes[i].children@[b] as int;
    nodes[ca].visits == 0 || (nodes[cb].visits > 0 && keys[a] >= keys[b])
}

/// Whether the `k`-th child of node `i` is the one to descend to, given the
/// keys that `priority` has handed out for the children visited before: it
/// is at least as urgent as every child, and more urgent than every child
/// behind it.
pub open spec fn selects<F: Fn(ChildStats) -> u64>(
    nodes: Seq<Node>,
    i: int,
    priority: F,
    keys: Seq<u64>,
    k: int,
) -> bool {
    let children = nodes[i].children@;
    &&& keys.len() == children.len()
    &&& 0 <= k < children.len()
    &&& forall|m: int|
        0 <= m < children.len() && nodes[children[m] as int].visits > 0 ==> call_ensures(
            priority,
            (stats_of(nodes, i, children[m] as int),),
            #[trigger] keys[m],
        )
    &&& forall|m: int| 0 <= m < children.len() ==> #[trigger] outranks(nodes, i, keys, k, m)
    &&& forall|m: int| k < m < children.len() ==> !#[trigger] outranks(nodes, i, keys, m, k)
}

/// Among the first `n` children of node `i` the one visited most often, the
/// last of them if there are several.
pub open spec fn most_visited(nodes: Seq<Node>, i: int, n: int) -> int
    decreases n,
{
    if n <= 1 {
        0
    } else {
        let before = most_visited(nodes, i, n - 1);
        if nodes[nodes[i].children@[n - 1] as int].visits >= nodes[nodes[i].children@[before] as int].visits {
            n - 1
        } else {
            before
        }
    }
}

/// The move that the search advises for the snake named `id`: its part of
/// the joint move that leads to the most visited child of the root. None
/// where the root has no children, where no snake is so named, and where
/// that snake has no part in the move.
pub open spec fn best_move(nodes: Seq<Node>, id: Seq<char>) -> Option<Direction> {
    let root = nodes[0];
    let who = root.game_state@.snake_named(id);
    if root.children@.len() == 0 || who < 0 {
        None
    } else {
        let best = nodes[root.children@[most_visited(nodes, 0, root.children@.len() as int)] as int];
        if who < best.moves@.len() {
            best.moves@[who]
        } else {
            None
        }
    }
}

/// A turn after a joint move leaves the board within its limits.
pub proof fn lemma_joint_move_keeps(s: GameStateView, moves: Seq<Option<Direction>>)
    ensures
        s.after_joint_move(moves).width == s.width,
        s.after_joint_move(moves).height == s.height,
        s.after_joint_move(moves).snakes.len() == s.snakes.len(),
{
    lemma_moved_by_keeps(s, moves, moves.len() as int);
    lemma_turn_keeps_names(s.moved_by(moves, moves.len() as int), 0, Direction::Up);
}

/// No node of a search tree was visited more often than the root.
pub proof fn lemma_root_most_visited(nodes: Seq<Node>, i: int)
    requires
        tree_ok(nodes),
        0 <= i < nodes.len(),
    ensures
        nodes[i].visits <= nodes[0].visits,
    decreases i,
{
    assert(node_ok(nodes, i));
    if i > 0 {
        lemma_root_most_visited(nodes, nodes[i].parent.unwrap() as int);
    }
}

/// The nodes on the path to a node stand no later than the node.
pub proof fn lemma_on_path_before(nodes: Seq<Node>, a: int, i: int)
    requires
        on_path(nodes, a, i),
        0 <= i,
    ensures
        a <= i,
    decreases i,
{
    if a != i {
        lemma_on_path_before(nodes, a, nodes[i].parent.unwrap() as int);
    }
}

/// The parent of a node on a path is on that path too.
pub proof fn lemma_on_path_parent(nodes: Seq<Node>, a: int, i: int)
    requires
        0 <= a < nodes.len(),
        0 <= i < nodes.len(),
        on_path(nodes, a, i),
        nodes[a].parent is Some,
        nodes[a].parent.unwrap() < a,
    ensures
        on_path(nodes, nodes[a].parent.unwrap() as int, i),
    decreases i,
{
    let p = nodes[a].parent.unwrap() as int;
    if a != i {
        lemma_on_path_parent(nodes, a, nodes[i].parent.unwrap() as int);
    } else {
        assert(on_path(nodes, p, p));
    }
}

/// Every part of a joint move of a board is a safe move of its snake, or
/// nothing.
pub proof fn lemma_joint_move_safe(s: GameStateView, moves: Seq<Option<Direction>>, j: int)
    requires
        s.joint_moves().contains(moves),
        0 <= j < s.snakes.len(),
    ensures
        moves.len() == s.snakes.len(),
        moves[j] matches Some(d) ==> s.safe_moves(j).contains(d),
{
    let pools = Seq::new(s.snakes.len(), |q: int| s.options(q));
    let x = choose|x: int| 0 <= x < s.joint_moves().len() && s.joint_moves()[x] == moves;
    lemma_product_picks(pools, x, j);
    let k = choose|k: int| 0 <= k < pools[j].len() && pools[j][k] == moves[j];
    if s.safe_moves(j).len() > 0 {
        assert(moves[j] == Some(s.safe_moves(j)[k]));
    }
}

/// Adds to each entry of `totals` the entry of `value` at its place.
fn add_scores(totals: &mut Vec<u128>, value: &Vec<usize>, Ghost(visits): Ghost<int>)
    requires
        old(totals)@.len() == value@.len(),
        0 <= visits < 0xffff_ffff,
        forall|j: int|
            0 <= j < value@.len() ==> (#[trigger] old(totals)@[j]) <= visits * SCORE_LIMIT,
    ensures
        final(totals)@.len() == value@.len(),
        forall|j: int|
            0 <= j < value@.len() ==> (#[trigger] final(totals)@[j]) == old(totals)@[j] + value@[j],
        forall|j: int|
            0 <= j < value@.len() ==> (#[trigger] final(totals)@[j]) <= (visits + 1) * SCORE_LIMIT,
{
    proof {
        assert(visits * SCORE_LIMIT + SCORE_LIMIT == (visits + 1) * SCORE_LIMIT) by (nonlinear_arith);
        assert((visits + 1) * SCORE_LIMIT <= 0xffff_ffff * SCORE_LIMIT) by (nonlinear_arith)
            requires
                visits + 1 <= 0xffff_ffff,
        ;
    }
    let mut j: usize = 0;
    while j < value.len()
        invariant
            j <= value.len(),
            totals@.len() == value@.len(),
            visits * SCORE_LIMIT + SCORE_LIMIT == (visits + 1) * SCORE_LIMIT,
            (visits + 1) * SCORE_LIMIT <= 0xffff_ffff * SCORE_LIMIT,
            forall|q: int| 0 <= q < j ==> (#[trigger] totals@[q]) == old(totals)@[q] + value@[q],
            forall|q: int| j <= q < value@.len() ==> (#[trigger] totals@[q]) == old(totals)@[q],
            forall|q: int|
                0 <= q < value@.len() ==> (#[trigger] old(totals)@[q]) <= visits * SCORE_LIMIT,
        decreases value.len() - j,
    {
        let had = totals[j];
        assert(had == old(totals)@[j as int]);
        totals.set(j, had + value[j] as u128);
        j += 1;
    }
}

/// The root is on the path to every node.
pub proof fn lemma_root_on_path(nodes: Seq<Node>, i: int)
    requires
        tree_ok(nodes),
        0 <= i < nodes.len(),
    ensures
        on_path(nodes, 0, i),
    decreases i,
{
    assert(node_ok(nodes, i));
    if i > 0 {
        lemma_root_on_path(nodes, nodes[i].parent.unwrap() as int);
    }
}

/// Whether a round may go down from the root to node `stop`: every step on
/// the way leaves a board on which the game goes on, for a child that
/// `select_child` may name.
pub open spec fn descent_ok<F: Fn(ChildStats) -> u64>(
    nodes: Seq<Node>,
    priority: F,
    stop: int,
) -> bool {
    forall|c: int|
        0 < c && #[trigger] on_path(nodes, c, stop) ==> {
            let a = nodes[c].parent.unwrap() as int;
            &&& !nodes[a].game_state@.terminal()
            &&& exists|keys: Seq<u64>, k: int|
                selects(nodes, a, priority, keys, k) && nodes[a].children@[k] == c
        }
}

/// Whether node `a` has after a round that ended at `leaf` the visits and
/// scores that it had before, and one visit and the scores of the board of
/// `leaf` more if it is on the path to `leaf`. A new node had none before.
pub open spec fn counted(before: Seq<Node>, after: Seq<Node>, leaf: int, a: int) -> bool {
    let on = on_path(after, a, leaf);
    let value = after[leaf].game_state@.outcome();
    &&& after[a].visits == if a < before.len() {
        before[a].visits as int
    } else {
        0int
    } + if on {
        1int
    } else {
        0int
    }
    &&& after[a].total_value@.len() == value.len()
    &&& forall|j: int|
        0 <= j < value.len() ==> (#[trigger] after[a].total_value@[j]) == if a < before.len() {
            before[a].total_value@[j] as int
        } else {
            0int
        } + if on {
            value[j] as int
        } else {
            0int
        }
}

/// Whether `after` is `before` one round later, the round having ended at
/// `leaf`. The round went down to a node `stop`. If the game is over there,
/// `stop` is `leaf` and the tree has not grown. Else `stop` had no children
/// and got one for each joint move of its board, in their order, and `leaf`
/// is the first of them. The round was counted on the path to `leaf`, and
/// nowhere else.
pub open spec fn round_of<F: Fn(ChildStats) -> u64>(
    before: Seq<Node>,
    after: Seq<Node>,
    priority: F,
    leaf: int,
) -> bool {
    let stop = if leaf < before.len() {
        leaf
    } else {
        after[leaf].parent.unwrap() as int
    };
    let choices = before[stop].game_state@.joint_moves();
    let grows = !before[stop].game_state@.terminal();
    &&& 0 <= leaf < after.len()
    &&& 0 <= stop < before.len()
    &&& descent_ok(before, priority, stop)
    &&& grows ==> before[stop].children@.len() == 0
    &&& after.len() == before.len() + if grows {
        choices.len()
    } else {
        0nat
    }
    &&& leaf == if grows && choices.len() > 0 {
        before.len() as int
    } else {
        stop
    }
    &&& grown_from(after, before)
    &&& forall|a: int|
        0 <= a < before.len() && !(grows && a == stop) ==> (#[trigger] after[a]).children@
            == before[a].children@
    &&& grows ==> after[stop].children@ == Seq::new(
        choices.len(),
        |k: int| (before.len() + k) as usize,
    )
    &&& forall|k: int|
        0 <= k < after.len() - before.len() ==> {
            let child = #[trigger] after[before.len() + k];
            &&& child.moves@ == choices[k]
            &&& child.parent == Some(stop as usize)
            &&& child.children@.len() == 0
            &&& child.game_state@ == before[stop].game_state@.after_joint_move(choices[k])
        }
    &&& forall|a: int| 0 <= a < after.len() ==> #[trigger] counted(before, after, leaf, a)
}

/// Whether `after` is `before` after `n` rounds.
pub open spec fn rounds_of<F: Fn(ChildStats) -> u64>(
    before: Seq<Node>,
    after: Seq<Node>,
    priority: F,
    n: nat,
) -> bool {
    exists|trees: Seq<Seq<Node>>, leaves: Seq<int>|
        {
            &&& trees.len() == n + 1
            &&& leaves.len() == n
            &&& trees[0] == before
            &&& trees[n as int] == after
            &&& forall|i: int|
                0 <= i < n ==> tree_ok(#[trigger] trees[i]) && round_of(
                    trees[i],
                    trees[i + 1],
                    priority,
                    leaves[i],
                )
        }
}

/// Which nodes are on a path depends on the parents alone.
pub proof fn lemma_on_path_same(one: Seq<Node>, other: Seq<Node>, a: int, i: int)
    requires
        0 <= i < one.len() <= other.len(),
        forall|x: int| 0 <= x < one.len() ==> (#[trigger] one[x]).parent == other[x].parent,
    ensures
        on_path(one, a, i) == on_path(other, a, i),
    decreases i,
{
    if a != i {
        match one[i].parent {
            Some(p) => {
                if p < i {
                    lemma_on_path_same(one, other, a, p as int);
                }
            },
            None => {},
        }
    }
}

/// How many of the snakes of `game_state` live.
fn count_alive(game_state: &GameState) -> (r: usize)
    ensures
        r == alive_count(game_state@.snakes),
{
    let ghost snakes = game_state@.snakes;
    let mut count: usize = 0;
    let mut i: usize = 0;
    proof {
        assert(snakes.take(0) =~= Seq::empty());
    }
    while i < game_state.snakes.len()
        invariant
            i <= game_state.snakes.len(),
            snakes == game_state@.snakes,
            count == alive_count(snakes.take(i as int)),
            count <= i,
        decreases game_state.snakes.len() - i,
    {
        proof {
            assert(snakes.take(i + 1).drop_last() =~= snakes.take(i as int));
        }
        if game_state.snakes[i].health > 0 {
            count += 1;
        }
        i += 1;
    }
    proof {
        assert(snakes.take(i as int) =~= snakes);
    }
    count
}

/// The score of each snake on `game_state`, in cells: see
/// `GameStateView::outcome`.
pub fn evaluate(game_state: &GameState) -> (value: Vec<usize>)
    requires
        game_state@.in_limits(),
    ensures
        value@.len() == game_state@.snakes.len(),
        forall|j: int| 0 <= j < value@.len() ==> (#[trigger] value@[j]) == game_state@.outcome()[j],
{
    if MCTS::is_terminal(game_state) {
        let cells = game_state.width * game_state.height;
        let mut value: Vec<usize> = Vec::new();
        let mut j: usize = 0;
        while j < game_state.snakes.len()
            invariant
                j <= game_state.snakes.len(),
                cells == game_state@.cells(),
                game_state@.terminal(),
                value@.len() == j,
                forall|q: int| 0 <= q < j ==> (#[trigger] value@[q]) == game_state@.outcome()[q],
            decreases game_state.snakes.len() - j,
        {
            value.push(
                if game_state.snakes[j].health > 0 {
                    cells
                } else {
                    0
                },
            );
            j += 1;
        }
        value
    } else {
        calculate_control_counts(game_state)
    }
}

impl MCTS {
    /// The nodes of the tree, the root first.
    pub closed spec fn nodes(&self) -> Seq<Node> {
        self.nodes@
    }

    /// Whether the tree is a search tree.
    pub open spec fn well_formed(&self) -> bool {
        tree_ok(self.nodes())
    }

    /// A tree that holds `initial_state` at its root and nothing else.
    pub fn new(initial_state: GameState) -> (r: Self)
        requires
            initial_state@.in_limits(),
        ensures
            r.well_formed(),
            r.nodes().len() == 1,
            r.nodes()[0].game_state@ == initial_state@,
            r.nodes()[0].visits == 0,
            r.nodes()[0].children@.len() == 0,
    {
        let number_of_players = initial_state.snakes.len();
        let root = Node {
            game_state: initial_state,
            total_value: vec![0u128; number_of_players],
            visits: 0,
            children: Vec::new(),
            moves: Vec::new(),
            parent: None,
        };
        let mut nodes: Vec<Node> = Vec::new();
        nodes.push(root);
        let r = MCTS { nodes };
        assert(node_ok(r.nodes(), 0));
        r
    }

    /// The number of nodes.
    pub fn len(&self) -> (r: usize)
        ensures
            r == self.nodes().len(),
    {
        self.nodes.len()
    }

    /// Node `index`.
    pub fn node(&self, index: usize) -> (r: &Node)
        requires
            index < self.nodes().len(),
        ensures
            *r == self.nodes()[index as int],
    {
        &self.nodes[index]
    }

    /// The root.
    pub fn root(&self) -> (r: &Node)
        requires
            self.well_formed(),
        ensures
            *r == self.nodes()[0],
    {
        &self.nodes[0]
    }

    /// Gives node `index`, which has no children yet, one child for each
    /// joint move of its board, in their order: the board of the child is the
    /// board one turn after that move.
    pub fn expand(&mut self, index: usize)
        requires
            old(self).well_formed(),
            index < old(self).nodes().len(),
            old(self).nodes()[index as int].children@.len() == 0,
        ensures
            final(self).well_formed(),
            grown_from(final(self).nodes(), old(self).nodes()),
            final(self).nodes().len() == old(self).nodes().len() + old(self).nodes()[index as int].game_state@.joint_moves().len(),
            forall|i: int|
                0 <= i < old(self).nodes().len() ==> (#[trigger] final(self).nodes()[i]).visits
                    == old(self).nodes()[i].visits && final(self).nodes()[i].total_value
                    == old(self).nodes()[i].total_value && (i != index
                    ==> final(self).nodes()[i].children == old(self).nodes()[i].children),
            final(self).nodes()[index as int].children@ == Seq::new(
                old(self).nodes()[index as int].game_state@.joint_moves().len(),
                |k: int| (old(self).nodes().len() + k) as usize,
            ),
            forall|k: int|
                0 <= k < old(self).nodes()[index as int].game_state@.joint_moves().len() ==> {
                    let child = #[trigger] final(self).nodes()[old(self).nodes().len() + k];
                    &&& child.moves@ == old(self).nodes()[index as int].game_state@.joint_moves()[k]
                    &&& child.parent == Some(index)
                    &&& child.visits == 0
                    &&& child.children@.len() == 0
                    &&& child.total_value@ == Seq::new(
                        old(self).nodes()[0].game_state@.snakes.len(),
                        |j: int| 0u128,
                    )
                },
    {
        let ghost before = self.nodes();
        let ghost parent_state = before[index as int].game_state@;
        let first = self.nodes.len();
        assert(node_ok(before, index as int));
        let combos = joint_moves(&self.nodes[index].game_state);
        let number_of_players = self.nodes[index].game_state.snakes.len();
        let mut k: usize = 0;
        while k < combos.len()
            invariant
                k <= combos.len(),
                first == before.len(),
                index < first,
                number_of_players == parent_state.snakes.len(),
                parent_state == before[index as int].game_state@,
                rows(combos@) == parent_state.joint_moves(),
                tree_ok(before),
                tree_ok(self.nodes()),
                self.nodes().len() == first + k,
                grown_from(self.nodes(), before),
                forall|i: int|
                    0 <= i < first ==> (#[trigger] self.nodes()[i]).visits == before[i].visits
                        && self.nodes()[i].total_value == before[i].total_value && (i != index
                        ==> self.nodes()[i].children == before[i].children),
                self.nodes()[index as int].children@ == Seq::new(
                    k as nat,
                    |q: int| (first + q) as usize,
                ),
                forall|q: int|
                    0 <= q < k ==> {
                        let child = #[trigger] self.nodes()[first + q];
                        &&& child.moves@ == parent_state.joint_moves()[q]
                        &&& child.parent == Some(index)
                        &&& child.visits == 0
                        &&& child.children@.len() == 0
                        &&& child.total_value@ == Seq::new(
                            before[0].game_state@.snakes.len(),
                            |j: int| 0u128,
                        )
                    },
            decreases combos.len() - k,
        {
            let ghost mid = self.nodes();
            assert(node_ok(mid, index as int));
            assert(node_ok(mid, 0));
            let moves = copy_row(&combos[k]);
            let game_state = play_joint_move(&self.nodes[index].game_state, &moves);
            let total_value = vec![0u128; number_of_players];
            proof {
                lemma_joint_move_keeps(parent_state, moves@);
                assert(rows(combos@)[k as int] == moves@);
                assert(total_value@ =~= Seq::new(
                    before[0].game_state@.snakes.len(),
                    |j: int| 0u128,
                ));
            }
            let child = Node {
                game_state,
                total_value,
                visits: 0,
                children: Vec::new(),
                moves,
                parent: Some(index),
            };
            let at = self.nodes.len();
            self.nodes.push(child);
            self.nodes[index].children.push(at);
            proof {
                let now = self.nodes();
                assert(now[index as int].children@ =~= Seq::new(
                    (k + 1) as nat,
                    |q: int| (first + q) as usize,
                ));
                assert forall|i: int| 0 <= i < now.len() implies #[trigger] node_ok(now, i) by {
                    if i < at {
                        assert(node_ok(mid, i));
                        if i > 0 {
                            assert(child_ok(mid, i));
                            assert(child_ok(now, i));
                        }
                    } else {
                        assert(child_ok(now, i));
                    }
                }
            }
            k += 1;
        }
    }

    /// The child of node `index` to descend to: a child never visited before
    /// any other, else the child for which `priority` hands out the greatest
    /// key, and of several such children the last.
    pub fn select_child<F: Fn(ChildStats) -> u64>(&self, index: usize, priority: &F) -> (r: usize)
        requires
            self.well_formed(),
            index < self.nodes().len(),
            self.nodes()[index as int].children@.len() > 0,
            forall|stats: ChildStats| call_requires(*priority, (stats,)),
        ensures
            exists|keys: Seq<u64>, k: int|
                selects(self.nodes(), index as int, *priority, keys, k) && r
                    == self.nodes()[index as int].children@[k],
    {
        let ghost nodes = self.nodes();
        let children = &self.nodes[index].children;
        let parent_visits = self.nodes[index].visits;
        assert(node_ok(nodes, index as int));
        let mut best: usize = 0;
        let mut best_key: u64 = 0;
        let ghost mut keys: Seq<u64> = Seq::empty();
        let mut m: usize = 0;
        while m < children.len()
            invariant
                m <= children.len(),
                children@ == nodes[index as int].children@,
                children@.len() > 0,
                nodes == self.nodes(),
                tree_ok(nodes),
                index < nodes.len(),
                parent_visits == nodes[index as int].visits,
                forall|stats: ChildStats| call_requires(*priority, (stats,)),
                forall|q: int|
                    0 <= q < children@.len() ==> index < (#[trigger] children@[q]) < nodes.len(),
                keys.len() == m,
                m > 0 ==> best < m,
                m == 0 ==> best == 0,
                m > 0 ==> best_key == keys[best as int],
                forall|q: int|
                    0 <= q < m && nodes[children@[q] as int].visits > 0 ==> call_ensures(
                        *priority,
                        (stats_of(nodes, index as int, children@[q] as int),),
                        #[trigger] keys[q],
                    ),
                forall|q: int|
                    0 <= q < m ==> #[trigger] outranks(nodes, index as int, keys, best as int, q),
                forall|q: int|
                    best < q < m ==> !#[trigger] outranks(nodes, index as int, keys, q, best as int),
            decreases children.len() - m,
        {
            let child = children[m];
            assert(node_ok(nodes, child as int));
            assert(node_ok(nodes, 0));
            let visits = self.nodes[child].visits;
            let key = if visits > 0 {
                let stats = ChildStats {
                    parent_visits,
                    visits,
                    total: self.score_sum(child),
                    snakes: self.nodes[child].game_state.snakes.len(),
                    cells: self.nodes[child].game_state.width * self.nodes[child].game_state.height,
                };
                priority(stats)
            } else {
                0
            };
            let ghost keys0 = keys;
            proof {
                keys = keys.push(key);
            }
            let best_visits = self.nodes[children[best]].visits;
            let takes = m == 0 || visits == 0 || (best_visits > 0 && key >= best_key);
            let ghost best0 = best as int;
            if takes {
                best = m;
                best_key = key;
            }
            proof {
                let i = index as int;
                assert forall|q: int| 0 <= q < m + 1 implies #[trigger] outranks(
                    nodes,
                    i,
                    keys,
                    best as int,
                    q,
                ) by {
                    if q < m {
                        assert(keys[q] == keys0[q]);
                        assert(outranks(nodes, i, keys0, best0, q));
                    }
                }
                assert forall|q: int| best < q < m + 1 implies !#[trigger] outranks(
                    nodes,
                    i,
                    keys,
                    q,
                    best as int,
                ) by {
                    if q < m {
                        assert(keys[q] == keys0[q]);
                        assert(!outranks(nodes, i, keys0, q, best0));
                    }
                }
            }
            m += 1;
        }
        proof {
            assert(selects(nodes, index as int, *priority, keys, best as int));
        }
        children[best]
    }

    /// The scores of all snakes at node `index`, added up.
    fn score_sum(&self, index: usize) -> (r: u128)
        requires
            self.well_formed(),
            index < self.nodes().len(),
        ensures
            r == sum_of(self.nodes()[index as int].total_value@),
    {
        let ghost nodes = self.nodes();
        let totals = &self.nodes[index].total_value;
        assert(node_ok(nodes, index as int));
        assert(node_ok(nodes, 0));
        let ghost most = 0xffff_ffffu128 * SCORE_LIMIT;
        proof {
            assert(nodes[index as int].visits * SCORE_LIMIT <= 0xffff_ffffu128 * SCORE_LIMIT)
                by (nonlinear_arith)
                requires
                    nodes[index as int].visits <= 0xffff_ffffu128,
            ;
            assert(totals@.take(0) =~= Seq::empty());
        }
        let mut sum: u128 = 0;
        let mut j: usize = 0;
        while j < totals.len()
            invariant
                j <= totals.len(),
                totals.len() <= 128,
                most == 0xffff_ffffu128 * SCORE_LIMIT,
                forall|q: int| 0 <= q < totals@.len() ==> (#[trigger] totals@[q]) <= most,
                sum == sum_of(totals@.take(j as int)),
                sum <= j * most,
            decreases totals.len() - j,
        {
            proof {
                assert(totals@.take(j + 1).drop_last() =~= totals@.take(j as int));
                assert((j + 1) * most == j * most + most) by (nonlinear_arith);
                assert((j + 1) * most <= 128 * most) by (nonlinear_arith)
                    requires
                        j + 1 <= 128,
                        most >= 0,
                ;
                assert(most == 0xffff_fffe_ffff_ffff_0000_0001u128);
            }
            sum = sum + totals[j];
            j += 1;
        }
        proof {
            assert(totals@.take(j as int) =~= totals@);
        }
        sum
    }

    /// Counts one more visit for node `leaf` and for every node above it, and
    /// adds `value` to the scores of each of them.
    pub fn back_propagate(&mut self, leaf: usize, value: &Vec<usize>)
        requires
            old(self).well_formed(),
            leaf < old(self).nodes().len(),
            value@.len() == old(self).nodes()[0].game_state@.snakes.len(),
            old(self).nodes()[0].visits < u32::MAX,
        ensures
            final(self).well_formed(),
            final(self).nodes().len() == old(self).nodes().len(),
            forall|a: int|
                0 <= a < old(self).nodes().len() ==> {
                    let was = old(self).nodes()[a];
                    let now = #[trigger] final(self).nodes()[a];
                    let on = on_path(old(self).nodes(), a, leaf as int);
                    &&& now.game_state == was.game_state
                    &&& now.children == was.children
                    &&& now.moves == was.moves
                    &&& now.parent == was.parent
                    &&& now.visits == was.visits + if on {
                        1int
                    } else {
                        0int
                    }
                    &&& now.total_value@.len() == was.total_value@.len()
                    &&& forall|j: int|
                        0 <= j < was.total_value@.len() ==> (#[trigger] now.total_value@[j])
                            == was.total_value@[j] + if on {
                            value@[j] as int
                        } else {
                            0int
                        }
                },
    {
        let ghost before = self.nodes();
        let mut cur = leaf;
        let mut climbing = true;
        proof {
            assert forall|a: int, j: int|
                0 <= a < before.len() && 0 <= j < before[a].total_value@.len() implies (
                #[trigger] before[a].total_value@[j]) <= before[a].visits * SCORE_LIMIT by {
                assert(node_ok(before, a));
            }
        }
        while climbing
            invariant
                tree_ok(before),
                self.nodes().len() == before.len(),
                leaf < before.len(),
                cur < before.len(),
                value@.len() == before[0].game_state@.snakes.len(),
                before[0].visits < u32::MAX,
                climbing ==> on_path(before, cur as int, leaf as int),
                forall|a: int|
                    0 <= a < before.len() ==> {
                        let was = before[a];
                        let now = #[trigger] self.nodes()[a];
                        let on = on_path(before, a, leaf as int) && (!climbing || !on_path(
                            before,
                            a,
                            cur as int,
                        ));
                        &&& now.game_state == was.game_state
                        &&& now.children == was.children
                        &&& now.moves == was.moves
                        &&& now.parent == was.parent
                        &&& now.visits == was.visits + if on {
                            1int
                        } else {
                            0int
                        }
                        &&& now.total_value@.len() == was.total_value@.len()
                        &&& forall|j: int|
                            0 <= j < was.total_value@.len() ==> (#[trigger] now.total_value@[j])
                                == was.total_value@[j] + if on {
                                value@[j] as int
                            } else {
                                0int
                            }
                        &&& forall|j: int|
                            0 <= j < was.total_value@.len() ==> (#[trigger] now.total_value@[j])
                                <= now.visits * SCORE_LIMIT
                    },
            decreases
                    if climbing {
                        cur + 1
                    } else {
                        0
                    },
        {
            let ghost mid = self.nodes();
            proof {
                lemma_root_most_visited(before, cur as int);
                assert(node_ok(before, cur as int));
                assert(node_ok(before, 0));
                assert(mid[cur as int].visits == before[cur as int].visits);
            }
            let ghost visits = self.nodes[cur as int].visits as int;
            self.nodes[cur].visits += 1;
            add_scores(&mut self.nodes[cur].total_value, value, Ghost(visits));
            let parent = self.nodes[cur].parent;
            proof {
                let now = self.nodes();
                assert forall|a: int| 0 <= a < before.len() && a != cur implies now[a] == mid[a] by {}
            }
            match parent {
                Some(p) => {
                    proof {
                        lemma_on_path_parent(before, cur as int, leaf as int);
                        assert forall|a: int| 0 <= a < before.len() implies (on_path(
                            before,
                            a,
                            cur as int,
                        ) <==> a == cur || on_path(before, a, p as int)) by {}
                        if on_path(before, cur as int, p as int) {
                            lemma_on_path_before(before, cur as int, p as int);
                        }
                    }
                    cur = p;
                },
                None => {
                    climbing = false;
                },
            }
        }
        proof {
            let now = self.nodes();
            assert forall|i: int| 0 <= i < now.len() implies #[trigger] node_ok(now, i) by {
                assert(node_ok(before, i));
                assert(node_ok(before, 0));
                if i > 0 {
                    let p = before[i].parent.unwrap() as int;
                    assert(child_ok(before, i));
                    if on_path(before, i, leaf as int) {
                        lemma_on_path_parent(before, i, leaf as int);
                    }
                    assert(now[p].game_state == before[p].game_state);
                    assert(child_ok(now, i));
                }
                assert forall|k: int| 0 <= k < now[i].children@.len() implies i
                    < (#[trigger] now[i].children@[k]) < now.len() && now[now[i].children@[k] as int].parent
                    == Some(i as usize) by {
                    assert(before[i].children@[k] == now[i].children@[k]);
                }
            }
        }
    }

    /// One round of the search. From the root it goes down, at each node to
    /// the child that `select_child` names, until it comes to a board on
    /// which the game is over or to a node without children. Such a node is
    /// expanded, and the round goes on to its first child. The board of the
    /// node where the round ends is evaluated, and the scores are counted for
    /// that node and for every node above it. Returns that node.
    pub fn tree_policy<F: Fn(ChildStats) -> u64>(&mut self, priority: &F) -> (leaf: usize)
        requires
            old(self).well_formed(),
            old(self).nodes()[0].visits < u32::MAX,
            forall|stats: ChildStats| call_requires(*priority, (stats,)),
        ensures
            final(self).well_formed(),
            round_of(old(self).nodes(), final(self).nodes(), *priority, leaf as int),
            final(self).nodes()[0].visits == old(self).nodes()[0].visits + 1,
    {
        let ghost before = self.nodes();
        let mut current: usize = 0;
        let mut descending = true;
        let mut over = false;
        while descending
            invariant
                self.well_formed(),
                self.nodes() == before,
                current < before.len(),
                descent_ok(before, *priority, current as int),
                !descending ==> over == before[current as int].game_state@.terminal() && (!over
                    ==> before[current as int].children@.len() == 0),
                forall|stats: ChildStats| call_requires(*priority, (stats,)),
            decreases
                    if descending {
                        before.len() - current + 1
                    } else {
                        0
                    },
        {
            if Self::is_terminal(&self.nodes[current].game_state) {
                over = true;
                descending = false;
            } else if self.nodes[current].children.len() == 0 {
                over = false;
                descending = false;
            } else {
                let next = self.select_child(current, priority);
                proof {
                    assert(node_ok(before, current as int));
                    assert(before[next as int].parent == Some(current));
                    assert forall|c: int| 0 < c && #[trigger] on_path(
                        before,
                        c,
                        next as int,
                    ) implies {
                        let a = before[c].parent.unwrap() as int;
                        &&& !before[a].game_state@.terminal()
                        &&& exists|keys: Seq<u64>, k: int|
                            selects(before, a, *priority, keys, k) && before[a].children@[k] == c
                    } by {
                        if c != next {
                            assert(on_path(before, c, current as int));
                        }
                    }
                }
                current = next;
            }
        }
        let stop = current;
        let count = self.nodes.len();
        if !over {
            self.expand(stop);
            if self.nodes[stop].children.len() > 0 {
                current = self.nodes[stop].children[0];
            }
        }
        let ghost mid = self.nodes();
        proof {
            assert(node_ok(mid, current as int));
            assert(node_ok(mid, 0));
            assert(node_ok(before, stop as int));
            assert(node_ok(before, 0));
        }
        let value = evaluate(&self.nodes[current].game_state);
        self.back_propagate(current, &value);
        proof {
            let after = self.nodes();
            let leaf = current as int;
            let choices = before[stop as int].game_state@.joint_moves();
            if !over {
                assert(mid.len() == before.len() + choices.len());
                assert(mid[stop as int].children@.len() == choices.len());
                if choices.len() > 0 {
                    assert(count == before.len());
                    assert(mid[stop as int].children@ == Seq::new(
                        choices.len(),
                        |k: int| (before.len() + k) as usize,
                    ));
                    assert(mid[stop as int].children@[0] == before.len());
                    assert(leaf == before.len());
                    assert(mid[before.len() as int + 0].parent == Some(stop));
                    assert(after[leaf].parent == Some(stop));
                } else {
                    assert(leaf == stop);
                }
            } else {
                assert(mid == before);
                assert(leaf == stop);
            }
            lemma_root_on_path(mid, leaf);
            assert forall|a: int| 0 <= a < after.len() implies #[trigger] counted(
                before,
                after,
                leaf,
                a,
            ) by {
                lemma_on_path_same(mid, after, a, leaf);
                assert(node_ok(mid, a));
                assert(after[a].total_value@.len() == mid[a].total_value@.len());
                if a >= before.len() {
                    let child = mid[before.len() + (a - before.len())];
                    assert(child.visits == 0);
                }
            }
            assert forall|k: int| 0 <= k < after.len() - before.len() implies {
                let child = #[trigger] after[before.len() + k];
                &&& child.moves@ == before[stop as int].game_state@.joint_moves()[k]
                &&& child.parent == Some(stop)
                &&& child.children@.len() == 0
                &&& child.game_state@ == before[stop as int].game_state@.after_joint_move(
                    before[stop as int].game_state@.joint_moves()[k],
                )
            } by {
                let x = before.len() + k;
                assert(node_ok(mid, x));
                assert(child_ok(mid, x));
                assert(after[x].game_state == mid[x].game_state);
            }
            assert(grown_from(after, before));
        }
        current
    }

    /// Runs rounds of the search, `iterations` of them or as many as the
    /// counter of the root has room for, and returns their number.
    pub fn run<F: Fn(ChildStats) -> u64>(&mut self, iterations: usize, priority: &F) -> (done: usize)
        requires
            old(self).well_formed(),
            forall|stats: ChildStats| call_requires(*priority, (stats,)),
        ensures
            final(self).well_formed(),
            rounds_of(old(self).nodes(), final(self).nodes(), *priority, done as nat),
            grown_from(final(self).nodes(), old(self).nodes()),
            final(self).nodes()[0].visits == old(self).nodes()[0].visits + done,
            done <= iterations,
            done == iterations || final(self).nodes()[0].visits == u32::MAX,
    {
        let ghost before = self.nodes();
        let ghost mut trees: Seq<Seq<Node>> = seq![before];
        let ghost mut leaves: Seq<int> = Seq::empty();
        let mut done: usize = 0;
        while done < iterations && self.nodes[0].visits < u32::MAX
            invariant
                self.well_formed(),
                grown_from(self.nodes(), before),
                before.len() >= 1,
                self.nodes()[0].visits == before[0].visits + done,
                done <= iterations,
                forall|stats: ChildStats| call_requires(*priority, (stats,)),
                trees.len() == done + 1,
                leaves.len() == done,
                trees[0] == before,
                trees[done as int] == self.nodes(),
                forall|i: int|
                    0 <= i < done ==> tree_ok(#[trigger] trees[i]) && round_of(
                        trees[i],
                        trees[i + 1],
                        *priority,
                        leaves[i],
                    ),
            decreases iterations - done,
        {
            let ghost had = self.nodes();
            let ghost trees0 = trees;
            let ghost leaves0 = leaves;
            let leaf = self.tree_policy(priority);
            proof {
                trees = trees.push(self.nodes());
                leaves = leaves.push(leaf as int);
                assert forall|i: int| 0 <= i < done + 1 implies tree_ok(#[trigger] trees[i])
                    && round_of(trees[i], trees[i + 1], *priority, leaves[i]) by {
                    if i < done {
                        assert(trees[i] == trees0[i]);
                        assert(trees[i + 1] == trees0[i + 1]);
                        assert(leaves[i] == leaves0[i]);
                        assert(tree_ok(trees0[i]));
                    }
                }
            }
            done += 1;
        }
        proof {
            assert(rounds_of(before, self.nodes(), *priority, done as nat));
        }
        done
    }

    /// The move that the search advises for the snake named `our_snake_id`:
    /// see `best_move`. It is one of the safe moves that the snake has on the
    /// board of the root.
    pub fn get_best_move_for_snake(&self, our_snake_id: &str) -> (r: Option<Direction>)
        requires
            self.well_formed(),
        ensures
            r == best_move(self.nodes(), our_snake_id@),
            r matches Some(d) ==> self.nodes()[0].game_state@.safe_moves(
                self.nodes()[0].game_state@.snake_named(our_snake_id@),
            ).contains(d),
    {
        let ghost nodes = self.nodes();
        let root = &self.nodes[0];
        assert(node_ok(nodes, 0));
        if root.children.len() == 0 {
            return None;
        }
        let mut best: usize = 0;
        let mut m: usize = 1;
        while m < root.children.len()
            invariant
                1 <= m <= root.children.len(),
                nodes == self.nodes(),
                *root == nodes[0],
                node_ok(nodes, 0),
                best < m,
                best == most_visited(nodes, 0, m as int),
            decreases root.children.len() - m,
        {
            if self.nodes[root.children[m]].visits >= self.nodes[root.children[best]].visits {
                best = m;
            }
            m += 1;
        }
        let child = &self.nodes[root.children[best]];
        match root.game_state.find_snake(our_snake_id) {
            Some(index) => {
                proof {
                    let c = root.children@[best as int] as int;
                    assert(node_ok(nodes, c));
                    assert(child_ok(nodes, c));
                    crate::game_state::lemma_index_of_id_shape(
                        root.game_state@,
                        our_snake_id@,
                        root.game_state@.snakes.len() as int,
                    );
                    lemma_joint_move_safe(root.game_state@, child.moves@, index as int);
                }
                if index < child.moves.len() {
                    child.moves[index]
                } else {
                    None
                }
            },
            None => None,
        }
    }

    /// Whether the game is over on `game_state`: at most one snake lives.
    pub fn is_terminal(game_state: &GameState) -> (r: bool)
        ensures
            r == game_state@.terminal(),
    {
        count_alive(game_state) <= 1
    }
}

} // verus!
