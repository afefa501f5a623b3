use vstd::prelude::*;
use vstd::arithmetic::power::{lemma_pow_positive, pow};
use vstd::multiset::Multiset;
use crate::closed_set::Arrival;
use crate::heuristics::HeuristicFn;
use crate::node::{NodeView, lemma_successors};
use crate::npuzzle::{
    Board, Move, lemma_move_reversible, lemma_replay_concat, lemma_replay_push,
    lemma_replay_well_formed,
};

verus! {

/// A best-first search at one moment: where it began, how it values boards,
/// the boards it has settled and the nodes it has met and not yet settled.
pub struct SearchState {
    pub start: Board,
    pub heuristic_fn: HeuristicFn,
    pub closed: Map<Seq<u8>, Arrival>,
    pub frontier: Multiset<NodeView>,
}

/// Whether `moves` lead from `board` to the solved board of its size.
pub open spec fn solves(board: Board, moves: Seq<Move>) -> bool {
    board.replay(moves) == Some(Board::goal(board.size))
}

/// Whether some move sequence leads from `start` to `board`.
pub open spec fn reachable(start: Board, board: Board) -> bool {
    exists|path: Seq<Move>| start.replay(path) == Some(board)
}

impl SearchState {
    /// The board of the search's size with the given tiles.
    pub open spec fn board_of(self, cells: Seq<u8>) -> Board {
        Board { size: self.start.size, cells }
    }

    /// The node that the search begins with.
    pub open spec fn root(self) -> NodeView {
        NodeView {
            board: self.start,
            g: 0,
            h: self.heuristic_fn.estimate(self.start),
            movement: None,
        }
    }

    /// The node that expanding the settled board `cells` yields for `m`.
    pub open spec fn settled_successor(self, cells: Seq<u8>, m: Move) -> NodeView {
        NodeView {
            board: self.board_of(cells).apply(m),
            g: self.closed[cells].g + 1,
            h: self.heuristic_fn.estimate(self.board_of(cells).apply(m)),
            movement: Some(m),
        }
    }

    /// `board` came by `m` from a settled board.
    pub closed spec fn came_from(self, board: Board, m: Move) -> bool {
        let parent = board.apply(m.inverse());
        &&& parent.well_formed()
        &&& parent.size == self.start.size
        &&& parent.can_move(m)
        &&& parent.apply(m) == board
        &&& self.closed.contains_key(parent.cells)
    }

    /// The cost with which the board that `board` came from by `m` was
    /// settled.
    pub closed spec fn parent_cost(self, board: Board, m: Move) -> int {
        self.closed[board.apply(m.inverse()).cells].g as int
    }

    /// The settled board `cells` is the start, at cost zero, or came from a
    /// settled board one move nearer to the start.
    pub closed spec fn settled_ok(self, cells: Seq<u8>) -> bool {
        let board = self.board_of(cells);
        let g = self.closed[cells].g;
        &&& board.well_formed()
        &&& 0 <= g < self.closed.dom().len()
        &&& match self.closed[cells].movement {
            None => board == self.start && g == 0,
            Some(m) => self.came_from(board, m) && self.parent_cost(board, m) == g - 1,
        }
    }

    /// The node `v` is the root or came from a settled board that lies fewer
    /// moves from the start, it carries the estimate of its board, and its
    /// cost is no more than the number of settled boards other than its own.
    pub closed spec fn pending_ok(self, v: NodeView) -> bool {
        &&& v.board.well_formed()
        &&& v.board.size == self.start.size
        &&& v.h == self.heuristic_fn.estimate(v.board)
        &&& 0 <= v.g <= self.closed.dom().remove(v.board.cells).len()
        &&& match v.movement {
            None => v.board == self.start && v.g == 0,
            Some(m) => self.came_from(v.board, m) && self.parent_cost(v.board, m) <= v.g - 1,
        }
    }

    /// The settled boards form a tree that is rooted in the start.
    pub closed spec fn closed_ok(self) -> bool {
        &&& self.closed.dom().finite()
        &&& forall|cells: Seq<u8>| #[trigger]
            self.closed.contains_key(cells) ==> self.settled_ok(cells)
    }

    /// Every node of the frontier hangs on that tree.
    pub closed spec fn frontier_ok(self) -> bool {
        forall|v: NodeView| #[trigger] self.frontier.contains(v) ==> self.pending_ok(v)
    }

    /// No move sequence reaches a settled board in fewer moves than the cost
    /// it was settled with.
    pub closed spec fn costs_optimal(self) -> bool {
        forall|cells: Seq<u8>, path: Seq<Move>|
            #![trigger self.closed.contains_key(cells), self.start.replay(path)]
            self.closed.contains_key(cells) && self.start.replay(path) == Some(
                self.board_of(cells),
            ) ==> self.closed[cells].g <= path.len()
    }

    /// The unsettled neighbours of the settled board `cells` wait in the
    /// frontier.
    pub closed spec fn covers(self, cells: Seq<u8>) -> bool {
        forall|m: Move| #[trigger]
            self.board_of(cells).can_move(m) && !self.closed.contains_key(
                self.board_of(cells).apply(m).cells,
            ) ==> self.frontier.contains(self.settled_successor(cells, m))
    }

    /// Every settled board but `except` is covered.
    pub closed spec fn covered_but(self, except: Seq<u8>) -> bool {
        forall|cells: Seq<u8>| #[trigger]
            self.closed.contains_key(cells) && cells != except ==> self.covers(cells)
    }

    /// Every settled board is covered.
    pub closed spec fn covered(self) -> bool {
        forall|cells: Seq<u8>| #[trigger] self.closed.contains_key(cells) ==> self.covers(cells)
    }

    /// The start is settled or waits in the frontier.
    pub closed spec fn rooted(self) -> bool {
        self.closed.contains_key(self.start.cells) || self.frontier.contains(self.root())
    }

    /// The solved board is not settled.
    pub closed spec fn goal_open(self) -> bool {
        forall|cells: Seq<u8>| #[trigger]
            self.closed.contains_key(cells) ==> !self.board_of(cells).is_goal()
    }

    /// What holds between two rounds of the search.
    pub open spec fn inv(self) -> bool {
        &&& self.start.well_formed()
        &&& self.closed_ok()
        &&& self.frontier_ok()
        &&& self.costs_optimal()
        &&& self.covered()
        &&& self.rooted()
        &&& self.goal_open()
    }

    /// The state after the node `x` has left the frontier for the settled
    /// boards.
    pub open spec fn settle(self, x: NodeView) -> SearchState {
        SearchState {
            closed: self.closed.insert(x.board.cells, Arrival { movement: x.movement, g: x.g as i32 }),
            frontier: self.frontier.remove(x),
            ..self
        }
    }

    /// The state after the node `x` has left the frontier and been dropped.
    pub open spec fn discard(self, x: NodeView) -> SearchState {
        SearchState { frontier: self.frontier.remove(x), ..self }
    }

    /// The state after the node `v` has joined the frontier.
    pub open spec fn push(self, v: NodeView) -> SearchState {
        SearchState { frontier: self.frontier.insert(v), ..self }
    }

    /// The state in which a search begins.
    pub open spec fn initial(start: Board, heuristic_fn: HeuristicFn) -> SearchState {
        let empty = SearchState {
            start,
            heuristic_fn,
            closed: Map::empty(),
            frontier: Multiset::empty(),
        };
        empty.push(empty.root())
    }

    /// The first `done` successors of `x` are settled or wait in the frontier.
    pub closed spec fn expanded(self, x: NodeView, done: int) -> bool {
        forall|k: int|
            0 <= k < done && k < x.successors(self.heuristic_fn).len() ==> {
                let v = #[trigger] x.successors(self.heuristic_fn)[k];
                self.closed.contains_key(v.board.cells) || self.frontier.contains(v)
            }
    }

    /// A path from a settled start to an unsettled board leaves the settled
    /// boards at some step.
    proof fn lemma_crossing(self, path: Seq<Move>, k: int) -> (j: int)
        requires
            self.closed.contains_key(self.start.cells),
            0 < k <= path.len(),
            self.start.replay(path.take(k)) is Some,
            !self.closed.contains_key(self.start.replay(path.take(k)).unwrap().cells),
        ensures
            0 <= j < k,
            self.start.replay(path.take(j)) is Some,
            self.closed.contains_key(self.start.replay(path.take(j)).unwrap().cells),
            self.start.replay(path.take(j)).unwrap().can_move(path[j]),
            !self.closed.contains_key(
                self.start.replay(path.take(j)).unwrap().apply(path[j]).cells,
            ),
        decreases k,
    {
        let prev = path.take(k - 1);
        assert(path.take(k) =~= prev.push(path[k - 1]));
        lemma_replay_push(self.start, prev, path[k - 1]);
        let mid = self.start.replay(prev).unwrap();
        if self.closed.contains_key(mid.cells) {
            k - 1
        } else {
            if k - 1 == 0 {
                assert(prev =~= Seq::<Move>::empty());
            }
            self.lemma_crossing(path, k - 1)
        }
    }

    /// A node of least priority whose board is not settled carries the least
    /// cost at which its board can be reached.
    proof fn lemma_fresh_pop_optimal(self, x: NodeView, path: Seq<Move>)
        requires
            self.inv(),
            self.frontier.contains(x),
            forall|v: NodeView| self.frontier.contains(v) ==> x.f() <= v.f(),
            !self.closed.contains_key(x.board.cells),
            self.start.replay(path) == Some(x.board),
        ensures
            x.g <= path.len(),
    {
        let hf = self.heuristic_fn;
        assert(x.h == hf.estimate(x.board));
        if !self.closed.contains_key(self.start.cells) {
            assert(self.frontier.contains(self.root()));
            hf.lemma_estimate(self.start, path);
        } else {
            let n = path.len() as int;
            assert(path.take(n) =~= path);
            let j = self.lemma_crossing(path, n);
            let before = self.start.replay(path.take(j)).unwrap();
            lemma_replay_well_formed(self.start, path.take(j));
            assert(self.board_of(before.cells) == before);
            assert(self.closed[before.cells].g <= path.take(j).len());
            let m = path[j];
            let after = before.apply(m);
            assert(self.covers(before.cells));
            let v = self.settled_successor(before.cells, m);
            assert(self.frontier.contains(v));
            assert(path =~= path.take(j + 1) + path.skip(j + 1));
            assert(path.take(j + 1) =~= path.take(j).push(m));
            lemma_replay_push(self.start, path.take(j), m);
            lemma_replay_concat(self.start, path.take(j + 1), path.skip(j + 1));
            before.lemma_apply(m);
            hf.lemma_estimate(after, path.skip(j + 1));
        }
    }

    /// A settled board is reached by a move sequence as long as its cost.
    pub proof fn lemma_settled_path(self, cells: Seq<u8>) -> (path: Seq<Move>)
        requires
            self.closed_ok(),
            self.closed.contains_key(cells),
        ensures
            self.start.replay(path) == Some(self.board_of(cells)),
            path.len() == self.closed[cells].g,
        decreases self.closed[cells].g,
    {
        let board = self.board_of(cells);
        assert(self.settled_ok(cells));
        match self.closed[cells].movement {
            None => Seq::<Move>::empty(),
            Some(m) => {
                let parent = board.apply(m.inverse());
                assert(self.board_of(parent.cells) == parent);
                assert(self.settled_ok(parent.cells));
                let path = self.lemma_settled_path(parent.cells);
                lemma_replay_push(self.start, path, m);
                path.push(m)
            },
        }
    }

    /// The board of a node of the frontier is reached by a move sequence no
    /// longer than the cost of the node.
    proof fn lemma_pending_path(self, v: NodeView) -> (path: Seq<Move>)
        requires
            self.closed_ok(),
            self.pending_ok(v),
        ensures
            self.start.replay(path) == Some(v.board),
            path.len() <= v.g,
    {
        match v.movement {
            None => Seq::<Move>::empty(),
            Some(m) => {
                let parent = v.board.apply(m.inverse());
                assert(self.board_of(parent.cells) == parent);
                let path = self.lemma_settled_path(parent.cells);
                lemma_replay_push(self.start, path, m);
                path.push(m)
            },
        }
    }

    /// Settling a node of least priority whose board is not settled keeps the
    /// invariant, but for the cover of the board itself.
    pub proof fn lemma_settle(self, x: NodeView)
        requires
            self.inv(),
            self.frontier.contains(x),
            forall|v: NodeView| self.frontier.contains(v) ==> x.f() <= v.f(),
            !self.closed.contains_key(x.board.cells),
            self.closed.dom().len() < i32::MAX,
        ensures
            self.settle(x).closed_ok(),
            self.settle(x).frontier_ok(),
            self.settle(x).costs_optimal(),
            self.settle(x).rooted(),
            self.settle(x).covered_but(x.board.cells),
            self.settle(x).closed.dom().len() == self.closed.dom().len() + 1,
            self.settle(x).closed[x.board.cells].g == x.g,
            x.board.well_formed(),
            x.board.size == self.start.size,
            x.h == self.heuristic_fn.estimate(x.board),
            0 <= x.g <= self.closed.dom().len(),
            !x.board.is_goal() ==> self.settle(x).goal_open(),
    {
        broadcast use vstd::multiset::group_multiset_properties;

        let t = self.settle(x);
        let cells0 = x.board.cells;
        assert(self.pending_ok(x));
        assert(t.board_of(cells0) == x.board);
        assert(self.closed.dom().remove(cells0) =~= self.closed.dom());
        assert(t.closed.dom() =~= self.closed.dom().insert(cells0));
        assert forall|cells: Seq<u8>| #[trigger] t.closed.contains_key(cells) implies t.settled_ok(
            cells,
        ) by {
            if cells != cells0 {
                assert(self.closed.contains_key(cells));
                assert(self.settled_ok(cells));
            } else if let Some(m) = x.movement {
                let parent = x.board.apply(m.inverse());
                assert(self.board_of(parent.cells) == parent);
                let path = self.lemma_settled_path(parent.cells);
                lemma_replay_push(self.start, path, m);
                self.lemma_fresh_pop_optimal(x, path.push(m));
            }
        }
        assert forall|v: NodeView| #[trigger] t.frontier.contains(v) implies t.pending_ok(v) by {
            assert(self.frontier.contains(v));
            assert(self.pending_ok(v));
            let before = self.closed.dom().remove(v.board.cells);
            let after = t.closed.dom().remove(v.board.cells);
            if v.board.cells == cells0 {
                assert(after =~= self.closed.dom());
            } else {
                assert(after =~= before.insert(cells0));
            }
        }
        assert forall|cells: Seq<u8>, path: Seq<Move>|
            #![trigger t.closed.contains_key(cells), t.start.replay(path)]
            t.closed.contains_key(cells) && t.start.replay(path) == Some(
                t.board_of(cells),
            ) implies t.closed[cells].g <= path.len() by {
            if cells == cells0 {
                self.lemma_fresh_pop_optimal(x, path);
            } else {
                assert(self.closed.contains_key(cells));
            }
        }
        assert forall|cells: Seq<u8>| #[trigger]
            t.closed.contains_key(cells) && cells != cells0 implies t.covers(cells) by {
            assert(self.closed.contains_key(cells));
            assert(self.covers(cells));
            assert forall|m: Move| #[trigger]
                t.board_of(cells).can_move(m) && !t.closed.contains_key(
                    t.board_of(cells).apply(m).cells,
                ) implies t.frontier.contains(t.settled_successor(cells, m)) by {
                let w = self.settled_successor(cells, m);
                assert(self.frontier.contains(w));
                assert(w != x);
            }
        }
        if !x.board.is_goal() {
            assert forall|cells: Seq<u8>| #[trigger]
                t.closed.contains_key(cells) implies !t.board_of(cells).is_goal() by {
                if cells != cells0 {
                    assert(self.closed.contains_key(cells));
                }
            }
        }
    }

    /// A node whose board is settled leaves the frontier and the invariant
    /// stays; the board was settled at no more than the cost of the node.
    pub proof fn lemma_discard(self, x: NodeView)
        requires
            self.inv(),
            self.frontier.contains(x),
            self.closed.contains_key(x.board.cells),
        ensures
            self.discard(x).inv(),
            x.board.well_formed(),
            x.board.size == self.start.size,
            x.h == self.heuristic_fn.estimate(x.board),
            !x.board.is_goal(),
            self.closed[x.board.cells].g <= x.g,
            0 <= x.g < self.closed.dom().len(),
    {
        broadcast use vstd::multiset::group_multiset_properties;

        let t = self.discard(x);
        assert(self.pending_ok(x));
        assert(self.board_of(x.board.cells) == x.board);
        let path = self.lemma_pending_path(x);
        assert forall|v: NodeView| #[trigger] t.frontier.contains(v) implies t.pending_ok(v) by {
            assert(self.frontier.contains(v));
            assert(self.pending_ok(v));
        }
        assert forall|cells: Seq<u8>| #[trigger] t.closed.contains_key(cells) implies t.covers(
            cells,
        ) by {
            assert(self.covers(cells));
            assert forall|m: Move| #[trigger]
                t.board_of(cells).can_move(m) && !t.closed.contains_key(
                    t.board_of(cells).apply(m).cells,
                ) implies t.frontier.contains(t.settled_successor(cells, m)) by {
                let w = self.settled_successor(cells, m);
                assert(self.frontier.contains(w));
                assert(w != x);
            }
        }
        if !self.closed.contains_key(self.start.cells) {
            assert(self.root() != x);
        }
    }

    /// A successor of a node that was taken from the frontier may join the
    /// frontier where its board is not settled, and whatever joins takes
    /// nothing from the rest of the invariant.
    pub proof fn lemma_push(self, x: NodeView, k: int)
        requires
            self.start.well_formed(),
            self.closed_ok(),
            self.frontier_ok(),
            self.costs_optimal(),
            self.rooted(),
            self.covered_but(x.board.cells),
            self.expanded(x, k),
            0 <= k < x.successors(self.heuristic_fn).len(),
            self.closed.contains_key(x.board.cells),
            self.closed[x.board.cells].g <= x.g,
            0 <= x.g < self.closed.dom().len(),
            x.board.well_formed(),
            x.board.size == self.start.size,
            !self.closed.contains_key(x.successors(self.heuristic_fn)[k].board.cells),
        ensures
            self.push(x.successors(self.heuristic_fn)[k]).closed_ok(),
            self.push(x.successors(self.heuristic_fn)[k]).frontier_ok(),
            self.push(x.successors(self.heuristic_fn)[k]).costs_optimal(),
            self.push(x.successors(self.heuristic_fn)[k]).rooted(),
            self.push(x.successors(self.heuristic_fn)[k]).covered_but(x.board.cells),
            self.push(x.successors(self.heuristic_fn)[k]).expanded(x, k + 1),
            self.goal_open() ==> self.push(x.successors(self.heuristic_fn)[k]).goal_open(),
            self.covered() ==> self.push(x.successors(self.heuristic_fn)[k]).covered(),
            x.successors(self.heuristic_fn)[k].board.well_formed(),
            x.successors(self.heuristic_fn)[k].g == x.g + 1,
            x.successors(self.heuristic_fn)[k].h >= 0,
    {
        broadcast use vstd::multiset::group_multiset_properties;

        let hf = self.heuristic_fn;
        let v = x.successors(hf)[k];
        let t = self.push(v);
        lemma_successors(x, hf);
        let m = v.movement.unwrap();
        x.board.lemma_apply(m);
        lemma_move_reversible(x.board, m);
        hf.lemma_estimate(v.board, Seq::empty());
        assert(self.closed.dom().remove(v.board.cells) =~= self.closed.dom());
        assert(self.pending_ok(v));
        assert forall|cells: Seq<u8>| #[trigger] t.closed.contains_key(cells) implies t.settled_ok(
            cells,
        ) by {
            assert(self.settled_ok(cells));
        }
        assert forall|w: NodeView| #[trigger] t.frontier.contains(w) implies t.pending_ok(w) by {
            if w != v {
                assert(self.frontier.contains(w));
            }
            assert(self.pending_ok(w));
        }
        assert forall|cells: Seq<u8>| #[trigger] t.closed.contains_key(cells) && (cells
            != x.board.cells || self.covered()) implies t.covers(cells) by {
            assert(self.covers(cells));
            assert forall|m: Move| #[trigger]
                t.board_of(cells).can_move(m) && !t.closed.contains_key(
                    t.board_of(cells).apply(m).cells,
                ) implies t.frontier.contains(t.settled_successor(cells, m)) by {
                assert(self.frontier.contains(self.settled_successor(cells, m)));
            }
        }
        assert forall|i: int| 0 <= i < k + 1 && i < x.successors(t.heuristic_fn).len() implies {
            let w = #[trigger] x.successors(t.heuristic_fn)[i];
            t.closed.contains_key(w.board.cells) || t.frontier.contains(w)
        } by {
            let w = x.successors(hf)[i];
            if i < k {
                assert(self.closed.contains_key(w.board.cells) || self.frontier.contains(w));
            }
        }
    }

    /// Before the first successor is looked at, none needs to be accounted for.
    pub proof fn lemma_expand_start(self, x: NodeView)
        ensures
            self.expanded(x, 0),
    {
    }

    /// Where every settled board is covered, every settled board but one is.
    pub proof fn lemma_covered(self, except: Seq<u8>)
        requires
            self.covered(),
        ensures
            self.covered_but(except),
    {
    }

    /// A successor whose board is settled needs no place in the frontier.
    pub proof fn lemma_skip(self, x: NodeView, k: int)
        requires
            self.expanded(x, k),
            0 <= k < x.successors(self.heuristic_fn).len(),
            self.closed.contains_key(x.successors(self.heuristic_fn)[k].board.cells),
        ensures
            self.expanded(x, k + 1),
    {
        assert forall|i: int| 0 <= i < k + 1 && i < x.successors(self.heuristic_fn).len() implies {
            let w = #[trigger] x.successors(self.heuristic_fn)[i];
            self.closed.contains_key(w.board.cells) || self.frontier.contains(w)
        } by {
            let w = x.successors(self.heuristic_fn)[i];
            if i < k {
                assert(self.closed.contains_key(w.board.cells) || self.frontier.contains(w));
            }
        }
    }

    /// Once every successor of the settled node has been looked at, its board
    /// is covered like the others.
    pub proof fn lemma_expanded(self, x: NodeView)
        requires
            self.covered_but(x.board.cells),
            self.expanded(x, x.successors(self.heuristic_fn).len() as int),
            self.closed.contains_key(x.board.cells),
            self.closed[x.board.cells].g == x.g,
            x.board.size == self.start.size,
        ensures
            self.covered(),
    {
        let hf = self.heuristic_fn;
        let all = x.successors(hf);
        lemma_successors(x, hf);
        assert forall|cells: Seq<u8>| #[trigger] self.closed.contains_key(cells) implies self.covers(
            cells,
        ) by {
            if cells == x.board.cells {
                assert(self.board_of(cells) == x.board);
                assert forall|m: Move| #[trigger]
                    self.board_of(cells).can_move(m) && !self.closed.contains_key(
                        self.board_of(cells).apply(m).cells,
                    ) implies self.frontier.contains(self.settled_successor(cells, m)) by {
                    let v = x.successor(m, hf);
                    assert(all.contains(v));
                    let k = choose|k: int| 0 <= k < all.len() && all[k] == v;
                    assert(all[k] == v);
                    assert(v == self.settled_successor(cells, m));
                }
            }
        }
    }

    /// Every settled board can be reached from the start.
    pub proof fn lemma_settled_reachable(self, cells: Seq<u8>)
        requires
            self.closed_ok(),
            self.closed.contains_key(cells),
        ensures
            reachable(self.start, self.board_of(cells)),
    {
        let path = self.lemma_settled_path(cells);
    }

    /// The recorded move of a settled board leads back to a settled board one
    /// move nearer to the start.
    pub proof fn lemma_step_back(self, current: Board, m: Move, walked: Seq<Move>, target: Board)
        requires
            self.closed_ok(),
            current.size == self.start.size,
            self.closed.contains_key(current.cells),
            self.closed[current.cells].movement == Some(m),
            current.replay(walked.reverse()) == Some(target),
        ensures
            current.well_formed(),
            current.can_move(m.inverse()),
            current.apply(m.inverse()).size == self.start.size,
            self.closed.contains_key(current.apply(m.inverse()).cells),
            self.closed[current.apply(m.inverse()).cells].g == self.closed[current.cells].g - 1,
            self.closed[current.cells].g > 0,
            current.apply(m.inverse()).replay(walked.push(m).reverse()) == Some(target),
    {
        assert(self.board_of(current.cells) == current);
        assert(self.settled_ok(current.cells));
        let parent = current.apply(m.inverse());
        assert(self.board_of(parent.cells) == parent);
        assert(self.settled_ok(parent.cells));
        lemma_move_reversible(parent, m);
        assert(walked.push(m).reverse() =~= seq![m] + walked.reverse());
        lemma_replay_concat(parent, seq![m], walked.reverse());
        lemma_replay_push(parent, Seq::<Move>::empty(), m);
        assert(Seq::<Move>::empty().push(m) =~= seq![m]);
    }

    /// A settled board without a recorded move is the start.
    pub proof fn lemma_at_root(self, current: Board)
        requires
            self.closed_ok(),
            current.size == self.start.size,
            self.closed.contains_key(current.cells),
            self.closed[current.cells].movement is None,
        ensures
            current == self.start,
            self.closed[current.cells].g == 0,
    {
        assert(self.board_of(current.cells) == current);
        assert(self.settled_ok(current.cells));
    }

    /// No move sequence reaches a settled board in fewer moves than its cost.
    pub proof fn lemma_settled_cost(self, board: Board, path: Seq<Move>)
        requires
            self.costs_optimal(),
            board.size == self.start.size,
            self.closed.contains_key(board.cells),
            self.start.replay(path) == Some(board),
        ensures
            self.closed[board.cells].g <= path.len(),
    {
        assert(self.board_of(board.cells) == board);
    }

    /// With the start settled and every settled board covered by an empty
    /// frontier, whatever can be reached is settled.
    proof fn lemma_reachable_settled(self, path: Seq<Move>)
        requires
            self.inv(),
            self.frontier.len() == 0,
            self.start.replay(path) is Some,
        ensures
            self.closed.contains_key(self.start.replay(path).unwrap().cells),
        decreases path.len(),
    {
        broadcast use vstd::multiset::group_multiset_properties;

        assert(forall|v: NodeView| !self.frontier.contains(v));
        if path.len() > 0 {
            let prev = path.drop_last();
            let m = path.last();
            assert(path =~= prev.push(m));
            lemma_replay_push(self.start, prev, m);
            self.lemma_reachable_settled(prev);
            let mid = self.start.replay(prev).unwrap();
            lemma_replay_well_formed(self.start, prev);
            assert(self.board_of(mid.cells) == mid);
            assert(self.covers(mid.cells));
            if !self.closed.contains_key(mid.apply(m).cells) {
                assert(self.frontier.contains(self.settled_successor(mid.cells, m)));
            }
        }
    }

    /// A search that runs out of nodes shows that no move sequence solves the
    /// board it began with.
    pub proof fn lemma_exhausted(self, path: Seq<Move>)
        requires
            self.inv(),
            self.frontier.len() == 0,
        ensures
            !solves(self.start, path),
    {
        if solves(self.start, path) {
            self.lemma_reachable_settled(path);
            let goal = Board::goal(self.start.size);
            assert(self.board_of(goal.cells) == goal);
        }
    }

    /// The invariant holds when a search begins.
    pub proof fn lemma_initial(start: Board, heuristic_fn: HeuristicFn)
        requires
            start.well_formed(),
        ensures
            SearchState::initial(start, heuristic_fn).inv(),
    {
        let s = SearchState::initial(start, heuristic_fn);
        heuristic_fn.lemma_estimate(start, Seq::empty());
        assert(s.frontier.contains(s.root()));
        assert(s.closed.dom() =~= Set::<Seq<u8>>::empty());
        assert(s.closed.dom().remove(start.cells) =~= Set::<Seq<u8>>::empty());
        assert forall|v: NodeView| #[trigger] s.frontier.contains(v) implies v == s.root() by {}
    }
}

/// The weight of a node of cost `g` in the potential of the frontier: five
/// times the weight of a node of cost `g + 1`, so that a node weighs more
/// than four successors.
pub open spec fn weight(g: int) -> nat {
    pow(5, (i32::MAX - g) as nat) as nat
}

/// The potential of the nodes in `pending`: the sum of their weights. A node
/// that leaves the frontier for at most four successors lowers it.
pub open spec fn potential(pending: Seq<NodeView>) -> nat
    decreases pending.len(),
{
    if pending.len() == 0 {
        0
    } else {
        potential(pending.drop_last()) + weight(pending.last().g)
    }
}

/// A node weighs five times as much as a node one move further on.
pub proof fn lemma_weight(g: int)
    requires
        0 <= g < i32::MAX,
    ensures
        weight(g) == 5 * weight(g + 1),
        weight(g + 1) >= 1,
{
    reveal(pow);
    lemma_pow_positive(5, (i32::MAX - g - 1) as nat);
    assert(pow(5, (i32::MAX - g) as nat) == 5 * pow(5, (i32::MAX - g - 1) as nat));
}

/// A node that joins adds its weight to the potential.
pub proof fn lemma_potential_push(pending: Seq<NodeView>, v: NodeView)
    ensures
        potential(pending.push(v)) == potential(pending) + weight(v.g),
{
    assert(pending.push(v).drop_last() =~= pending);
}

/// A node that leaves takes its weight from the potential.
pub proof fn lemma_potential_remove(pending: Seq<NodeView>, i: int)
    requires
        0 <= i < pending.len(),
    ensures
        potential(pending.remove(i)) + weight(pending[i].g) == potential(pending),
    decreases pending.len(),
{
    if i == pending.len() - 1 {
        assert(pending.remove(i) =~= pending.drop_last());
    } else {
        lemma_potential_remove(pending.drop_last(), i);
        assert(pending.remove(i).drop_last() =~= pending.drop_last().remove(i));
    }
}

} // verus!
