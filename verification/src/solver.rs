use vstd::prelude::*;
use crate::closed_set::{Arrival, ClosedSet, same_tiles};
use crate::error::PuzzleError;
use crate::frontier::Frontier;
use crate::heuristics::{Heuristic, HeuristicFn};
use crate::node::{Node, NodeView, lemma_successors, node_views};
use crate::npuzzle::{Board, Move, NPuzzle, lemma_replay_concat, lemma_replay_push};
use crate::parity::lemma_solved_is_solvable;
use crate::reach::lemma_solvable_is_solved;
use crate::search::{
    SearchState, lemma_potential_push, lemma_potential_remove, lemma_weight, potential, reachable,
    solves, weight,
};

verus! {

/// The number of boards that a search settles before it gives up. Path costs
/// and priorities stay below `i32::MAX` as long as fewer boards are settled.
pub const SETTLED_LIMIT: usize = 0x7fff_0000;

/// An A* solver: the evaluator it runs and the mode it was asked for.
pub struct Solver {
    heuristic_fn: HeuristicFn,
    greedy: bool,
}

/// The moves of `path` in reverse order.
fn reversed(path: &Vec<Move>) -> (r: Vec<Move>)
    ensures
        r@ == path@.reverse(),
{
    let mut r: Vec<Move> = Vec::new();
    let mut i: usize = path.len();
    while i > 0
        invariant
            i <= path.len(),
            r.len() == path.len() - i,
            forall|k: int| 0 <= k < r.len() ==> r[k] == path[path.len() - 1 - k],
        decreases i,
    {
        i -= 1;
        r.push(path[i]);
    }
    proof {
        assert(r@ =~= path@.reverse());
    }
    r
}

impl Solver {
    /// The evaluator that the solver runs.
    pub closed spec fn heuristic_fn(&self) -> HeuristicFn {
        self.heuristic_fn
    }

    /// Whether the solver was asked for the greedy mode. The search is the
    /// same in both modes.
    pub closed spec fn greedy(&self) -> bool {
        self.greedy
    }

    /// A solver for the selected heuristic, or the reason why there is none.
    pub fn new(greedy: bool, heuristic: Heuristic) -> (r: Result<Solver, PuzzleError>)
        ensures
            match heuristic {
                Heuristic::ManhattanDistance => r matches Ok(solver) && solver.heuristic_fn()
                    == HeuristicFn::TotalManhattanDistance && solver.greedy() == greedy,
                Heuristic::MisplacedTiles => r matches Err(e) && e
                    == PuzzleError::UnsupportedHeuristic,
            },
    {
        match heuristic.get_heuristic_fn() {
            Ok(heuristic_fn) => Ok(Solver { heuristic_fn, greedy }),
            Err(e) => Err(e),
        }
    }

    /// Walks from `goal` back to the root over the recorded moves and returns
    /// them in forward order.
    #[verifier::loop_isolation(false)]
    fn reconstruct_path(
        closed_set: &ClosedSet,
        goal: Box<Node>,
        Ghost(state): Ghost<SearchState>,
    ) -> (r: Result<Vec<Move>, PuzzleError>)
        requires
            closed_set.well_formed(),
            closed_set@ == state.closed,
            state.closed_ok(),
            goal.npuzzle.well_formed(),
            goal@.board.size == state.start.size,
            state.closed.contains_key(goal@.board.cells),
        ensures
            r matches Ok(moves) && state.start.replay(moves@) == Some(goal@.board) && moves.len()
                == state.closed[goal@.board.cells].g,
    {
        let node = *goal;
        let mut last = node.npuzzle;
        let ghost target = last@;
        let mut path: Vec<Move> = Vec::new();
        proof {
            assert(path@.reverse() =~= Seq::<Move>::empty());
        }
        loop
            invariant
                closed_set.well_formed(),
                closed_set@ == state.closed,
                state.closed_ok(),
                last.well_formed(),
                last@.size == state.start.size,
                state.closed.contains_key(last@.cells),
                last@.replay(path@.reverse()) == Some(target),
                path.len() + state.closed[last@.cells].g == state.closed[target.cells].g,
            decreases state.closed[last@.cells].g,
        {
            let ghost current = last@;
            let arrival = match closed_set.get(&last.board) {
                Some(arrival) => arrival,
                None => {
                    return Err(PuzzleError::SearchExhausted);
                },
            };
            match arrival.movement {
                Some(movement) => {
                    proof {
                        state.lemma_step_back(current, movement, path@, target);
                    }
                    path.push(movement);
                    let undone = last.apply_move(movement.inverse());
                },
                None => {
                    proof {
                        state.lemma_at_root(current);
                    }
                    return Ok(reversed(&path));
                },
            }
        }
    }

    /// Searches for a shortest sequence of moves that solves `npuzzle`.
    ///
    /// A board that fails the parity test is rejected before any search. The
    /// search takes the node of least path cost plus estimate from the
    /// frontier, settles its board unless it is settled already, and puts the
    /// successors whose boards are not settled into the frontier. It ends
    /// when it takes out a node whose estimate is zero, with the moves that
    /// lead to it, or when the frontier is empty. On a board that passes the
    /// parity test the frontier cannot run empty before the solved board is
    /// met, so the error for that never leaves this function.
    #[verifier::loop_isolation(false)]
    pub fn solve(&self, npuzzle: NPuzzle) -> (r: Result<Vec<Move>, PuzzleError>)
        requires
            npuzzle.well_formed(),
        ensures
            !npuzzle@.solvable() <==> r == Err::<Vec<Move>, PuzzleError>(PuzzleError::Unsolvable),
            npuzzle@.solvable() ==> r is Ok || r == Err::<Vec<Move>, PuzzleError>(
                PuzzleError::SearchLimit,
            ),
            match r {
                Ok(moves) => {
                    &&& solves(npuzzle@, moves@)
                    &&& forall|other: Seq<Move>| #[trigger]
                        solves(npuzzle@, other) ==> moves.len() <= other.len()
                },
                Err(PuzzleError::Unsolvable) => forall|other: Seq<Move>| !#[trigger] solves(
                    npuzzle@,
                    other,
                ),
                Err(PuzzleError::SearchLimit) => exists|settled: Set<Seq<u8>>|
                    {
                        &&& settled.finite()
                        &&& #[trigger] settled.len() >= SETTLED_LIMIT
                        &&& forall|cells: Seq<u8>| #[trigger]
                            settled.contains(cells) ==> reachable(
                                npuzzle@,
                                Board { size: npuzzle@.size, cells },
                            )
                    },
                Err(_) => false,
            },
    {
        if !npuzzle.is_solvable() {
            proof {
                assert forall|other: Seq<Move>| !#[trigger] solves(npuzzle@, other) by {
                    if solves(npuzzle@, other) {
                        lemma_solved_is_solvable(npuzzle@, other);
                    }
                }
            }
            return Err(PuzzleError::Unsolvable);
        }
        let mut open_set = Frontier::new();
        let mut closed_set = ClosedSet::new();
        let h = self.heuristic_fn.evaluate(&npuzzle);
        let ghost start = npuzzle@;
        let ghost mut state = SearchState::initial(start, self.heuristic_fn);
        let ghost mut pending: Seq<NodeView> = seq![state.root()];
        proof {
            self.heuristic_fn.lemma_estimate(start, Seq::empty());
            SearchState::lemma_initial(start, self.heuristic_fn);
            Seq::<NodeView>::empty().to_multiset_ensures();
            assert(pending =~= Seq::<NodeView>::empty().push(state.root()));
        }
        open_set.push(Node::new(npuzzle, 0, h, None));
        loop
            invariant
                open_set.well_formed(),
                closed_set.well_formed(),
                open_set@ == state.frontier,
                closed_set@ == state.closed,
                pending.to_multiset() == state.frontier,
                state.start == start,
                state.heuristic_fn == self.heuristic_fn,
                state.inv(),
                state.closed.dom().len() <= SETTLED_LIMIT,
            decreases SETTLED_LIMIT - state.closed.dom().len(), potential(pending),
        {
            let ghost potential_before = potential(pending);
            let node = match open_set.pop() {
                Some(node) => node,
                None => {
                    proof {
                        lemma_solvable_is_solved(start);
                        let moves = choose|moves: Seq<Move>| solves(start, moves);
                        state.lemma_exhausted(moves);
                    }
                    return Err(PuzzleError::SearchExhausted);
                },
            };
            let ghost popped = node@;
            proof {
                pending.to_multiset_ensures();
                let at = pending.index_of(popped);
                lemma_potential_remove(pending, at);
                pending = pending.remove(at);
            }
            if closed_set.len() >= SETTLED_LIMIT {
                proof {
                    closed_set.lemma_finite();
                    let settled = state.closed.dom();
                    assert forall|cells: Seq<u8>| #[trigger]
                        settled.contains(cells) implies reachable(
                        start,
                        Board { size: start.size, cells },
                    ) by {
                        state.lemma_settled_reachable(cells);
                    }
                }
                return Err(PuzzleError::SearchLimit);
            }
            let fresh = closed_set.insert(
                node.npuzzle.board.clone(),
                Arrival { movement: node.movement, g: node.g },
            );
            proof {
                if fresh {
                    state.lemma_settle(popped);
                    state = state.settle(popped);
                } else {
                    state.lemma_discard(popped);
                    state = state.discard(popped);
                    state.lemma_covered(popped.board.cells);
                }
                self.heuristic_fn.lemma_estimate(popped.board, Seq::empty());
            }
            if node.h == 0 {
                proof {
                    assert forall|other: Seq<Move>| #[trigger]
                        solves(start, other) implies state.closed[popped.board.cells].g
                        <= other.len() by {
                        state.lemma_settled_cost(popped.board, other);
                    }
                }
                return Solver::reconstruct_path(&closed_set, Box::new(node), Ghost(state));
            }
            let mut successors = node.get_successors(&self.heuristic_fn);
            let ghost all = popped.successors(self.heuristic_fn);
            let ghost mut done: int = 0;
            let ghost potential_popped = potential(pending);
            proof {
                assert(all.skip(0) =~= all);
                state.lemma_expand_start(popped);
                lemma_successors(popped, self.heuristic_fn);
                lemma_weight(popped.g);
            }
            while successors.len() > 0
                invariant
                    open_set.well_formed(),
                    closed_set.well_formed(),
                    open_set@ == state.frontier,
                    closed_set@ == state.closed,
                    pending.to_multiset() == state.frontier,
                    state.start == start,
                    state.heuristic_fn == self.heuristic_fn,
                    state.closed_ok(),
                    state.frontier_ok(),
                    state.costs_optimal(),
                    state.rooted(),
                    state.goal_open(),
                    state.covered_but(popped.board.cells),
                    !fresh ==> state.covered(),
                    state.expanded(popped, done),
                    state.closed.contains_key(popped.board.cells),
                    state.closed[popped.board.cells].g <= popped.g,
                    fresh ==> state.closed[popped.board.cells].g == popped.g,
                    0 <= popped.g < state.closed.dom().len(),
                    all == popped.successors(self.heuristic_fn),
                    0 <= done <= all.len() <= 4,
                    node_views(successors@) == all.skip(done),
                    forall|i: int|
                        0 <= i < successors.len() ==> (
                        #[trigger] successors[i]).npuzzle.well_formed(),
                    state.closed.dom().len() <= SETTLED_LIMIT,
                    potential(pending) <= potential_popped + done * weight(popped.g + 1),
                decreases successors.len(),
            {
                let ghost before = successors@;
                let successor = successors.remove(0);
                proof {
                    assert(all.skip(done).len() == all.len() - done);
                    assert(node_views(before).len() == before.len());
                    assert(node_views(before)[0] == before[0]@);
                    assert(all.skip(done)[0] == all[done]);
                    assert(successor@ == all[done]);
                    assert(node_views(successors@) =~= all.skip(done + 1)) by {
                        assert forall|i: int| 0 <= i < successors.len() implies node_views(
                            successors@,
                        )[i] == all.skip(done + 1)[i] by {
                            assert(successors@[i] == before[i + 1]);
                            assert(node_views(before)[i + 1] == before[i + 1]@);
                            assert(all.skip(done)[i + 1] == all[done + i + 1]);
                        }
                    }
                    assert forall|i: int| 0 <= i < successors.len() implies (
                    #[trigger] successors[i]).npuzzle.well_formed() by {
                        assert(successors@[i] == before[i + 1]);
                    }
                    assert((done + 1) * weight(popped.g + 1) == done * weight(popped.g + 1)
                        + weight(popped.g + 1)) by (nonlinear_arith);
                }
                if !closed_set.contains(&successor.npuzzle.board) {
                    proof {
                        state.lemma_push(popped, done);
                        state = state.push(successor@);
                        pending.to_multiset_ensures();
                        lemma_potential_push(pending, successor@);
                        pending = pending.push(successor@);
                    }
                    open_set.push(*successor);
                } else {
                    proof {
                        state.lemma_skip(popped, done);
                    }
                }
                proof {
                    done = done + 1;
                }
            }
            proof {
                if fresh {
                    state.lemma_expanded(popped);
                } else {
                    assert(4 * weight(popped.g + 1) >= done * weight(popped.g + 1))
                        by (nonlinear_arith)
                        requires
                            done <= 4,
                    ;
                    assert(potential(pending) < potential_before);
                }
            }
        }
    }

    /// Replays `moves` on `npuzzle` and hands back the solved board where
    /// they solve it. An illegal move and a board other than the solved one
    /// at the end are both failures of the check.
    #[verifier::loop_isolation(false)]
    pub fn check_solution(npuzzle: NPuzzle, moves: &Vec<Move>) -> (r: Result<NPuzzle, PuzzleError>)
        requires
            npuzzle.well_formed(),
        ensures
            match r {
                Ok(solved) => solves(npuzzle@, moves@) && solved@ == Board::goal(npuzzle@.size)
                    && solved.well_formed(),
                Err(e) => e == PuzzleError::Verification && !solves(npuzzle@, moves@),
            },
    {
        let ghost start = npuzzle@;
        let mut current = npuzzle;
        let mut i: usize = 0;
        proof {
            assert(moves@.take(0) =~= Seq::<Move>::empty());
        }
        while i < moves.len()
            invariant
                i <= moves.len(),
                current.well_formed(),
                current@.size == start.size,
                start.replay(moves@.take(i as int)) == Some(current@),
            decreases moves.len() - i,
        {
            let ghost board = current@;
            let movement = moves[i];
            proof {
                assert(moves@.take(i + 1) =~= moves@.take(i as int).push(movement));
                lemma_replay_push(start, moves@.take(i as int), movement);
                assert(moves@ =~= moves@.take(i + 1) + moves@.skip(i + 1));
                lemma_replay_concat(start, moves@.take(i + 1), moves@.skip(i + 1));
                if board.can_move(movement) {
                    board.lemma_apply(movement);
                }
            }
            if current.apply_move(movement).is_err() {
                return Err(PuzzleError::Verification);
            }
            i += 1;
        }
        proof {
            assert(moves@.take(moves.len() as int) =~= moves@);
        }
        let correct = NPuzzle::goal_board(current.size);
        if same_tiles(&current.board, &correct.board) {
            Ok(current)
        } else {
            Err(PuzzleError::Verification)
        }
    }
}

} // verus!
