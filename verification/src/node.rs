use vstd::prelude::*;
use crate::closed_set::same_tiles;
use crate::heuristics::HeuristicFn;
use crate::npuzzle::{Board, Move, NPuzzle};

verus! {

/// A board met by the search, with the cost of the path that led to it.
#[derive(Debug)]
pub struct Node {
    pub npuzzle: NPuzzle,
    pub g: i32,
    pub h: i32,
    pub movement: Option<Move>,
}

/// A search node as a mathematical value.
pub struct NodeView {
    pub board: Board,
    /// The number of moves from the root.
    pub g: int,
    /// The estimate of the moves left to the goal.
    pub h: int,
    /// The move that produced the board from its parent; `None` at the root.
    pub movement: Option<Move>,
}

impl NodeView {
    /// The priority of the node in the frontier.
    pub open spec fn f(self) -> int {
        self.g + self.h
    }

    /// The node that `m` leads to from `self`, valued by `heuristic_fn`.
    pub open spec fn successor(self, m: Move, heuristic_fn: HeuristicFn) -> NodeView {
        NodeView {
            board: self.board.apply(m),
            g: self.g + 1,
            h: heuristic_fn.estimate(self.board.apply(m)),
            movement: Some(m),
        }
    }

    /// The successor under `m` where `m` is legal, else nothing.
    pub open spec fn successor_if_legal(self, m: Move, heuristic_fn: HeuristicFn) -> Seq<
        NodeView,
    > {
        if self.board.can_move(m) {
            seq![self.successor(m, heuristic_fn)]
        } else {
            Seq::empty()
        }
    }

    /// The successors under the legal moves, in the order up, down, left,
    /// right.
    pub open spec fn successors(self, heuristic_fn: HeuristicFn) -> Seq<NodeView> {
        self.successor_if_legal(Move::Up, heuristic_fn) + self.successor_if_legal(
            Move::Down,
            heuristic_fn,
        ) + self.successor_if_legal(Move::Left, heuristic_fn) + self.successor_if_legal(
            Move::Right,
            heuristic_fn,
        )
    }
}

/// The successors are the nodes that the legal moves lead to, each once.
pub proof fn lemma_successors(node: NodeView, heuristic_fn: HeuristicFn)
    ensures
        node.successors(heuristic_fn).len() <= 4,
        forall|m: Move| #[trigger]
            node.board.can_move(m) ==> node.successors(heuristic_fn).contains(
                node.successor(m, heuristic_fn),
            ),
        forall|k: int|
            0 <= k < node.successors(heuristic_fn).len() ==> {
                let v = #[trigger] node.successors(heuristic_fn)[k];
                &&& v.movement is Some
                &&& node.board.can_move(v.movement.unwrap())
                &&& v == node.successor(v.movement.unwrap(), heuristic_fn)
            },
{
    let up = node.successor_if_legal(Move::Up, heuristic_fn);
    let down = node.successor_if_legal(Move::Down, heuristic_fn);
    let left = node.successor_if_legal(Move::Left, heuristic_fn);
    let right = node.successor_if_legal(Move::Right, heuristic_fn);
    let all = node.successors(heuristic_fn);
    assert(all == up + down + left + right);
    assert forall|m: Move| #[trigger] node.board.can_move(m) implies all.contains(
        node.successor(m, heuristic_fn),
    ) by {
        let k: int = match m {
            Move::Up => 0int,
            Move::Down => up.len() as int,
            Move::Left => (up.len() + down.len()) as int,
            Move::Right => (up.len() + down.len() + left.len()) as int,
        };
        assert(all[k] == node.successor(m, heuristic_fn));
    }
    assert forall|k: int| 0 <= k < all.len() implies {
        let v = #[trigger] all[k];
        &&& v.movement is Some
        &&& node.board.can_move(v.movement.unwrap())
        &&& v == node.successor(v.movement.unwrap(), heuristic_fn)
    } by {
        if k < up.len() {
            assert(all[k] == up[k]);
        } else if k < up.len() + down.len() {
            assert(all[k] == down[k - up.len()]);
        } else if k < up.len() + down.len() + left.len() {
            assert(all[k] == left[k - up.len() - down.len()]);
        } else {
            assert(all[k] == right[k - up.len() - down.len() - left.len()]);
        }
    }
}

impl View for Node {
    type V = NodeView;

    open spec fn view(&self) -> NodeView {
        NodeView {
            board: self.npuzzle@,
            g: self.g as int,
            h: self.h as int,
            movement: self.movement,
        }
    }
}

impl Clone for Node {
    fn clone(&self) -> (r: Self)
        ensures
            r@ == self@,
            r.npuzzle.blank_pos == self.npuzzle.blank_pos,
    {
        Node { npuzzle: self.npuzzle.clone(), g: self.g, h: self.h, movement: self.movement }
    }
}

/// Two nodes are equal where their boards hold the same tiles, whatever
/// their costs and moves.
impl PartialEq for Node {
    fn eq(&self, other: &Node) -> (r: bool) {
        same_tiles(&self.npuzzle.board, &other.npuzzle.board)
    }
}

impl vstd::std_specs::cmp::PartialEqSpecImpl for Node {
    open spec fn obeys_eq_spec() -> bool {
        true
    }

    open spec fn eq_spec(&self, other: &Node) -> bool {
        self.npuzzle.board@ == other.npuzzle.board@
    }
}

impl Eq for Node {

}

/// The views of the nodes in `nodes`, in order.
pub open spec fn node_views(nodes: Seq<Box<Node>>) -> Seq<NodeView> {
    Seq::new(nodes.len(), |i: int| nodes[i]@)
}

impl Node {
    /// The board is well formed and neither cost is negative.
    pub open spec fn well_formed(&self) -> bool {
        &&& self.npuzzle.well_formed()
        &&& self.g >= 0
        &&& self.h >= 0
    }

    /// The node with the given board, costs and move.
    pub fn new(npuzzle: NPuzzle, g: i32, h: i32, movement: Option<Move>) -> (r: Self)
        ensures
            r.npuzzle == npuzzle,
            r.g == g,
            r.h == h,
            r.movement == movement,
    {
        Node { npuzzle, g, h, movement }
    }

    /// The node one `movement` away, or `None` where the move is not legal.
    fn get_successor(&self, movement: Move, heuristic_fn: &HeuristicFn) -> (r: Option<Box<Node>>)
        requires
            self.npuzzle.well_formed(),
            self.g < i32::MAX,
        ensures
            match r {
                Some(node) => self@.board.can_move(movement) && node@ == self@.successor(
                    movement,
                    *heuristic_fn,
                ) && node.npuzzle.well_formed(),
                None => !self@.board.can_move(movement),
            },
    {
        if !self.npuzzle.can_move(movement) {
            return None;
        }
        let mut successor_npuzzle = self.npuzzle.clone();
        if successor_npuzzle.apply_move(movement).is_ok() {
            let new_h = heuristic_fn.evaluate(&successor_npuzzle);
            Some(Box::new(Node::new(successor_npuzzle, self.g + 1, new_h, Some(movement))))
        } else {
            None
        }
    }

    /// The nodes one legal move away, in the order up, down, left, right.
    pub fn get_successors(&self, heuristic_fn: &HeuristicFn) -> (r: Vec<Box<Node>>)
        requires
            self.npuzzle.well_formed(),
            self.g < i32::MAX,
        ensures
            node_views(r@) == self@.successors(*heuristic_fn),
            forall|i: int| 0 <= i < r.len() ==> (#[trigger] r[i]).npuzzle.well_formed(),
    {
        let movements = [Move::Up, Move::Down, Move::Left, Move::Right];
        let mut successors: Vec<Box<Node>> = Vec::new();
        let ghost mut views: Seq<NodeView> = Seq::empty();
        let mut i: usize = 0;
        while i < 4
            invariant
                i <= 4,
                movements@ == seq![Move::Up, Move::Down, Move::Left, Move::Right],
                self.npuzzle.well_formed(),
                self.g < i32::MAX,
                node_views(successors@) == views,
                forall|k: int|
                    0 <= k < successors.len() ==> (#[trigger] successors[k]).npuzzle.well_formed(),
                i == 0 ==> views == Seq::<NodeView>::empty(),
                i == 1 ==> views == self@.successor_if_legal(Move::Up, *heuristic_fn),
                i == 2 ==> views == self@.successor_if_legal(Move::Up, *heuristic_fn)
                    + self@.successor_if_legal(Move::Down, *heuristic_fn),
                i == 3 ==> views == self@.successor_if_legal(Move::Up, *heuristic_fn)
                    + self@.successor_if_legal(Move::Down, *heuristic_fn)
                    + self@.successor_if_legal(Move::Left, *heuristic_fn),
                i == 4 ==> views == self@.successors(*heuristic_fn),
            decreases 4 - i,
        {
            let movement = movements[i];
            let ghost before = successors@;
            match self.get_successor(movement, heuristic_fn) {
                Some(node) => {
                    successors.push(node);
                    proof {
                        assert(node_views(successors@) =~= node_views(before).push(node@));
                        views = views.push(node@);
                        assert(views =~= node_views(before) + self@.successor_if_legal(
                            movement,
                            *heuristic_fn,
                        ));
                    }
                },
                None => {
                    proof {
                        assert(views =~= views + self@.successor_if_legal(
                            movement,
                            *heuristic_fn,
                        ));
                    }
                },
            }
            i += 1;
        }
        successors
    }
}

} // verus!
