//! Boards drawn at random: the goal after a walk of random moves.

use crate::astar::{
    in_moves, lemma_move_back, lemma_route_extends, lemma_route_prepends, lemma_route_stays, reachable,
};
use crate::node::{
    goal_state, inversions, lemma_board_blank, lemma_neighbour_count, linearized, moves, Goal, Node,
};
use crate::parity::lemma_reachable_even;
use rand::Rng;
use vstd::prelude::*;

verus! {

/// The number of moves of a random walk on the smallest grids; larger grids
/// get as many for each position.
pub const WALK_MOVES: usize = 64;

/// A number below `bound`, drawn by `rand::Rng::gen_range` on the range
/// `0..bound` from the generator that `rand::thread_rng` hands out. The
/// contract claims no more than that the number lies in the range, which is
/// what `gen_range` promises of a range that is not empty; an empty range
/// makes it panic and is left out. Which number comes is not stated: two
/// calls may differ. Where the system cannot seed the generator,
/// `thread_rng` panics.
#[verifier::external_body]
fn random_below(bound: usize) -> (res: usize)
    requires
        bound > 0,
    ensures
        res < bound,
{
    rand::thread_rng().gen_range(0..bound)
}

impl Node {
    /// The board one move away that `pick` selects: of the boards one move
    /// away, in their order, the one at `pick` modulo their number.
    pub fn nth_move(&self, pick: usize) -> (res: Node)
        requires
            self.valid(),
            self.len >= 2,
        ensures
            res.state@ == moves(self.state@, self.len as int)[(pick as int) % (moves(
                self.state@,
                self.len as int,
            ).len() as int)],
            res.len == self.len,
            res.score == 0,
            res.valid(),
            in_moves(self.state@, self.len as int, res.state@),
    {
        proof {
            lemma_neighbour_count(self.state@, self.len as int);
            lemma_board_blank(self.state@, self.len as int);
        }
        let next = self.get_neighbour();
        let k = pick % next.len();
        next[k].clone()
    }

    /// A board of side `size` drawn at random: the goal after a walk of
    /// random moves, so a board from which the goal can be reached again.
    /// Sides 0 and 1 have one board only.
    pub fn random_node(size: usize) -> (res: Node)
        requires
            size * size <= usize::MAX,
        ensures
            res.valid(),
            res.len == size,
            res.score == 0,
            reachable(goal_state(size as int), res.state@, size as int),
            reachable(res.state@, goal_state(size as int), size as int),
            inversions(linearized(res.state@, size as int)) % 2 == 0,
    {
        let goal = Goal::new(size);
        let mut node = goal.node;
        proof {
            lemma_route_stays(goal_state(size as int), size as int);
        }
        if size < 2 {
            proof {
                lemma_reachable_even(node.state@, size as int);
            }
            return node;
        }
        let cells = node.state.len();
        let steps: usize = if cells <= 1000000 {
            cells * WALK_MOVES
        } else {
            1000000 * WALK_MOVES
        };
        let mut done: usize = 0;
        while done < steps
            invariant
                size >= 2,
                node.valid(),
                node.len == size,
                node.score == 0,
                reachable(goal_state(size as int), node.state@, size as int),
                reachable(node.state@, goal_state(size as int), size as int),
            decreases steps - done,
        {
            let pick = random_below(4);
            let next = node.nth_move(pick);
            proof {
                lemma_route_extends(goal_state(size as int), node.state@, next.state@, size as int);
                lemma_move_back(node.state@, size as int, next.state@);
                lemma_route_prepends(next.state@, node.state@, goal_state(size as int), size as int);
            }
            node = next;
            done += 1;
        }
        proof {
            lemma_reachable_even(node.state@, size as int);
        }
        node
    }
}

} // verus!
