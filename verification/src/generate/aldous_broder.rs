//! Aldous-Broder: a random walk that opens the edge it crosses whenever it
//! steps onto a node for the first time.

use vstd::prelude::*;
use rand::rngs::StdRng;
use crate::maze::Edge;
use crate::maze::MazeIndex;
use crate::maze::Node;
use crate::state::Snapshot;
use crate::Animation;
use crate::Signal;
use super::Phase;
use super::State;

verus! {

/// Randomly traverse the grid and whenever we step out of the established maze, open the wall.
pub struct AldousBroder {
    head: Node,
}

impl AldousBroder {
    /// The node that the walk stands on.
    pub closed spec fn head(&self) -> Node {
        self.head
    }

    /// The nodes that the open edges join: the visited ones and the head.
    pub open spec fn tree(&self, s: Snapshot) -> Set<Node> {
        s.visited().insert(self.head())
    }

    /// The number of nodes of the tree.
    pub open spec fn tree_size(&self, s: Snapshot) -> int {
        s.visited_count + if s.is_visited(self.head()) {
            0int
        } else {
            1int
        }
    }

    /// The state after the walk has crossed `edge`: the node it left is
    /// visited, and the edge is open if the node it came to was not visited.
    pub open spec fn crossed(before: Snapshot, edge: Edge) -> Snapshot {
        let left = before.visit(edge.from);
        if left.is_visited(edge.to) {
            left
        } else {
            left.set_edge(edge, true)
        }
    }

    /// Walks along the given edge from the head.
    pub fn cross(&mut self, state: &mut State, edge: Edge)
        requires
            old(self).inv(old(state)),
            old(state).maze.spec_neighbours(old(self).head()).contains(edge),
        ensures
            final(self).inv(final(state)),
            final(self).head() == edge.to,
            final(state)@ == Self::crossed(old(state)@, edge),
    {
        let ghost before = state@;
        let ghost tree = self.tree(before);
        let ghost size = self.tree_size(before);
        proof {
            state.maze@.lemma_neighbours(self.head);
            before.lemma_set_age(self.head, 0);
            before.visit(self.head).lemma_all_visited();
        }
        state.visit(self.head);
        let ghost left = state@;
        assert(self.tree(left) =~= tree);
        self.head = edge.to;
        if !state.is_visited(edge.to) {
            proof {
                state.maze.open.lemma_covers(edge, state.maze.width, state.maze.height);
                left.maze.lemma_tree_grows(tree, size, edge);
            }
            state.maze.open.set(edge, true);
            assert(state@ == left.set_edge(edge, true));
            assert(self.tree(state@) =~= tree.insert(edge.to));
        } else {
            assert(self.tree(state@) =~= tree);
        }
    }
}

impl Animation for AldousBroder {
    type Phase = Phase;

    /// A blank state on a maze of two or more nodes.
    open spec fn ready(state: &State) -> bool {
        &&& state.wf()
        &&& state@.is_blank()
        &&& (state.maze.width >= 2 || state.maze.height >= 2)
    }

    /// The open edges form a tree on the visited nodes and the head.
    open spec fn inv(&self, state: &State) -> bool {
        &&& state.wf()
        &&& (state.maze.width >= 2 || state.maze.height >= 2)
        &&& state.maze.contains(self.head())
        &&& state@.maze.is_tree_on(self.tree(state@), self.tree_size(state@))
    }

    proof fn lemma_inv_outlives_ageing(&self, before: &State, after: &State) {
        before@.lemma_aged();
        self.head().lemma_slot_in_bounds(before.maze.width, before.maze.height);
    }

    /// Puts the head on a random node.
    fn new(state: &mut State, rng: &mut StdRng) -> (r: Self)
        ensures
            *final(state) == *old(state),
    {
        let head = state.maze.random_node(rng);
        let r = AldousBroder { head };
        proof {
            let s = state@;
            s.lemma_blank();
            s.maze.lemma_all_closed();
            s.maze.lemma_connected_reflexive(head);
            assert(r.tree(s) =~= set![head]);
        }
        r
    }

    /// What one timestep makes of the algorithm and its state, and the
    /// signal that it gives.
    open spec fn moves(
        &self,
        state: &State,
        after: &Self,
        after_state: &State,
        signal: Signal,
    ) -> bool {
        &&& (state@.all_visited() ==> signal == Signal::Done && *after_state == *state
                && *after == *self)
        &&& (!state@.all_visited() ==> signal == Signal::Continue && exists|edge: Edge|
                state.maze.spec_neighbours(self.head()).contains(edge)
                    && after.head() == edge.to
                    && after_state@ == Self::crossed(state@, edge))
        &&& (signal == Signal::Done ==> after_state@.maze.is_spanning_tree())
    }

    /// Ends once every node is visited; until then, crosses a random edge
    /// from the head.
    fn step(&mut self, state: &mut State, rng: &mut StdRng) -> (r: Signal)
    {
        if state.all_visited() {
            proof {
                let s = state@;
                s.lemma_all_visited();
                assert(self.tree(s) =~= s.visited());
                s.maze.lemma_tree_spans(s.visited());
            }
            return Signal::Done;
        }
        proof {
            state.maze@.lemma_neighbours(self.head);
        }
        let edge = state.maze.neighbours(self.head).pick(rng);
        self.cross(state, edge);
        Signal::Continue
    }

    proof fn lemma_inv_can_be_drawn(&self, state: &State) {
    }

    open spec fn spec_timescale(&self) -> u32 {
        100
    }

    fn timescale(&self) -> (r: u32) {
        100
    }
}

} // verus!
