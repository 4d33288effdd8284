//! The mouse: a random walk along open edges until it comes to the goal.

use vstd::prelude::*;
use rand::rngs::StdRng;
use crate::maze::Edge;
use crate::maze::Node;
use crate::Animation;
use crate::Signal;
use super::trace::noted;
use super::Phase;
use super::State;

verus! {

/// Perform a random walk in the maze until the goal is found.
pub struct Mouse {
    head: Node,
}

impl Mouse {
    /// The node that the mouse stands on.
    pub closed spec fn head(&self) -> Node {
        self.head
    }

    /// Visits the head and moves along the given open edge, noting the head
    /// as the parent of the node come to unless that node has one.
    pub fn follow(&mut self, state: &mut State, edge: Edge)
        requires
            old(self).inv(old(state)),
            old(self).head() != old(state).phase.goal,
            old(state)@.maze.open_neighbours(old(self).head()).contains(edge),
        ensures
            final(self).inv(final(state)),
            final(self).head() == edge.to,
            final(state)@ == old(state)@.visit(old(self).head()),
            final(state).phase.start == old(state).phase.start,
            final(state).phase.goal == old(state).phase.goal,
            final(state).phase.parents@ == noted(
                old(state).phase.parents@,
                old(state).maze.width,
                edge.to,
                old(self).head(),
            ),
    {
        proof {
            state@.maze.lemma_open_neighbours(self.head);
            state@.lemma_set_age(self.head, 0);
        }
        state.reach(self.head);
        state.note_parent(edge);
        self.head = edge.to;
    }
}

impl Animation for Mouse {
    type Phase = Phase;

    /// A fresh state on a maze that is a spanning tree.
    open spec fn ready(state: &State) -> bool {
        &&& state.is_fresh()
        &&& state@.maze.is_spanning_tree()
    }

    /// The parents lead from the head, and from every visited node, to the
    /// start.
    open spec fn inv(&self, state: &State) -> bool {
        &&& state.sound()
        &&& state@.maze.is_spanning_tree()
        &&& state.maze.contains(self.head())
        &&& state.reached(self.head())
        &&& (state.phase.goal == state.phase.start ==> self.head() == state.phase.start
            && state.parent_of(state.phase.start) is None)
    }

    proof fn lemma_inv_outlives_ageing(&self, before: &State, after: &State) {
        before.lemma_sound_outlives_ageing(after);
    }

    /// Puts the mouse on the start.
    fn new(state: &mut State, rng: &mut StdRng) -> (r: Self)
        ensures
            *final(state) == *old(state),
            r.head() == old(state).phase.start,
    {
        proof {
            state.lemma_fresh_sound();
        }
        Mouse { head: state.phase.start }
    }

    /// What one timestep makes of the algorithm and its state, and the
    /// signal that it gives.
    open spec fn moves(
        &self,
        state: &State,
        after: &Self,
        after_state: &State,
        signal: Signal,
    ) -> bool {
        &&& (signal == Signal::Done <==> self.head() == state.phase.goal)
        &&& (after_state@ == state@.visit(self.head()))
        &&& (after_state.phase.start == state.phase.start)
        &&& (after_state.phase.goal == state.phase.goal)
        &&& (signal == Signal::Done ==> after_state.phase == state.phase && *after == *self
            && after_state.solved())
        &&& (signal == Signal::Continue ==> exists|edge: Edge|
            #![auto]
            state@.maze.open_neighbours(self.head()).contains(edge) && after.head() == edge.to
                && after_state.phase.parents@ == noted(
                state.phase.parents@,
                state.maze.width,
                edge.to,
                self.head(),
            ))
    }

    /// Visits the head, and ends there if it is the goal; else moves along
    /// a random open edge.
    fn step(&mut self, state: &mut State, rng: &mut StdRng) -> (r: Signal)
    {
        if self.head == state.phase.goal {
            proof {
                state@.lemma_set_age(self.head, 0);
            }
            state.reach(self.head);
            return Signal::Done;
        }
        proof {
            let l = state@.maze;
            assert(l.connected(self.head, state.phase.goal));
            l.lemma_connected_has_open_edge(self.head, state.phase.goal);
        }
        let edge = state.maze.open_neighbours(self.head).pick(rng).expect(
            "There are no isolated nodes",
        );
        self.follow(state, edge);
        Signal::Continue
    }

    proof fn lemma_inv_can_be_drawn(&self, state: &State) {
    }

    open spec fn spec_timescale(&self) -> u32 {
        100
    }

    fn timescale(&self) -> (r: u32) {
        100
    }
}

} // verus!
