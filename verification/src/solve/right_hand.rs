//! The right-hand rule: walks with one hand on the wall until it comes to
//! the goal.

use vstd::prelude::*;
use rand::rngs::StdRng;
use crate::lattice::Lattice;
use crate::maze::Direction;
use crate::maze::Edge;
use crate::maze::Node;
use crate::Animation;
use crate::Signal;
use super::trace::noted;
use super::Phase;
use super::State;

verus! {

/// Follows the wall on the right until the goal is found.
pub struct RightHand {
    head: Node,
    direction: Direction,
}

/// The direction faced after turning left from `direction`, at most `turns`
/// times, until an open edge leads on from the node.
pub open spec fn turned(l: Lattice, node: Node, direction: Direction, turns: nat) -> Direction
    decreases turns,
{
    if turns == 0 || l.open_edge(node, direction) is Some {
        direction
    } else {
        turned(l, node, direction.anti_clockwise(), (turns - 1) as nat)
    }
}

/// The number of turns to the left from `direction` until an open edge
/// leads on from the node; four where there is none.
pub open spec fn turns_needed(l: Lattice, node: Node, direction: Direction) -> nat {
    if l.open_edge(node, direction) is Some {
        0
    } else if l.open_edge(node, direction.anti_clockwise()) is Some {
        1
    } else if l.open_edge(node, direction.anti_clockwise().anti_clockwise()) is Some {
        2
    } else if l.open_edge(
        node,
        direction.anti_clockwise().anti_clockwise().anti_clockwise(),
    ) is Some {
        3
    } else {
        4
    }
}

impl RightHand {
    /// The node that the walker stands on.
    pub closed spec fn head(&self) -> Node {
        self.head
    }

    /// The direction that the walker tries first.
    pub closed spec fn direction(&self) -> Direction {
        self.direction
    }

    /// The open edge that the walker takes from a node when it tries
    /// `direction` first.
    pub open spec fn way_on(l: Lattice, node: Node, direction: Direction) -> Edge {
        l.open_edge(node, turned(l, node, direction, 3)).unwrap()
    }
}

impl Animation for RightHand {
    type Phase = Phase;

    /// A fresh state on a maze that is a spanning tree.
    open spec fn ready(state: &State) -> bool {
        &&& state.is_fresh()
        &&& state@.maze.is_spanning_tree()
    }

    /// The parents lead from the head, and from every visited node, to the
    /// start.
    open spec fn inv(&self, state: &State) -> bool {
        &&& state.sound()
        &&& state@.maze.is_spanning_tree()
        &&& state.maze.contains(self.head())
        &&& state.reached(self.head())
        &&& (state.phase.goal == state.phase.start ==> self.head() == state.phase.start
            && state.parent_of(state.phase.start) is None)
    }

    proof fn lemma_inv_outlives_ageing(&self, before: &State, after: &State) {
        before.lemma_sound_outlives_ageing(after);
    }

    /// Puts the walker on the start, facing north.
    fn new(state: &mut State, rng: &mut StdRng) -> (r: RightHand)
        ensures
            *final(state) == *old(state),
            r.head() == old(state).phase.start,
            r.direction() == Direction::North,
    {
        proof {
            state.lemma_fresh_sound();
        }
        RightHand { head: state.phase.start, direction: Direction::North }
    }

    /// What one timestep makes of the algorithm and its state, and the
    /// signal that it gives.
    open spec fn moves(
        &self,
        state: &State,
        after: &Self,
        after_state: &State,
        signal: Signal,
    ) -> bool {
        &&& (signal == Signal::Done <==> self.head() == state.phase.goal)
        &&& (after_state@ == state@.visit(self.head()))
        &&& (after_state.phase.start == state.phase.start)
        &&& (after_state.phase.goal == state.phase.goal)
        &&& (signal == Signal::Done ==> after_state.phase == state.phase && *after == *self
            && after_state.solved())
        &&& (signal == Signal::Continue ==> {
                let edge = Self::way_on(state@.maze, self.head(), self.direction());
                &&& state@.maze.open_neighbours(self.head()).contains(edge)
                &&& after.head() == edge.to
                &&& after.direction() == edge.direction.clockwise()
                &&& after_state.phase.parents@ == noted(
                    state.phase.parents@,
                    state.maze.width,
                    edge.to,
                    self.head(),
                )
            })
    }

    /// Visits the head, and ends there if it is the goal; else turns left
    /// until an open edge leads on, takes it, and turns right.
    fn step(&mut self, state: &mut State, rng: &mut StdRng) -> (r: Signal)
    {
        let ghost l = state@.maze;
        let ghost first = self.direction;
        proof {
            state@.lemma_set_age(self.head, 0);
        }
        state.reach(self.head);
        if self.head == state.phase.goal {
            return Signal::Done;
        }
        proof {
            assert(l.connected(self.head, state.phase.goal));
            l.lemma_connected_has_open_edge(self.head, state.phase.goal);
            let d = choose|d: Direction| (#[trigger] l.open_edge(self.head, d)) is Some;
            first.lemma_turns();
            first.anti_clockwise().lemma_turns();
            first.anti_clockwise().anti_clockwise().lemma_turns();
            reveal_with_fuel(turned, 4);
        }
        loop
            invariant
                state.sound(),
                state@.maze == l,
                state.maze.contains(self.head),
                state@.is_visited(self.head),
                state.reached(self.head),
                self.head == old(self).head,
                self.head != state.phase.goal,
                l == old(state)@.maze,
                first == old(self).direction,
                state.phase.goal != state.phase.start,
                state.maze == old(state).maze,
                state@ == old(state)@.visit(self.head),
                state.phase == old(state).phase,
                state@.maze.is_spanning_tree(),
                turns_needed(l, self.head, self.direction) <= 3,
                turned(l, self.head, self.direction, 3) == turned(l, self.head, first, 3),
            decreases turns_needed(l, self.head, self.direction),
        {
            let found = match state.maze.edge(self.head, self.direction) {
                Some(edge) => {
                    proof {
                        l.lemma_edge(self.head, self.direction);
                        state.maze.open.lemma_covers(edge, state.maze.width, state.maze.height);
                    }
                    if *state.maze.open.get(edge) {
                        Some(edge)
                    } else {
                        None
                    }
                },
                None => None,
            };
            assert(found == l.open_edge(self.head, self.direction));
            match found {
                Some(edge) => {
                    proof {
                        l.lemma_edge(self.head, self.direction);
                        l.lemma_open_neighbours(self.head);
                        reveal_with_fuel(turned, 4);
                    }
                    self.head = edge.to;
                    self.direction = edge.direction.clockwise();
                    state.note_parent(edge);
                    return Signal::Continue;
                },
                None => {
                    proof {
                        self.direction.lemma_turns();
                        self.direction.anti_clockwise().lemma_turns();
                        self.direction.anti_clockwise().anti_clockwise().lemma_turns();
                        reveal_with_fuel(turned, 5);
                    }
                    self.direction = self.direction.anti_clockwise();
                },
            }
        }
    }

    proof fn lemma_inv_can_be_drawn(&self, state: &State) {
    }

    open spec fn spec_timescale(&self) -> u32 {
        100
    }

    fn timescale(&self) -> (r: u32) {
        100
    }
}

} // verus!
