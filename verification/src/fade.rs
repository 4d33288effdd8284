//! Fading: a number of steps in which nothing happens but that the visited
//! nodes grow older.

use vstd::prelude::*;
use rand::rngs::StdRng;
use std::marker::PhantomData;
use crate::maze::Node;
use crate::state::Phase;
use crate::state::State;
use crate::Animation;
use crate::Signal;

verus! {

/// An animation of `STEPS` steps that leaves the state to age.
pub struct Fade<T, const STEPS: u8> {
    steps: u8,
    _phase: PhantomData<T>,
}

impl<T, const STEPS: u8> Fade<T, STEPS> {
    /// The number of steps that are left.
    pub closed spec fn steps(&self) -> u8 {
        self.steps
    }
}

impl<T: Phase, const STEPS: u8> Animation for Fade<T, STEPS> {
    type Phase = T;

    /// Any well-formed state of which every node can be drawn.
    open spec fn ready(state: &State<T>) -> bool {
        &&& state.wf()
        &&& forall|n: Node| state.maze.contains(n) ==> state.phase.knows(n)
    }

    open spec fn inv(&self, state: &State<T>) -> bool {
        &&& state.wf()
        &&& forall|n: Node| state.maze.contains(n) ==> state.phase.knows(n)
    }

    proof fn lemma_inv_outlives_ageing(&self, before: &State<T>, after: &State<T>) {
    }

    /// Starts with all the steps left.
    fn new(state: &mut State<T>, rng: &mut StdRng) -> (r: Self)
        ensures
            *final(state) == *old(state),
            r.steps() == STEPS,
    {
        Fade { steps: STEPS, _phase: PhantomData }
    }

    /// What one timestep makes of the algorithm and its state, and the
    /// signal that it gives.
    open spec fn moves(
        &self,
        state: &State<T>,
        after: &Self,
        after_state: &State<T>,
        signal: Signal,
    ) -> bool {
        &&& (*after_state == *state)
        &&& (self.steps() == 0 ==> signal == Signal::Done && after.steps() == 0)
        &&& (self.steps() > 0 ==> signal == Signal::Continue && after.steps() == self.steps() - 1)
    }

    /// Takes one of the steps that are left, and ends when none is.
    fn step(&mut self, state: &mut State<T>, rng: &mut StdRng) -> (r: Signal)
    {
        match self.steps.checked_sub(1) {
            Some(steps) => {
                self.steps = steps;
                Signal::Continue
            },
            None => Signal::Done,
        }
    }

    proof fn lemma_inv_can_be_drawn(&self, state: &State<T>) {
    }

    open spec fn spec_timescale(&self) -> u32 {
        350
    }

    fn timescale(&self) -> (r: u32) {
        350
    }
}

} // verus!
