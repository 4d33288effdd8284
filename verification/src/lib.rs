//! Step-wise maze generation, solving and path walking on a rectangular lattice.

use vstd::prelude::*;
use vstd::std_specs::convert::FromSpecImpl;
use rand::rngs::StdRng;
use crate::maze::Node;
use crate::state::Cell;
use crate::state::Phase;
use crate::state::State;

pub mod counting;
pub mod colour;
pub mod fade;
pub mod generate;
pub mod lattice;
pub mod maze;
pub mod neighbours;
pub mod paths;
pub mod random;
pub mod solve;
pub mod state;
pub mod walk;

verus! {

/// Signals the algorithm runtime what to do after each timestep.
#[derive(Clone, Copy, Debug, PartialEq, Eq, Structural)]
pub enum Signal {
    Continue,
    Done,
}

/// The error type of input and output, `std::io::Error`.
#[verifier::external_type_specification]
#[verifier::external_body]
pub struct ExIoError(std::io::Error);

/// Why a run ended early.
pub enum Error {
    /// Drawing or polling failed.
    Io(std::io::Error),
    /// The user interrupted the run.
    Break,
}

impl From<std::io::Error> for Error {
    fn from(e: std::io::Error) -> (r: Self) {
        Error::Io(e)
    }
}

impl FromSpecImpl<std::io::Error> for Error {
    open spec fn obeys_from_spec() -> bool {
        true
    }

    open spec fn from_spec(e: std::io::Error) -> Self {
        Error::Io(e)
    }
}

/// Generalisation over different algorithms being animated upon a maze.
pub trait Animation: Sized {
    type Phase: Phase;

    /// What a state must be like for the algorithm to be started on it.
    spec fn ready(state: &State<Self::Phase>) -> bool;

    /// What holds of the algorithm and its state between any two steps.
    spec fn inv(&self, state: &State<Self::Phase>) -> bool;

    /// The invariant speaks of a well-formed state, and does not depend on
    /// how old the visited nodes are.
    proof fn lemma_inv_outlives_ageing(
        &self,
        before: &State<Self::Phase>,
        after: &State<Self::Phase>,
    )
        requires
            self.inv(before),
            after.wf(),
            after@ == before@.aged(),
            after.maze == before.maze,
            after.phase == before.phase,
        ensures
            before.wf(),
            self.inv(after),
    ;

    /// Constructs the algorithm from a given state.
    fn new(state: &mut State<Self::Phase>, rng: &mut StdRng) -> (r: Self)
        requires
            Self::ready(old(state)),
        ensures
            r.inv(final(state)),
    ;

    /// What one timestep may make of the algorithm and its state, and the
    /// signal that it then gives.
    spec fn moves(
        &self,
        state: &State<Self::Phase>,
        after: &Self,
        after_state: &State<Self::Phase>,
        signal: Signal,
    ) -> bool;

    /// Moves the animation one timestep forward.
    fn step(&mut self, state: &mut State<Self::Phase>, rng: &mut StdRng) -> (r: Signal)
        requires
            old(self).inv(old(state)),
        ensures
            final(self).inv(final(state)),
            old(self).moves(old(state), final(self), final(state), r),
    ;

    /// The invariant speaks of a state of which every node can be drawn.
    proof fn lemma_inv_can_be_drawn(&self, state: &State<Self::Phase>)
        requires
            self.inv(state),
        ensures
            state.wf(),
            forall|n: Node| state.maze.contains(n) ==> state.phase.knows(n),
    ;

    spec fn spec_timescale(&self) -> u32;

    /// Animation timescale, in percent of the base speed: the delay between
    /// two frames is the base delay times 100 over the timescale.
    fn timescale(&self) -> (r: u32)
        ensures
            r == self.spec_timescale(),
            r > 0,
    ;
}

/// What one turn of the run loop hands to its caller.
pub enum Turn {
    /// A frame to draw, and the time in nanoseconds to wait after that.
    Show { frame: Vec<Vec<Cell>>, delay: u128 },
    /// The algorithm is done.
    Over,
}

/// Whether the rows of cells are those given.
pub open spec fn shows(frame: Vec<Vec<Cell>>, rows: Seq<Seq<Cell>>) -> bool {
    &&& frame@.len() == rows.len()
    &&& forall|j: int| 0 <= j < frame@.len() ==> (#[trigger] frame@[j])@ == rows[j]
}

/// One turn of the run loop: moves the algorithm one timestep forward. If
/// that gave the signal to stop, the turn is over, with algorithm and state
/// as the step left them. Otherwise the turn takes the frame of the state as
/// the step left it, lets the visited nodes age by one tick, and works out
/// the delay until the next turn.
pub fn turn<A: Animation>(
    algorithm: &mut A,
    state: &mut State<A::Phase>,
    rng: &mut StdRng,
    delay: u64,
) -> (r: Turn)
    requires
        old(algorithm).inv(old(state)),
    ensures
        final(algorithm).inv(final(state)),
        match r {
            Turn::Show { frame, delay: wait } => {
                &&& wait == 100 * delay / (final(algorithm).spec_timescale() as int)
                &&& exists|shown: State<A::Phase>|
                    #![auto]
                    old(algorithm).moves(old(state), final(algorithm), &shown, Signal::Continue)
                        && final(algorithm).inv(&shown) && shows(frame, shown.spec_frame())
                        && final(state)@ == shown@.aged() && final(state).maze == shown.maze
                        && final(state).phase == shown.phase
            },
            Turn::Over => old(algorithm).moves(
                old(state),
                final(algorithm),
                final(state),
                Signal::Done,
            ),
        },
{
    match algorithm.step(state, rng) {
        Signal::Done => Turn::Over,
        Signal::Continue => {
            proof {
                algorithm.lemma_inv_can_be_drawn(state);
            }
            let frame = state.frame();
            let ghost shown = *state;
            state.step();
            proof {
                algorithm.lemma_inv_outlives_ageing(&shown, state);
            }
            let wait = frame_delay(delay, algorithm.timescale());
            Turn::Show { frame, delay: wait }
        },
    }
}

/// The delay between two frames, in nanoseconds: the base delay times 100
/// over the timescale of the algorithm.
pub fn frame_delay(delay: u64, timescale: u32) -> (r: u128)
    requires
        timescale > 0,
    ensures
        r == 100 * delay / (timescale as int),
{
    100u128 * (delay as u128) / (timescale as u128)
}

/// What the wait between two frames comes to: a break where the user
/// interrupted it, else nothing.
pub fn wait_outcome(interrupted: bool) -> (r: Result<(), Error>)
    ensures
        interrupted ==> r == Err::<(), Error>(Error::Break),
        !interrupted ==> r == Ok::<(), Error>(()),
{
    if interrupted {
        Err(Error::Break)
    } else {
        Ok(())
    }
}

} // verus!
