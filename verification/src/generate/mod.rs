//! The generation phase: opening edges until they form a spanning tree.

use vstd::prelude::*;
use crate::maze::Maze;
use crate::maze::Node;
use crate::maze::NodeBuffer;
use crate::state;

pub mod aldous_broder;
pub mod dfs;
pub mod kruskal;
pub mod prim;
pub mod wilson;

verus! {

/// State for the generate phase (currently none needed).
pub struct Phase;

impl state::Phase for Phase {
    open spec fn knows(&self, node: Node) -> bool {
        true
    }

    open spec fn spec_special(&self, node: Node) -> bool {
        false
    }

    fn special(&self, node: Node) -> (r: bool) {
        false
    }
}

/// Global state in the generate phase.
pub type State = state::State<Phase>;

/// Constructs a new global state for the generate phase: nothing visited yet.
pub fn state(maze: Maze) -> (r: State)
    requires
        maze.wf(),
    ensures
        r.wf(),
        r.maze == maze,
        r.visited_count == 0,
        forall|i: int| 0 <= i < r.age@.len() ==> (#[trigger] r.age@[i]) is None,
{
    let age = NodeBuffer::new(&maze);
    proof {
        state::lemma_count_visited_none(age@, age@.len() as int);
    }
    State { maze, age, visited_count: 0, phase: Phase }
}

/// The algorithms that generate a maze.
#[derive(Clone, Copy, Debug, PartialEq, Eq, Structural)]
pub enum Generator {
    AldousBroder,
    Dfs,
    Kruskal,
    Prim,
    Wilson,
}

} // verus!
