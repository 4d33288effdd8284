//! The walking phase: following the parents back from the goal to the
//! start, and marking the nodes on the way.

use vstd::prelude::*;
use rand::rngs::StdRng;
use crate::maze::lemma_node_slots_differ;
use crate::maze::MazeIndex;
use crate::maze::Node;
use crate::maze::NodeBuffer;
use crate::solve;
use crate::solve::trace::ancestor;
use crate::solve::trace::depth_at;
use crate::solve::trace::lemma_ancestor_next;
use crate::solve::trace::lemma_lineage;
use crate::solve::trace::lemma_traced_aged;
use crate::solve::trace::lemma_traced_ranked;
use crate::solve::trace::parent_at;
use crate::solve::trace::traced;
use crate::solve::trace::traced_at;
use crate::state;
use crate::Animation;
use crate::Signal;

verus! {

/// Walks back from the goal along the parents.
pub struct Walker {
    head: Node,
    /// The number of steps taken from the goal.
    steps: Ghost<nat>,
}

/// State for the walk phase.
pub struct Phase {
    start: Node,
    goal: Node,
    parents: NodeBuffer<Option<Node>>,
    on_path: NodeBuffer<bool>,
}

impl Phase {
    /// Node that was searched from.
    pub closed spec fn start(&self) -> Node {
        self.start
    }

    /// Node that was searched to.
    pub closed spec fn goal(&self) -> Node {
        self.goal
    }

    /// The parent of each node that the search reached.
    pub closed spec fn parents(&self) -> Seq<Option<Node>> {
        self.parents@
    }

    /// For each node, whether the walk has marked it.
    pub closed spec fn on_path(&self) -> Seq<bool> {
        self.on_path@
    }

    /// The width of the maze that the marks are laid out for.
    pub closed spec fn width(&self) -> usize {
        self.on_path.spec_width()
    }

    /// Whether parents and marks cover the nodes of a maze of the given
    /// size.
    pub closed spec fn fits(&self, width: usize, height: usize) -> bool {
        self.parents.fits(width, height) && self.on_path.fits(width, height)
    }

    /// Whether the walk has marked the node.
    pub open spec fn marked(&self, width: usize, node: Node) -> bool {
        self.on_path()[node.spec_normalise(width)]
    }
}

impl state::Phase for Phase {
    /// The marks have a slot for the node.
    closed spec fn knows(&self, node: Node) -> bool {
        self.on_path.covers(node)
    }

    /// The start, the goal and the marked nodes are special.
    open spec fn spec_special(&self, node: Node) -> bool {
        self.marked(self.width(), node) || node == self.start() || node == self.goal()
    }

    /// The start, the goal and the marked nodes are special.
    fn special(&self, node: Node) -> (r: bool) {
        *self.on_path.get(node) || node == self.start || node == self.goal
    }
}

/// Global state in the walk phase.
pub type State = state::State<Phase>;

impl state::State<Phase> {
    /// The parent noted for a node.
    pub open spec fn parent_of(&self, node: Node) -> Option<Node> {
        parent_at(self.phase.parents(), self.maze.width, node)
    }

    /// The node reached from the goal after a number of steps along the
    /// parents.
    pub open spec fn trail(&self, steps: nat) -> Node {
        ancestor(self.phase.parents(), self.maze.width, self.phase.start(), self.phase.goal(), steps)
    }

    /// Whether the parents lead from the goal to the start.
    pub open spec fn walkable(&self) -> bool {
        &&& self.wf()
        &&& self.phase.fits(self.maze.width, self.maze.height)
        &&& self.phase.width() == self.maze.width
        &&& self.maze.contains(self.phase.start())
        &&& self.maze.contains(self.phase.goal())
        &&& self@.is_visited(self.phase.goal())
        &&& (self.phase.goal() == self.phase.start() ==> self.parent_of(self.phase.start()) is None
            || self.parent_of(self.phase.start()) == Some(self.phase.start()))
        &&& exists|depths: Seq<nat>| #[trigger]
            traced(self@, self.phase.parents(), self.phase.start(), depths)
    }

    /// The walk from the goal comes to the start after fewer steps than the
    /// maze has nodes, and every node it passes before that is a node of the
    /// maze that has a parent.
    pub proof fn lemma_walk_reaches_start(&self) -> (length: nat)
        requires
            self.walkable(),
        ensures
            length <= self.maze.width * self.maze.height - 1,
            self.trail(length) == self.phase.start(),
            forall|j: nat| j < length ==> #[trigger] self.trail(j) != self.phase.start(),
            forall|j: nat|
                j <= length ==> self.maze.contains(#[trigger] self.trail(j)) && (j < length
                    ==> self.parent_of(self.trail(j)) == Some(self.trail(j + 1))),
    {
        let s = self@;
        let w = self.maze.width;
        let start = self.phase.start();
        let goal = self.phase.goal();
        let parents = self.phase.parents();
        let depths = choose|depths: Seq<nat>| #[trigger] traced(s, parents, start, depths);
        let length = depth_at(depths, w, goal);
        lemma_traced_ranked(s, parents, start, depths);
        assert(traced_at(s, parents, start, depths, goal));
        lemma_lineage(s.maze, parents, start, depths, goal);
        s.lemma_all_visited();
        assert forall|j: nat| j <= length implies self.maze.contains(#[trigger] self.trail(j))
            && (j < length ==> self.parent_of(self.trail(j)) == Some(self.trail(j + 1))) by {
            self.lemma_trail(depths, j);
            if j < length {
                lemma_ancestor_next(parents, w, start, goal, j);
            }
        }
        length
    }

    /// Every node that the walk passes is a node of the maze that has been
    /// reached, as many steps less deep than the goal as the walk has
    /// taken.
    proof fn lemma_trail(&self, depths: Seq<nat>, steps: nat)
        requires
            self.walkable(),
            traced(self@, self.phase.parents(), self.phase.start(), depths),
            steps <= depth_at(depths, self.maze.width, self.phase.goal()),
        ensures
            self.maze.contains(self.trail(steps)),
            self.trail(steps) == self.phase.start() || self.parent_of(self.trail(steps)) is Some,
            depth_at(depths, self.maze.width, self.trail(steps)) + steps == depth_at(
                depths,
                self.maze.width,
                self.phase.goal(),
            ),
        decreases steps,
    {
        let s = self@;
        let w = self.maze.width;
        let start = self.phase.start();
        let goal = self.phase.goal();
        let parents = self.phase.parents();
        assert(traced_at(s, parents, start, depths, goal));
        if steps > 0 {
            self.lemma_trail(depths, (steps - 1) as nat);
            let here = self.trail((steps - 1) as nat);
            lemma_ancestor_next(parents, w, start, goal, (steps - 1) as nat);
            assert(traced_at(s, parents, start, depths, here));
            if here != start {
                let p = parent_at(parents, w, here).unwrap();
                let e = s.maze.lemma_linked_edge(p, here);
            }
        }
    }
}

/// Constructs the global state for the walk phase from that of the solve
/// phase: maze, ages and parents stay as they are, and no node is marked.
pub fn state(previous: solve::State) -> (r: State)
    requires
        previous.solved(),
    ensures
        r.walkable(),
        r.maze == previous.maze,
        r.age == previous.age,
        r.visited_count == previous.visited_count,
        r.phase.start() == previous.phase.start,
        r.phase.goal() == previous.phase.goal,
        r.phase.parents() == previous.phase.parents@,
        forall|i: int| 0 <= i < r.phase.on_path().len() ==> !#[trigger] r.phase.on_path()[i],
{
    let solve::Phase { start, goal, parents } = previous.phase;
    let on_path = NodeBuffer::new(&previous.maze);
    let phase = Phase { start, goal, parents, on_path };
    let r = State {
        maze: previous.maze,
        age: previous.age,
        visited_count: previous.visited_count,
        phase,
    };
    proof {
        let depths = choose|depths: Seq<nat>| #[trigger]
            traced(previous@, previous.phase.parents@, previous.phase.start, depths);
        assert(traced(r@, r.phase.parents(), r.phase.start(), depths));
    }
    r
}

impl Walker {
    /// The node that the walk has come to.
    pub closed spec fn head(&self) -> Node {
        self.head
    }

    /// The number of steps that the walk has taken from the goal.
    pub closed spec fn steps(&self) -> nat {
        self.steps@
    }
}

impl Animation for Walker {
    type Phase = Phase;

    /// The parents lead from the goal to the start.
    open spec fn ready(state: &State) -> bool {
        state.walkable()
    }

    /// The walk stands on the node that lies as many steps along the
    /// parents from the goal as it has taken; it has not passed the start;
    /// and every node that it has passed after the goal is marked.
    open spec fn inv(&self, state: &State) -> bool {
        &&& state.walkable()
        &&& self.head() == state.trail(self.steps())
        &&& forall|j: nat|
            j <= self.steps() ==> #[trigger] state.trail(j) != state.phase.start()
                || state.phase.goal() == state.phase.start()
        &&& forall|j: nat|
            1 <= j <= self.steps() ==> state.phase.marked(state.maze.width, #[trigger] state.trail(j))
    }

    proof fn lemma_inv_outlives_ageing(&self, before: &State, after: &State) {
        before@.lemma_aged();
        let depths = choose|depths: Seq<nat>| #[trigger]
            traced(before@, before.phase.parents(), before.phase.start(), depths);
        lemma_traced_aged(before@, before.phase.parents(), before.phase.start(), depths);
        assert forall|j: nat| j <= self.steps() implies #[trigger] after.trail(j)
            != after.phase.start() || after.phase.goal() == after.phase.start() by {
            assert(before.trail(j) == after.trail(j));
        }
        assert forall|j: nat| 1 <= j <= self.steps() implies after.phase.marked(
            after.maze.width,
            #[trigger] after.trail(j),
        ) by {
            assert(before.trail(j) == after.trail(j));
        }
    }

    /// Puts the walk on the goal.
    fn new(state: &mut State, rng: &mut StdRng) -> (r: Self)
        ensures
            *final(state) == *old(state),
            r.head() == old(state).phase.goal(),
            r.steps() == 0,
    {
        Walker { head: state.phase.goal, steps: Ghost(0nat) }
    }

    /// What one timestep makes of the algorithm and its state, and the
    /// signal that it gives.
    open spec fn moves(
        &self,
        state: &State,
        after: &Self,
        after_state: &State,
        signal: Signal,
    ) -> bool {
        &&& (after_state@ == state@)
        &&& (after_state.maze == state.maze)
        &&& (after_state.phase.start() == state.phase.start())
        &&& (after_state.phase.goal() == state.phase.goal())
        &&& (after_state.phase.parents() == state.phase.parents())
        &&& (after_state.phase.width() == state.phase.width())
        &&& (match state.parent_of(self.head()) {
                None => signal == Signal::Done && after_state.phase.on_path()
                    == state.phase.on_path() && after.head() == self.head(),
                Some(parent) => {
                    &&& after_state.phase.on_path() == state.phase.on_path().update(
                        parent.spec_normalise(state.maze.width),
                        true,
                    )
                    &&& (signal == Signal::Done <==> parent == state.phase.start())
                    &&& after.head() == if parent == state.phase.start() {
                        self.head()
                    } else {
                        parent
                    }
                },
            })
        &&& (signal == Signal::Continue ==> after.steps() == self.steps() + 1)
        &&& (signal == Signal::Done ==> after.steps() == self.steps() && forall|j: nat|
                1 <= j <= after.steps() + 1 ==> after_state.phase.marked(
                    after_state.maze.width,
                    #[trigger] after_state.trail(j),
                ) || after_state.trail(j) == after_state.trail(after.steps()))
    }

    /// Ends where the head has no parent. Else marks the parent, ends if it
    /// is the start, and goes on to it if not.
    fn step(&mut self, state: &mut State, rng: &mut StdRng) -> (r: Signal)
    {
        let ghost then = *state;
        let ghost w = state.maze.width;
        let ghost h = state.maze.height;
        let ghost start = state.phase.start;
        let ghost steps = self.steps@;
        let ghost length = state.lemma_walk_reaches_start();
        proof {
            assert(state.maze.contains(self.head)) by {
                if steps > length {
                    assert(state.trail(length) != start || state.phase.goal == start);
                    reveal_with_fuel(ancestor, 2);
                }
                if steps <= length {
                    assert(state.maze.contains(state.trail(steps)));
                } else {
                    assert(state.phase.goal == start);
                    Self::lemma_stays_at_start(state, steps);
                }
            }
            state.phase.parents.lemma_covers(self.head, w, h);
        }
        let head = match *state.phase.parents.get(self.head) {
            Some(head) => head,
            None => {
                proof {
                    lemma_ancestor_next(state.phase.parents(), w, start, state.phase.goal, steps);
                    assert forall|j: nat| 1 <= j <= steps + 1 implies state.phase.marked(
                        w,
                        #[trigger] state.trail(j),
                    ) || state.trail(j) == state.trail(steps) by {
                        if j == steps + 1 {
                        }
                    }
                }
                return Signal::Done;
            },
        };
        proof {
            lemma_ancestor_next(state.phase.parents(), w, start, state.phase.goal, steps);
            if self.head == start {
                assert(head == start);
            } else {
                assert(steps < length) by {
                    if steps >= length {
                        if steps == length {
                        } else {
                            assert(state.trail(length) != start || state.phase.goal == start);
                            Self::lemma_stays_at_start(state, steps);
                        }
                    }
                }
                assert(state.parent_of(state.trail(steps)) == Some(state.trail(steps + 1)));
            }
            assert(state.maze.contains(head)) by {
                if self.head != start {
                    assert(state.maze.contains(state.trail(steps + 1)));
                }
            }
            state.phase.on_path.lemma_covers(head, w, h);
            head.lemma_slot_in_bounds(w, h);
        }
        state.phase.on_path.set(head, true);
        proof {
            assert forall|n: Node| then.maze.contains(n) implies state.phase.marked(w, n) == (n
                == head || then.phase.marked(w, n)) by {
                n.lemma_slot_in_bounds(w, h);
                if n != head && n.spec_normalise(w) == head.spec_normalise(w) {
                    lemma_node_slots_differ(n, head, w, h);
                }
            }
            let depths = choose|depths: Seq<nat>| #[trigger]
                traced(then@, then.phase.parents(), then.phase.start(), depths);
            assert(traced(state@, state.phase.parents(), state.phase.start(), depths));
            assert forall|j: nat| state.trail(j) == then.trail(j) by {}
            assert forall|j: nat| j <= steps implies #[trigger] state.trail(j)
                != state.phase.start() || state.phase.goal() == state.phase.start() by {
                assert(then.trail(j) != then.phase.start() || then.phase.goal()
                    == then.phase.start());
            }
            assert(self.head() == state.trail(steps));
            assert(state.parent_of(start) == then.parent_of(start));
            assert forall|j: nat| 1 <= j <= steps implies state.phase.marked(
                w,
                #[trigger] state.trail(j),
            ) by {
                assert(then.phase.marked(w, then.trail(j)));
                if j <= length {
                    assert(then.maze.contains(then.trail(j)));
                } else {
                    Self::lemma_stays_at_start(&then, j);
                }
            }
        }
        if head == state.phase.start {
            proof {
                assert forall|j: nat| 1 <= j <= steps + 1 implies state.phase.marked(
                    w,
                    #[trigger] state.trail(j),
                ) || state.trail(j) == state.trail(steps) by {
                    if j == steps + 1 {
                        if self.head != start {
                            assert(state.trail(j) == head);
                        }
                    }
                }
            }
            return Signal::Done;
        }
        self.head = head;
        self.steps = Ghost(steps + 1);
        proof {
            assert(state.trail(steps + 1) == head);
            assert forall|j: nat| j <= steps + 1 implies #[trigger] state.trail(j)
                != state.phase.start() || state.phase.goal() == state.phase.start() by {
                if j <= steps {
                    assert(then.trail(j) != then.phase.start() || then.phase.goal()
                        == then.phase.start());
                }
            }
            assert forall|j: nat| 1 <= j <= steps + 1 implies state.phase.marked(
                w,
                #[trigger] state.trail(j),
            ) by {
                if j == steps + 1 {
                    assert(state.maze.contains(head));
                }
            }
        }
        Signal::Continue
    }

    proof fn lemma_inv_can_be_drawn(&self, state: &State) {
        assert forall|n: Node| state.maze.contains(n) implies state::Phase::knows(
            &state.phase,
            n,
        ) by {
            state.phase.on_path.lemma_covers(n, state.maze.width, state.maze.height);
        }
    }

    open spec fn spec_timescale(&self) -> u32 {
        100
    }

    fn timescale(&self) -> (r: u32) {
        100
    }
}

impl Walker {
    /// Where the goal is the start, the walk stays on it.
    proof fn lemma_stays_at_start(state: &State, steps: nat)
        requires
            state.phase.goal() == state.phase.start(),
        ensures
            state.trail(steps) == state.phase.start(),
    {
        reveal_with_fuel(ancestor, 2);
    }
}

} // verus!
