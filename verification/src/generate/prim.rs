//! Prim: grows one tree by opening random edges of its frontier.

use vstd::prelude::*;
use rand::rngs::StdRng;
use crate::maze::lemma_slot_cell;
use crate::maze::Direction;
use crate::maze::Edge;
use crate::maze::MazeIndex;
use crate::maze::Node;
use crate::random::random_below;
use crate::state::lemma_count_visited_none;
use crate::state::Snapshot;
use crate::Animation;
use crate::Signal;
use super::Phase;
use super::State;

verus! {

/// Grows a tree from a random node by taking random edges from those that
/// lead out of the tree.
pub struct Prim {
    queue: Vec<Edge>,
}

impl Prim {
    /// The frontier: edges that start at a visited node.
    pub closed spec fn queue(&self) -> Seq<Edge> {
        self.queue@
    }

    /// The end of the edge that a step visits for the first time: the one
    /// end that is not visited, where the other is.
    pub open spec fn newcomer(s: Snapshot, edge: Edge) -> Option<Node> {
        if s.is_visited(edge.from) && !s.is_visited(edge.to) {
            Some(edge.to)
        } else if !s.is_visited(edge.from) && s.is_visited(edge.to) {
            Some(edge.from)
        } else {
            None
        }
    }

    /// The state after a step that took `edge` from the frontier: both ends
    /// are visited, with age zero, and the edge is open if one of them was
    /// new.
    pub open spec fn grown(before: Snapshot, edge: Edge) -> Snapshot {
        let both = before.visit(edge.from).visit(edge.to);
        if Self::newcomer(before, edge) is Some {
            both.set_edge(edge, true)
        } else {
            both
        }
    }

    /// The frontier after a step that took the edge at `index`: the last
    /// edge has taken its place, and the edges around a new node are added.
    pub open spec fn queue_after(before: Snapshot, queue: Seq<Edge>, index: int) -> Seq<Edge> {
        let rest = queue.update(index, queue.last()).drop_last();
        match Self::newcomer(before, queue[index]) {
            Some(node) => rest + before.maze.neighbours(node),
            None => rest,
        }
    }

    /// Whether every edge from the node leads to a visited node or is in the
    /// frontier.
    pub open spec fn covered(s: Snapshot, queue: Seq<Edge>, node: Node) -> bool {
        forall|d: Direction|
            (#[trigger] s.maze.edge(node, d)) is Some ==> s.is_visited(
                s.maze.edge(node, d).unwrap().to,
            ) || queue.contains(s.maze.edge(node, d).unwrap())
    }

    /// Takes the edge at `index` from the frontier, and grows the tree by it
    /// where it leads out of the tree.
    pub fn grow(&mut self, state: &mut State, index: usize)
        requires
            old(self).inv(old(state)),
            index < old(self).queue().len(),
        ensures
            final(self).inv(final(state)),
            final(state)@ == Self::grown(old(state)@, old(self).queue()[index as int]),
            final(self).queue() == Self::queue_after(
                old(state)@,
                old(self).queue(),
                index as int,
            ),
    {
        let ghost before = state@;
        let ghost queue = self.queue@;
        let ghost tree = before.visited();
        assert(state.maze.contains(queue[index as int].from));
        let edge = self.queue.swap_remove(index);
        let ghost rest = self.queue@;
        assert(rest =~= queue.update(index as int, queue.last()).drop_last());
        let new_to = !state.is_visited(edge.to);
        proof {
            before.lemma_set_age(edge.from, 0);
            before.visit(edge.from).lemma_set_age(edge.to, 0);
        }
        state.visit(edge.from);
        state.visit(edge.to);
        let ghost both = state@;
        assert(both.visited() =~= tree.insert(edge.to));
        assert forall|j: int| 0 <= j < queue.len() && j != index implies rest.contains(
            #[trigger] queue[j],
        ) by {
            if j == queue.len() - 1 {
                assert(rest[index as int] == queue[j]);
            } else {
                assert(rest[j] == queue[j]);
            }
        }
        if new_to {
            let around = state.maze.neighbours(edge.to);
            proof {
                both.maze.lemma_neighbours(edge.to);
            }
            let mut i: usize = 0;
            while i < around.len()
                invariant
                    i <= around@.len(),
                    self.queue@ == rest + around@.take(i as int),
                decreases around@.len() - i,
            {
                self.queue.push(around.get(i));
                assert(around@.take(i + 1) =~= around@.take(i as int).push(around@[i as int]));
                i += 1;
                assert(self.queue@ =~= rest + around@.take(i as int));
            }
            assert(around@.take(around@.len() as int) =~= around@);
            proof {
                state.maze.open.lemma_covers(edge, state.maze.width, state.maze.height);
                both.maze.lemma_tree_grows(tree, before.visited_count, edge);
            }
            state.maze.open.set(edge, true);
            assert(state@ == both.set_edge(edge, true));
        }
        proof {
            let after = state@;
            let frontier = self.queue@;
            assert forall|n: Node| state.maze.contains(n) && #[trigger] after.is_visited(
                n,
            ) implies Self::covered(after, frontier, n) by {
                assert forall|d: Direction| (#[trigger] after.maze.edge(n, d)) is Some implies after.is_visited(
                    after.maze.edge(n, d).unwrap().to,
                ) || frontier.contains(after.maze.edge(n, d).unwrap()) by {
                    let e = after.maze.edge(n, d).unwrap();
                    assert(before.maze.edge(n, d) == Some(e));
                    before.maze.lemma_edge(n, d);
                    if before.is_visited(n) {
                        assert(Self::covered(before, queue, n));
                        if !before.is_visited(e.to) {
                            assert(queue.contains(e));
                            let j = choose|j: int| 0 <= j < queue.len() && queue[j] == e;
                            if j != index {
                                assert(rest.contains(queue[j]));
                                let k = choose|k: int| 0 <= k < rest.len() && rest[k] == e;
                                assert(frontier[k] == e);
                            }
                        }
                    } else {
                        assert(n == edge.to);
                        let around = before.maze.neighbours(n);
                        assert(around.contains(e));
                        let k = choose|k: int| 0 <= k < around.len() && around[k] == e;
                        assert(frontier[rest.len() + k] == e);
                    }
                }
            }
            assert forall|i: int| 0 <= i < frontier.len() implies (#[trigger] frontier[i]).in_maze(
                state.maze.width,
                state.maze.height,
            ) && after.is_visited(frontier[i].from) by {
                if i < rest.len() {
                    if i == index {
                        assert(rest[i] == queue.last());
                    } else {
                        assert(rest[i] == queue[i]);
                    }
                } else {
                    assert(frontier[i] == before.maze.neighbours(edge.to)[i - rest.len()]);
                }
            }
        }
    }
}

impl Animation for Prim {
    type Phase = Phase;

    /// A blank state.
    open spec fn ready(state: &State) -> bool {
        &&& state.wf()
        &&& state@.is_blank()
    }

    /// The open edges form a tree on the visited nodes; every edge of the
    /// frontier starts at a visited node; and every edge from a visited node
    /// to an unvisited one is in the frontier.
    open spec fn inv(&self, state: &State) -> bool {
        &&& state.wf()
        &&& state@.visited_count >= 1
        &&& forall|i: int|
            0 <= i < self.queue().len() ==> (#[trigger] self.queue()[i]).in_maze(
                state.maze.width,
                state.maze.height,
            ) && state@.is_visited(self.queue()[i].from)
        &&& state@.maze.is_tree_on(state@.visited(), state@.visited_count)
        &&& forall|n: Node|
            state.maze.contains(n) && #[trigger] state@.is_visited(n) ==> Self::covered(
                state@,
                self.queue(),
                n,
            )
    }

    proof fn lemma_inv_outlives_ageing(&self, before: &State, after: &State) {
        before@.lemma_aged();
        assert forall|n: Node| after.maze.contains(n) && #[trigger] after@.is_visited(
            n,
        ) implies Self::covered(after@, self.queue(), n) by {
            assert(before@.aged().is_visited(n) == before@.is_visited(n));
            assert(Self::covered(before@, self.queue(), n));
            assert forall|d: Direction| (#[trigger] after@.maze.edge(n, d)) is Some implies after@.is_visited(
                after@.maze.edge(n, d).unwrap().to,
            ) || self.queue().contains(after@.maze.edge(n, d).unwrap()) by {
                assert(after@.maze.edge(n, d) == before@.maze.edge(n, d));
                before@.maze.lemma_edge(n, d);
            }
        }
    }

    /// Visits a random node and puts the edges around it in the frontier.
    fn new(state: &mut State, rng: &mut StdRng) -> (r: Self)
        ensures
            exists|start: Node|
                old(state).maze.contains(start) && final(state)@ == old(state)@.visit(start)
                    && r.queue() == old(state)@.maze.neighbours(start),
    {
        let start = state.maze.random_node(rng);
        let around = state.maze.neighbours(start);
        let mut queue: Vec<Edge> = Vec::new();
        let mut i: usize = 0;
        while i < around.len()
            invariant
                i <= around@.len(),
                queue@ == around@.take(i as int),
            decreases around@.len() - i,
        {
            queue.push(around.get(i));
            assert(around@.take(i + 1) =~= around@.take(i as int).push(around@[i as int]));
            i += 1;
        }
        assert(around@.take(around@.len() as int) =~= around@);
        proof {
            let s = state@;
            s.lemma_blank();
            s.maze.lemma_all_closed();
            s.maze.lemma_connected_reflexive(start);
            s.lemma_set_age(start, 0);
            s.maze.lemma_neighbours(start);
            assert(s.visit(start).visited() =~= set![start]);
        }
        state.visit(start);
        let r = Prim { queue };
        proof {
            let after = state@;
            assert forall|n: Node| state.maze.contains(n) && #[trigger] after.is_visited(
                n,
            ) implies Self::covered(after, r.queue(), n) by {
                assert(old(state)@.visit(start).is_visited(n) == (n == start || old(state)@.is_visited(n)));
                assert(n == start);
            }
        }
        r
    }

    /// What one timestep makes of the algorithm and its state, and the
    /// signal that it gives.
    open spec fn moves(
        &self,
        state: &State,
        after: &Self,
        after_state: &State,
        signal: Signal,
    ) -> bool {
        &&& (self.queue().len() == 0 ==> signal == Signal::Done && *after_state == *state
                && *after == *self)
        &&& (self.queue().len() > 0 ==> signal == Signal::Continue && exists|index: int|
                #![auto]
                0 <= index < self.queue().len() && after_state@ == Self::grown(
                    state@,
                    self.queue()[index],
                ) && after.queue() == Self::queue_after(
                    state@,
                    self.queue(),
                    index,
                ))
        &&& (signal == Signal::Done ==> after_state@.maze.is_spanning_tree())
    }

    /// Ends once the frontier is empty; until then, takes a random edge from
    /// it.
    fn step(&mut self, state: &mut State, rng: &mut StdRng) -> (r: Signal)
    {
        if self.queue.len() == 0 {
            proof {
                let s = state@;
                let w = s.maze.width as int;
                let h = s.maze.height as int;
                if forall|i: int| 0 <= i < s.age.len() ==> (#[trigger] s.age[i]) is None {
                    lemma_count_visited_none(s.age, s.age.len() as int);
                }
                let i = choose|i: int| 0 <= i < s.age.len() && (#[trigger] s.age[i]) is Some;
                lemma_slot_cell(i, w, h);
                let seed = Node((i % w) as usize, (i / w) as usize);
                assert(s.is_visited(seed));
                assert forall|n: Node, d: Direction|
                    s.visited().contains(n) && s.maze.contains(n) && (#[trigger] s.maze.edge(
                        n,
                        d,
                    )) is Some implies s.visited().contains(s.maze.edge(n, d).unwrap().to) by {
                    assert(Self::covered(s, self.queue(), n));
                    s.maze.lemma_edge(n, d);
                }
                assert forall|n: Node| s.maze.contains(n) implies s.visited().contains(n) by {
                    s.maze.lemma_closed_set_is_all(s.visited(), seed, n);
                }
                s.lemma_all_visited();
                s.maze.lemma_tree_spans(s.visited());
            }
            return Signal::Done;
        }
        let index = random_below(rng, self.queue.len());
        self.grow(state, index);
        Signal::Continue
    }

    proof fn lemma_inv_can_be_drawn(&self, state: &State) {
    }

    open spec fn spec_timescale(&self) -> u32 {
        100
    }

    fn timescale(&self) -> (r: u32) {
        100
    }
}

} // verus!
