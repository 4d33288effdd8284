//! Depth-first search: walks to a random unvisited neighbour while there is
//! one, and backs up along its own path when there is none.

use vstd::prelude::*;
use rand::rngs::StdRng;
use crate::maze::lemma_slot_cell;
use crate::maze::Direction;
use crate::maze::Edge;
use crate::maze::MazeIndex;
use crate::maze::Node;
use crate::neighbours::lemma_filter_agree;
use crate::neighbours::Neighbours;
use crate::state::lemma_count_visited_none;
use crate::state::Snapshot;
use crate::Animation;
use crate::Signal;
use super::Phase;
use super::State;

verus! {

/// Perform a depth-first search to traverse the entire grid and randomly choose a direction at each
/// intersection.
pub struct Dfs {
    stack: Vec<Node>,
}

impl Dfs {
    /// The path from the first node to the head, the head last.
    pub closed spec fn stack(&self) -> Seq<Node> {
        self.stack@
    }

    /// The edges from a node to its unvisited neighbours, clockwise from
    /// north.
    pub open spec fn unvisited_around(s: Snapshot, node: Node) -> Seq<Edge> {
        s.maze.neighbours(node).filter(|e: Edge| !s.is_visited(e.to))
    }

    /// Whether `choice` is what a step may choose at `head`: one of the
    /// edges to an unvisited neighbour, or nothing where there is none.
    pub open spec fn may_choose(s: Snapshot, head: Node, choice: Option<Edge>) -> bool {
        match choice {
            Some(e) => Self::unvisited_around(s, head).contains(e),
            None => Self::unvisited_around(s, head).len() == 0,
        }
    }

    /// Whether every neighbour of the node is visited.
    pub open spec fn enclosed(s: Snapshot, node: Node) -> bool {
        forall|d: Direction|
            (#[trigger] s.maze.edge(node, d)) is Some ==> s.is_visited(
                s.maze.edge(node, d).unwrap().to,
            )
    }

    /// A node with no unvisited neighbour has none either once more nodes
    /// are visited.
    pub proof fn lemma_enclosed_stays(s: Snapshot, later: Snapshot, node: Node)
        requires
            Self::enclosed(s, node),
            s.maze.contains(node),
            later.maze.width == s.maze.width,
            later.maze.height == s.maze.height,
            forall|n: Node| s.maze.contains(n) && s.is_visited(n) ==> later.is_visited(n),
        ensures
            Self::enclosed(later, node),
    {
        assert forall|d: Direction| (#[trigger] later.maze.edge(node, d)) is Some implies later.is_visited(
            later.maze.edge(node, d).unwrap().to,
        ) by {
            assert(later.maze.edge(node, d) == s.maze.edge(node, d));
            s.maze.lemma_edge(node, d);
        }
    }

    /// The nodes that the open edges join: the visited ones and the head.
    pub open spec fn tree(&self, s: Snapshot) -> Set<Node> {
        if self.stack().len() > 0 {
            s.visited().insert(self.stack().last())
        } else {
            s.visited()
        }
    }

    /// The number of nodes of the tree.
    pub open spec fn tree_size(&self, s: Snapshot) -> int {
        s.visited_count + if self.stack().len() > 0 && !s.is_visited(self.stack().last()) {
            1int
        } else {
            0int
        }
    }

    /// The state after a step at `head`: the head is visited, and the chosen
    /// edge, if any, is open.
    pub open spec fn descended(before: Snapshot, head: Node, choice: Option<Edge>) -> Snapshot {
        match choice {
            Some(e) => before.visit(head).set_edge(e, true),
            None => before.visit(head),
        }
    }

    /// The stack after a step: one node longer where an edge was chosen, one
    /// shorter where none was.
    pub open spec fn stack_after(stack: Seq<Node>, choice: Option<Edge>) -> Seq<Node> {
        match choice {
            Some(e) => stack.push(e.to),
            None => stack.drop_last(),
        }
    }

    /// What the two ways of describing the unvisited neighbours have in
    /// common: each is a neighbour edge to an unvisited node, and each such
    /// edge is among them.
    pub proof fn lemma_unvisited_around(s: Snapshot, node: Node)
        requires
            s.wf(),
            s.maze.contains(node),
        ensures
            forall|e: Edge|
                Self::unvisited_around(s, node).contains(e) <==> s.maze.neighbours(node).contains(
                    e,
                ) && !s.is_visited(e.to),
            Self::unvisited_around(s, node).len() == 0 ==> Self::enclosed(s, node),
    {
        let all = s.maze.neighbours(node);
        let keep = |e: Edge| !s.is_visited(e.to);
        s.maze.lemma_neighbours(node);
        assert forall|e: Edge| all.filter(keep).contains(e) <==> all.contains(e) && keep(e) by {
            if all.filter(keep).contains(e) {
                all.lemma_filter_contains_rev(keep, e);
            }
            if all.contains(e) && keep(e) {
                let i = choose|i: int| 0 <= i < all.len() && all[i] == e;
                all.lemma_filter_contains(keep, i);
            }
        }
        if all.filter(keep).len() == 0 {
            assert forall|d: Direction| (#[trigger] s.maze.edge(node, d)) is Some implies s.is_visited(
                s.maze.edge(node, d).unwrap().to,
            ) by {
                let e = s.maze.edge(node, d).unwrap();
                assert(all.contains(e));
                if !s.is_visited(e.to) {
                    assert(all.filter(keep).contains(e));
                }
            }
        }
    }

    /// The edges from a node to its unvisited neighbours.
    pub fn unvisited_neighbours(state: &State, node: Node) -> (r: Neighbours<false>)
        requires
            state.wf(),
            state.maze.contains(node),
        ensures
            r@ == Self::unvisited_around(state@, node),
    {
        let all = state.maze.neighbours(node);
        proof {
            state@.maze.lemma_neighbours(node);
        }
        let unvisited = |n: Node| -> (b: bool)
            requires
                state.wf(),
                state.maze.contains(n),
            ensures
                b == !state@.is_visited(n),
            { !state.is_visited(n) };
        let found = all.filter(unvisited);
        proof {
            lemma_filter_agree(
                all@,
                |e: Edge| call_ensures(unvisited, (e.to,), true),
                |e: Edge| !state@.is_visited(e.to),
            );
        }
        found
    }

    /// Visits the head and, where an edge is chosen, opens it and goes on to
    /// its far end; where none is, backs up by one node.
    pub fn descend(&mut self, state: &mut State, choice: Option<Edge>)
        requires
            old(self).inv(old(state)),
            old(self).stack().len() > 0,
            Self::may_choose(old(state)@, old(self).stack().last(), choice),
        ensures
            final(self).inv(final(state)),
            final(self).stack() == Self::stack_after(old(self).stack(), choice),
            final(state)@ == Self::descended(old(state)@, old(self).stack().last(), choice),
    {
        let ghost before = state@;
        let ghost stack = self.stack@;
        let ghost tree = self.tree(before);
        let ghost size = self.tree_size(before);
        let head = self.stack[self.stack.len() - 1];
        proof {
            Self::lemma_unvisited_around(before, head);
            before.maze.lemma_neighbours(head);
            before.lemma_set_age(head, 0);
        }
        state.visit(head);
        let ghost left = state@;
        assert(left.visited() =~= tree);
        match choice {
            Some(edge) => {
                proof {
                    state.maze.open.lemma_covers(edge, state.maze.width, state.maze.height);
                    left.maze.lemma_tree_grows(tree, size, edge);
                }
                self.stack.push(edge.to);
                assert(self.stack@ == stack.push(edge.to));
                state.maze.open.set(edge, true);
                assert(state@ == left.set_edge(edge, true));
                assert(self.tree(state@) =~= tree.insert(edge.to));
                assert forall|n: Node|
                    state.maze.contains(n) && #[trigger] state@.is_visited(
                        n,
                    ) implies self.stack().contains(n) || Self::enclosed(state@, n) by {
                    if n == head {
                        assert(self.stack()[stack.len() - 1] == head);
                    } else if stack.contains(n) {
                        let i = choose|i: int| 0 <= i < stack.len() && stack[i] == n;
                        assert(self.stack()[i] == n);
                    } else {
                        assert(before.is_visited(n));
                        assert(Self::enclosed(before, n));
                        Self::lemma_enclosed_stays(before, state@, n);
                    }
                }
            },
            None => {
                self.stack.pop();
                assert(self.stack@ == stack.drop_last());
                assert(self.tree(state@) =~= tree);
                assert forall|n: Node|
                    state.maze.contains(n) && #[trigger] state@.is_visited(
                        n,
                    ) implies self.stack().contains(n) || Self::enclosed(state@, n) by {
                    if n == head {
                        assert(Self::enclosed(before, head));
                        Self::lemma_enclosed_stays(before, state@, n);
                    } else if stack.contains(n) {
                        let i = choose|i: int| 0 <= i < stack.len() && stack[i] == n;
                        assert(self.stack()[i] == n);
                    } else {
                        assert(before.is_visited(n));
                        assert(Self::enclosed(before, n));
                        Self::lemma_enclosed_stays(before, state@, n);
                    }
                }
                proof {
                    left.lemma_visited_counts(head);
                }
            },
        }
    }
}

impl Animation for Dfs {
    type Phase = Phase;

    /// A blank state.
    open spec fn ready(state: &State) -> bool {
        &&& state.wf()
        &&& state@.is_blank()
    }

    /// The open edges form a tree on the visited nodes and the head; every
    /// node on the stack but the head is visited; and a visited node that has
    /// left the stack has no unvisited neighbour.
    open spec fn inv(&self, state: &State) -> bool {
        &&& state.wf()
        &&& forall|i: int|
            0 <= i < self.stack().len() ==> state.maze.contains(#[trigger] self.stack()[i])
        &&& forall|i: int|
            0 <= i < self.stack().len() - 1 ==> state@.is_visited(#[trigger] self.stack()[i])
        &&& state@.maze.is_tree_on(self.tree(state@), self.tree_size(state@))
        &&& forall|n: Node|
            state.maze.contains(n) && #[trigger] state@.is_visited(n) ==> self.stack().contains(n)
                || Self::enclosed(state@, n)
        &&& self.stack().len() == 0 ==> state@.visited_count >= 1
    }

    proof fn lemma_inv_outlives_ageing(&self, before: &State, after: &State) {
        before@.lemma_aged();
        assert forall|n: Node|
            after.maze.contains(n) && #[trigger] after@.is_visited(n) implies self.stack().contains(
            n,
        ) || Self::enclosed(after@, n) by {
            assert(before@.is_visited(n));
            if !self.stack().contains(n) {
                Self::lemma_enclosed_stays(before@, after@, n);
            }
        }
        if self.stack().len() > 0 {
            assert(before.maze.contains(self.stack()[self.stack().len() - 1]));
        }
    }

    /// Puts a random node on the stack.
    fn new(state: &mut State, rng: &mut StdRng) -> (r: Self)
        ensures
            *final(state) == *old(state),
            r.stack().len() == 1,
    {
        let first = state.maze.random_node(rng);
        let mut stack: Vec<Node> = Vec::new();
        stack.push(first);
        let r = Dfs { stack };
        proof {
            let s = state@;
            s.lemma_blank();
            s.maze.lemma_all_closed();
            s.maze.lemma_connected_reflexive(first);
            assert(r.tree(s) =~= set![first]);
        }
        r
    }

    /// What one timestep makes of the algorithm and its state, and the
    /// signal that it gives.
    open spec fn moves(
        &self,
        state: &State,
        after: &Self,
        after_state: &State,
        signal: Signal,
    ) -> bool {
        &&& (self.stack().len() == 0 ==> signal == Signal::Done && *after_state == *state
                && *after == *self)
        &&& (self.stack().len() > 0 ==> signal == Signal::Continue && exists|choice: Option<Edge>|
                #![auto]
                Self::may_choose(state@, self.stack().last(), choice)
                    && after.stack() == Self::stack_after(self.stack(), choice)
                    && after_state@ == Self::descended(
                    state@,
                    self.stack().last(),
                    choice,
                ))
        &&& (signal == Signal::Done ==> after_state@.maze.is_spanning_tree())
    }

    /// Ends once the stack is empty; until then, visits the head and goes on
    /// to a random unvisited neighbour of it, or backs up where it has none.
    fn step(&mut self, state: &mut State, rng: &mut StdRng) -> (r: Signal)
    {
        let len = self.stack.len();
        if len == 0 {
            proof {
                let s = state@;
                let w = s.maze.width as int;
                let h = s.maze.height as int;
                if forall|i: int| 0 <= i < s.age.len() ==> (#[trigger] s.age[i]) is None {
                    lemma_count_visited_none(s.age, s.age.len() as int);
                }
                let i = choose|i: int| 0 <= i < s.age.len() && (#[trigger] s.age[i]) is Some;
                lemma_slot_cell(i, w, h);
                let seed = Node((i % w) as usize, (i / w) as usize);
                assert(s.is_visited(seed));
                assert forall|n: Node| s.maze.contains(n) implies s.visited().contains(n) by {
                    s.maze.lemma_closed_set_is_all(s.visited(), seed, n);
                }
                s.lemma_all_visited();
                s.maze.lemma_tree_spans(s.visited());
            }
            return Signal::Done;
        }
        let head = self.stack[len - 1];
        let choice = Self::unvisited_neighbours(state, head).pick(rng);
        self.descend(state, choice);
        Signal::Continue
    }

    proof fn lemma_inv_can_be_drawn(&self, state: &State) {
    }

    open spec fn spec_timescale(&self) -> u32 {
        100
    }

    fn timescale(&self) -> (r: u32) {
        100
    }
}

} // verus!
