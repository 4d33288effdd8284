//! Flood: breadth-first search from the start, one layer of nodes at a step.

use vstd::prelude::*;
use std::collections::VecDeque;
use rand::rngs::StdRng;
use crate::maze::lemma_node_slots_differ;
use crate::maze::Direction;
use crate::maze::Edge;
use crate::maze::MazeIndex;
use crate::maze::Node;
use crate::state::Snapshot;
use crate::Animation;
use crate::Signal;
use super::among;
use super::a_star::AStar;
use super::trace::depth_at;
use super::trace::lemma_traced_note;
use super::trace::lemma_traced_renote;
use super::trace::lemma_traced_visit;
use super::trace::parent_at;
use super::trace::traced;
use super::trace::traced_at;
use super::Phase;
use super::State;

verus! {

/// Search the maze breadth-first from start to goal.
///
/// This implementation is somewhat complex in order for it to animate smoothly (it traverses all queued
/// nodes in a step, instead of just one). This is achieved using a double-buffer of queued nodes; queue A
/// for nodes to be visited this timestep, and queue B for nodes to be visited next timestep.
pub struct Flood {
    /// Nodes to be visited this timestep.
    queue_a: VecDeque<Edge>,
    /// Nodes to be visited next timestep.
    queue_b: VecDeque<Edge>,
    /// The number of steps from the start to the nodes of queue A.
    layer: Ghost<nat>,
    /// The number of steps from the start to each node reached.
    depths: Ghost<Seq<nat>>,
}

/// What a step of the flood leaves: the state, the parents, the two queues,
/// and whether the goal was found.
pub struct Tide {
    pub s: Snapshot,
    pub parents: Seq<Option<Node>>,
    pub a: Seq<Edge>,
    pub b: Seq<Edge>,
    pub found: bool,
}

/// The far end of the first edge of queue A is visited and gets the near end
/// as parent; unless it is the goal, the open edges to its unvisited
/// neighbours go to the end of queue B; and so on, until queue A is empty or
/// the goal is found.
pub open spec fn wave(
    s: Snapshot,
    parents: Seq<Option<Node>>,
    goal: Node,
    a: Seq<Edge>,
    b: Seq<Edge>,
) -> Tide
    decreases a.len(),
{
    if a.len() == 0 {
        Tide { s, parents, a, b, found: false }
    } else {
        let head = a[0];
        let landed = s.visit(head.to);
        let noted = parents.update(head.to.spec_normalise(s.maze.width), Some(head.from));
        if head.to == goal {
            Tide { s: landed, parents: noted, a: a.drop_first(), b, found: true }
        } else {
            wave(
                landed,
                noted,
                goal,
                a.drop_first(),
                b + AStar::unvisited_around(landed, head.to),
            )
        }
    }
}

/// Whether the sum of column, row and a number of steps is even.
pub open spec fn even_with(node: Node, steps: int) -> bool {
    (node.0 + node.1 + steps) % 2 == 0
}

/// Whether an edge in a queue leads, in the given number of steps from the
/// start, to its far end: it is the edge from the start to itself, at no
/// steps, or an open edge from a visited node one step nearer.
pub open spec fn arrives(
    s: Snapshot,
    parents: Seq<Option<Node>>,
    start: Node,
    depths: Seq<nat>,
    edge: Edge,
    steps: nat,
) -> bool {
    let w = s.maze.width;
    ||| (edge == (Edge { from: start, to: start, direction: Direction::North }) && steps == 0)
    ||| {
        &&& edge.in_maze(w, s.maze.height)
        &&& s.maze.is_open(edge)
        &&& s.is_visited(edge.from)
        &&& (edge.from == start || parent_at(parents, w, edge.from) is Some)
        &&& depth_at(depths, w, edge.from) + 1 == steps
    }
}

impl Flood {
    /// The edges to the nodes to be visited in this step, the next first.
    pub closed spec fn queue_a(&self) -> Seq<Edge> {
        self.queue_a@
    }

    /// The edges to the nodes to be visited in the next step.
    pub closed spec fn queue_b(&self) -> Seq<Edge> {
        self.queue_b@
    }

    /// The number of steps from the start to the nodes of queue A.
    pub closed spec fn layer(&self) -> nat {
        self.layer@
    }

    /// The number of steps from the start to each node reached.
    pub closed spec fn depths(&self) -> Seq<nat> {
        self.depths@
    }

    /// Whether every node linked to the given one is visited or the far end
    /// of an edge in a queue.
    pub open spec fn spread(&self, s: Snapshot, node: Node) -> bool {
        forall|m: Node| #[trigger]
            s.maze.linked(node, m) ==> s.is_visited(m) || among(self.queue_a(), m) || among(
                self.queue_b(),
                m,
            )
    }

    /// What is known of a node of the maze: once visited, it is no deeper
    /// than the layer, its depth is even or odd with its distance in
    /// coordinates from the start, and, unless it is the start, it has a
    /// parent only if it is visited.
    pub open spec fn placed(&self, state: &State, node: Node) -> bool {
        let s = state@;
        let w = state.maze.width;
        let start = state.phase.start;
        &&& (s.is_visited(node) ==> depth_at(self.depths(), w, node) <= self.layer() && even_with(
            node,
            depth_at(self.depths(), w, node) + start.0 + start.1,
        ))
        &&& (node != start && state.parent_of(node) is Some ==> s.is_visited(node))
    }

    /// What holds between steps, but for the node whose neighbours are being
    /// put in queue B.
    pub open spec fn inv_but(&self, state: &State, pending: Option<Node>) -> bool {
        let s = state@;
        let w = state.maze.width;
        let start = state.phase.start;
        let parents = state.phase.parents@;
        &&& state.sized()
        &&& s.maze.is_spanning_tree()
        &&& traced(s, parents, start, self.depths())
        &&& forall|i: int|
            0 <= i < self.queue_a().len() ==> {
                let e = #[trigger] self.queue_a()[i];
                &&& arrives(s, parents, start, self.depths(), e, self.layer())
                &&& (s.is_visited(e.to) ==> depth_at(self.depths(), w, e.to) == self.layer())
            }
        &&& forall|i: int|
            0 <= i < self.queue_b().len() ==> {
                let e = #[trigger] self.queue_b()[i];
                &&& arrives(s, parents, start, self.depths(), e, self.layer() + 1)
                &&& !s.is_visited(e.to)
            }
        &&& forall|n: Node| state.maze.contains(n) ==> #[trigger] self.placed(state, n)
        &&& (state.parent_of(start) is None || state.parent_of(start) == Some(start))
        &&& (s.visited_count == 0 ==> self.queue_a() == seq![
            Edge { from: start, to: start, direction: Direction::North },
        ] && self.queue_b().len() == 0 && self.layer() == 0)
        &&& (s.visited_count > 0 ==> s.is_visited(start))
        &&& (!s.is_visited(state.phase.goal) ==> forall|n: Node|
            state.maze.contains(n) && #[trigger] s.is_visited(n) && Some(n) != pending
                ==> self.spread(s, n))
    }
}

/// The two ends of an edge of the maze differ by one in the sum of column
/// and row.
pub proof fn lemma_edge_parity(edge: Edge, width: usize, height: usize, steps: int)
    requires
        edge.in_maze(width, height),
    ensures
        even_with(edge.from, steps) <==> even_with(edge.to, steps + 1),
{
}

impl Flood {
    /// Whether an edge is the far end of none of the edges of queue B, as
    /// its depth shows.
    proof fn lemma_not_in_b(&self, state: &State, node: Node, i: int)
        requires
            self.inv_but(state, None),
            0 <= i < self.queue_b().len(),
            even_with(node, self.layer() + state.phase.start.0 + state.phase.start.1),
        ensures
            self.queue_b()[i].to != node,
    {
        let e = self.queue_b()[i];
        let start = state.phase.start;
        let w = state.maze.width;
        let sum = start.0 + start.1;
        if state@.visited_count > 0 {
            assert(arrives(
                state@,
                state.phase.parents@,
                start,
                self.depths(),
                e,
                self.layer() + 1,
            ));
            assert(e.in_maze(w, state.maze.height));
            assert(self.placed(state, e.from));
            lemma_edge_parity(e, w, state.maze.height, self.layer() + sum);
        }
    }

    /// Landing on the far end of the first edge of queue A keeps what holds
    /// between steps, but for the neighbours of that node.
    proof fn lemma_landed(before: Flood, after: Flood, then: State, now: State)
        requires
            before.inv_but(&then, None),
            before.queue_a().len() > 0,
            now.wf(),
            now@ == then@.visit(before.queue_a()[0].to),
            now.maze == then.maze,
            now.phase.start == then.phase.start,
            now.phase.goal == then.phase.goal,
            now.phase.parents.spec_width() == then.phase.parents.spec_width(),
            now.phase.parents@ == then.phase.parents@.update(
                before.queue_a()[0].to.spec_normalise(then.maze.width),
                Some(before.queue_a()[0].from),
            ),
            after.queue_a() == before.queue_a().drop_first(),
            after.queue_b() == before.queue_b(),
            after.layer() == before.layer(),
            after.depths() == ({
                let child = before.queue_a()[0].to;
                if child == then.phase.start || then@.is_visited(child) {
                    before.depths()
                } else {
                    before.depths().update(
                        child.spec_normalise(then.maze.width),
                        before.layer(),
                    )
                }
            }),
        ensures
            after.inv_but(&now, Some(before.queue_a()[0].to)),
            now.maze.contains(before.queue_a()[0].to),
            now.reached(before.queue_a()[0].to),
            depth_at(after.depths(), then.maze.width, before.queue_a()[0].to) == before.layer(),
            forall|n: Node|
                then.maze.contains(n) && (n != before.queue_a()[0].to || then@.is_visited(n))
                    ==> depth_at(after.depths(), then.maze.width, n) == depth_at(
                    before.depths(),
                    then.maze.width,
                    n,
                ),
    {
        let s = then@;
        let w = then.maze.width;
        let h = then.maze.height;
        let start = then.phase.start;
        let parents = then.phase.parents@;
        let depths = before.depths();
        let layer = before.layer();
        let sum = start.0 + start.1;
        let head = before.queue_a()[0];
        let child = head.to;
        let identity = Edge { from: start, to: start, direction: Direction::North };
        let marks = after.depths();
        let noted = now.phase.parents@;
        let later = now@;
        assert(arrives(s, parents, start, depths, head, layer));
        assert(s.maze.contains(child));
        child.lemma_slot_in_bounds(w, h);
        s.lemma_set_age(child, 0);
        assert(before.placed(&then, child));
        if head != identity {
            assert(before.placed(&then, head.from));
            lemma_edge_parity(head, w, h, layer - 1 + sum);
            assert(traced_at(s, parents, start, depths, head.from));
            s.lemma_visited_counts(head.from);
        }
        assert(even_with(child, layer + sum));
        if child == start && head != identity {
            assert(s.is_visited(start));
        }
        assert(child == start ==> head == identity);
        if child == start || s.is_visited(child) {
            lemma_traced_renote(s, parents, start, depths, head);
        } else {
            lemma_traced_note(s, parents, start, depths, head);
        }
        lemma_traced_visit(s, noted, start, marks, child);
        later.lemma_visited_counts(child);
        assert(depth_at(depths, w, start) == 0);
        assert forall|n: Node| s.maze.contains(n) implies (#[trigger] depth_at(marks, w, n)) == (
        if n == child && !s.is_visited(n) && n != start {
            layer
        } else {
            depth_at(depths, w, n)
        }) by {
            n.lemma_slot_in_bounds(w, h);
            if n != child && n.spec_normalise(w) == child.spec_normalise(w) {
                lemma_node_slots_differ(n, child, w, h);
            }
        }
        assert forall|n: Node| s.maze.contains(n) implies (#[trigger] now.parent_of(n)) == (if n
            == child {
            Some(head.from)
        } else {
            then.parent_of(n)
        }) by {
            n.lemma_slot_in_bounds(w, h);
            if n != child && n.spec_normalise(w) == child.spec_normalise(w) {
                lemma_node_slots_differ(n, child, w, h);
            }
        }
        assert(depth_at(marks, w, child) == layer);
        assert forall|n: Node|
            then.maze.contains(n) && (n != child || s.is_visited(n)) implies depth_at(
            after.depths(),
            then.maze.width,
            n,
        ) == depth_at(before.depths(), then.maze.width, n) by {
            assert(s.maze.contains(n));
        }
        assert forall|i: int| 0 <= i < after.queue_a().len() implies {
            let e = #[trigger] after.queue_a()[i];
            &&& arrives(later, noted, start, marks, e, layer)
            &&& (later.is_visited(e.to) ==> depth_at(marks, w, e.to) == layer)
        } by {
            let e = after.queue_a()[i];
            assert(e == before.queue_a()[i + 1]);
            assert(arrives(s, parents, start, depths, e, layer));
            assert(s.is_visited(e.to) ==> depth_at(depths, w, e.to) == layer);
            if e != identity {
                assert(e.in_maze(w, h));
                assert(s.maze.contains(e.from) && s.maze.contains(e.to));
                assert(later.is_visited(e.from));
                assert(parent_at(noted, w, e.from) == now.parent_of(e.from));
                assert(depth_at(marks, w, e.from) == depth_at(depths, w, e.from));
                assert(later.maze.is_open(e));
            } else {
                assert(!e.is_step());
                assert(layer == 0);
            }
            if later.is_visited(e.to) && e.to != child {
                assert(s.maze.contains(e.to));
                assert(s.is_visited(e.to));
            }
        }
        assert forall|i: int| 0 <= i < after.queue_b().len() implies {
            let e = #[trigger] after.queue_b()[i];
            &&& arrives(later, noted, start, marks, e, layer + 1)
            &&& !later.is_visited(e.to)
        } by {
            let e = after.queue_b()[i];
            before.lemma_not_in_b(&then, child, i);
            assert(arrives(s, parents, start, depths, e, layer + 1));
            assert(s.visited_count > 0);
            assert(e != identity) by {
                if e == identity {
                    assert(s.is_visited(start));
                }
            }
            assert(s.maze.contains(e.from) && s.maze.contains(e.to));
            assert(later.is_visited(e.from));
            assert(parent_at(noted, w, e.from) == now.parent_of(e.from));
            assert(depth_at(marks, w, e.from) == depth_at(depths, w, e.from));
        }
        assert forall|n: Node| now.maze.contains(n) implies #[trigger] after.placed(&now, n) by {
            assert(before.placed(&then, n));
            assert(s.maze.contains(n));
        }
        if s.visited_count == 0 {
            assert(before.queue_a()[0] == identity);
        }
        assert(s.maze.contains(start));
        if !later.is_visited(now.phase.goal) {
            assert forall|n: Node|
                now.maze.contains(n) && #[trigger] later.is_visited(n) && Some(n) != Some(
                    child,
                ) implies after.spread(later, n) by {
                assert(s.maze.contains(n));
                assert(s.is_visited(n));
                assert(then.maze.contains(n));
                assert(s.maze.contains(then.phase.goal));
                assert(!s.is_visited(then.phase.goal));
                assert(before.spread(s, n));
                assert forall|m: Node| #[trigger] later.maze.linked(n, m) implies later.is_visited(
                    m,
                ) || among(after.queue_a(), m) || among(after.queue_b(), m) by {
                    let e = s.maze.lemma_linked_edge(n, m);
                    if among(before.queue_a(), m) && m != child {
                        let k = choose|k: int|
                            0 <= k < before.queue_a().len() && (#[trigger] before.queue_a()[k]).to
                                == m;
                        assert(after.queue_a()[k - 1].to == m);
                    }
                }
            }
        }
    }

    /// Takes the first edge from queue A, visits its far end and notes its
    /// near end as the parent of the far end.
    fn land(&mut self, state: &mut State) -> (head: Edge)
        requires
            old(self).inv_but(old(state), None),
            old(self).queue_a().len() > 0,
        ensures
            head == old(self).queue_a()[0],
            final(self).inv_but(final(state), Some(head.to)),
            final(state).maze.contains(head.to),
            final(state).reached(head.to),
            final(state)@ == old(state)@.visit(head.to),
            final(state).maze == old(state).maze,
            final(state).phase.start == old(state).phase.start,
            final(state).phase.goal == old(state).phase.goal,
            final(state).phase.parents@ == old(state).phase.parents@.update(
                head.to.spec_normalise(old(state).maze.width),
                Some(head.from),
            ),
            final(self).queue_a() == old(self).queue_a().drop_first(),
            final(self).queue_b() == old(self).queue_b(),
            final(self).layer() == old(self).layer(),
            depth_at(final(self).depths(), old(state).maze.width, head.to) == old(self).layer(),
            forall|n: Node|
                old(state).maze.contains(n) && (n != head.to || old(state)@.is_visited(n))
                    ==> depth_at(final(self).depths(), old(state).maze.width, n) == depth_at(
                    old(self).depths(),
                    old(state).maze.width,
                    n,
                ),
    {
        let ghost before = *self;
        let ghost then = *state;
        let ghost w = state.maze.width;
        let ghost h = state.maze.height;
        let head = self.queue_a.pop_front().unwrap();
        let child = head.to;
        proof {
            assert(head == before.queue_a()[0]);
            assert(self.queue_a@ =~= before.queue_a().drop_first());
            assert(arrives(
                state@,
                state.phase.parents@,
                state.phase.start,
                self.depths@,
                head,
                self.layer@,
            ));
            assert(state.maze.contains(child));
            state.phase.parents.lemma_covers(child, w, h);
            state@.lemma_set_age(child, 0);
        }
        let ghost marks = if child == state.phase.start || state@.is_visited(child) {
            self.depths@
        } else {
            self.depths@.update(child.spec_normalise(w), self.layer@)
        };
        state.visit(child);
        state.phase.parents.set(child, Some(head.from));
        self.depths = Ghost(marks);
        proof {
            Self::lemma_landed(before, *self, then, *state);
        }
        head
    }
}

impl Flood {
    /// Puts the open edges from a visited node to its unvisited neighbours
    /// at the end of queue B.
    fn push_around(&mut self, state: &State, node: Node)
        requires
            old(self).inv_but(state, Some(node)),
            state.maze.contains(node),
            state@.is_visited(node),
            state.reached(node),
            depth_at(old(self).depths(), state.maze.width, node) == old(self).layer(),
        ensures
            final(self).inv_but(state, None),
            final(self).queue_a() == old(self).queue_a(),
            final(self).queue_b() == old(self).queue_b() + AStar::unvisited_around(state@, node),
            final(self).layer() == old(self).layer(),
            final(self).depths() == old(self).depths(),
    {
        let ghost before = *self;
        let ghost s = state@;
        let ghost w = state.maze.width;
        let ghost h = state.maze.height;
        let ghost start = state.phase.start;
        let ghost parents = state.phase.parents@;
        let fresh = AStar::unvisited_neighbours(state, node);
        proof {
            AStar::lemma_unvisited_around(s, node);
            s.lemma_visited_counts(node);
        }
        let mut i: usize = 0;
        while i < fresh.len()
            invariant
                i <= fresh@.len(),
                fresh@ == AStar::unvisited_around(s, node),
                s == state@,
                w == state.maze.width,
                h == state.maze.height,
                start == state.phase.start,
                parents == state.phase.parents@,
                s.maze.contains(node),
                s.is_visited(node),
                state.reached(node),
                s.visited_count > 0,
                depth_at(self.depths(), w, node) == self.layer(),
                forall|k: int|
                    0 <= k < fresh@.len() ==> {
                        let e = #[trigger] fresh@[k];
                        e.from == node && e.in_maze(w, h) && s.maze.is_open(e) && !s.is_visited(
                            e.to,
                        )
                    },
                self.inv_but(state, Some(node)),
                self.queue_a() == before.queue_a(),
                self.queue_b() == before.queue_b() + fresh@.take(i as int),
                self.layer() == before.layer(),
                self.depths() == before.depths(),
            decreases fresh@.len() - i,
        {
            let edge = fresh.get(i);
            let ghost entered = *self;
            self.queue_b.push_back(edge);
            proof {
                assert(fresh@.take(i + 1) =~= fresh@.take(i as int).push(edge));
                assert(self.queue_b() =~= before.queue_b() + fresh@.take(i + 1));
                assert forall|k: int| 0 <= k < self.queue_b().len() implies {
                    let e = #[trigger] self.queue_b()[k];
                    &&& arrives(s, parents, start, self.depths(), e, self.layer() + 1)
                    &&& !s.is_visited(e.to)
                } by {
                    if k < entered.queue_b().len() {
                        assert(self.queue_b()[k] == entered.queue_b()[k]);
                    }
                }
                if !s.is_visited(state.phase.goal) {
                    assert forall|n: Node|
                        state.maze.contains(n) && #[trigger] s.is_visited(n) && Some(n) != Some(
                            node,
                        ) implies self.spread(s, n) by {
                        assert(entered.spread(s, n));
                        assert forall|m: Node| #[trigger] s.maze.linked(n, m) implies s.is_visited(
                            m,
                        ) || among(self.queue_a(), m) || among(self.queue_b(), m) by {
                            if among(entered.queue_b(), m) {
                                let k = choose|k: int|
                                    0 <= k < entered.queue_b().len() && (
                                    #[trigger] entered.queue_b()[k]).to == m;
                                assert(self.queue_b()[k].to == m);
                            }
                        }
                    }
                }
                assert forall|n: Node| state.maze.contains(n) implies #[trigger] self.placed(
                    state,
                    n,
                ) by {
                    assert(entered.placed(state, n));
                }
            }
            i += 1;
        }
        proof {
            assert(fresh@.take(fresh@.len() as int) =~= fresh@);
            if !s.is_visited(state.phase.goal) {
                assert forall|n: Node|
                    state.maze.contains(n) && #[trigger] s.is_visited(n) implies self.spread(
                    s,
                    n,
                ) by {
                    if n == node {
                        assert forall|m: Node| #[trigger] s.maze.linked(n, m) implies s.is_visited(
                            m,
                        ) || among(self.queue_a(), m) || among(self.queue_b(), m) by {
                            if !s.is_visited(m) {
                                assert(among(fresh@, m));
                                let k = choose|k: int|
                                    0 <= k < fresh@.len() && (#[trigger] fresh@[k]).to == m;
                                assert(self.queue_b()[before.queue_b().len() + k].to == m);
                            }
                        }
                    }
                }
            }
        }
    }

    /// Once both queues are empty, the goal has been visited.
    proof fn lemma_exhausted(&self, state: &State)
        requires
            self.inv_but(state, None),
            self.queue_a().len() == 0,
            self.queue_b().len() == 0,
        ensures
            state.solved(),
    {
        let s = state@;
        let l = s.maze;
        let start = state.phase.start;
        let goal = state.phase.goal;
        if !s.is_visited(goal) {
            let inside = Set::new(|n: Node| l.contains(n) && s.is_visited(n));
            assert(l.connected(start, goal));
            let p = choose|p: Seq<Node>| #[trigger]
                l.is_walk(p) && p[0] == start && p[p.len() - 1] == goal;
            assert forall|a: Node, b: Node|
                inside.contains(a) && #[trigger] l.linked(a, b) implies inside.contains(b) by {
                assert(state.maze.contains(a));
                assert(self.spread(s, a));
                let e = l.lemma_linked_edge(a, b);
                if among(self.queue_a(), b) {
                    let k = choose|k: int|
                        0 <= k < self.queue_a().len() && (#[trigger] self.queue_a()[k]).to == b;
                }
                if among(self.queue_b(), b) {
                    let k = choose|k: int|
                        0 <= k < self.queue_b().len() && (#[trigger] self.queue_b()[k]).to == b;
                }
            }
            l.lemma_walk_stays(inside, p, p.len() - 1);
        }
    }

    /// The layer goes up by one as queue B, none of whose nodes is visited,
    /// takes the place of the empty queue A.
    proof fn lemma_swapped(before: Flood, after: Flood, state: &State)
        requires
            before.inv_but(state, None),
            before.queue_a().len() == 0,
            after.queue_a() == before.queue_b(),
            after.queue_b().len() == 0,
            after.layer() == before.layer() + 1,
            after.depths() == before.depths(),
        ensures
            after.inv_but(state, None),
    {
        let s = state@;
        assert forall|n: Node| state.maze.contains(n) implies #[trigger] after.placed(state, n) by {
            assert(before.placed(state, n));
        }
        if !s.is_visited(state.phase.goal) {
            assert forall|n: Node|
                state.maze.contains(n) && #[trigger] s.is_visited(n) implies after.spread(s, n) by {
                assert(before.spread(s, n));
                assert forall|m: Node| #[trigger] s.maze.linked(n, m) implies s.is_visited(m)
                    || among(after.queue_a(), m) || among(after.queue_b(), m) by {
                    if among(before.queue_a(), m) {
                        let k = choose|k: int|
                            0 <= k < before.queue_a().len() && (#[trigger] before.queue_a()[k]).to
                                == m;
                    }
                }
            }
        }
    }
}

impl Animation for Flood {
    type Phase = Phase;

    /// A fresh state on a maze that is a spanning tree.
    open spec fn ready(state: &State) -> bool {
        &&& state.is_fresh()
        &&& state@.maze.is_spanning_tree()
    }

    /// The parents lead from every visited node to the start; the edges of
    /// queue A lead to nodes as many steps from the start as the layer says,
    /// those of queue B to unvisited nodes one step further; and until the
    /// goal is visited, every node linked to a visited node is visited or at
    /// the far end of an edge in a queue.
    open spec fn inv(&self, state: &State) -> bool {
        self.inv_but(state, None)
    }

    proof fn lemma_inv_outlives_ageing(&self, before: &State, after: &State) {
        let s = before@;
        let t = after@;
        let start = before.phase.start;
        let parents = before.phase.parents@;
        s.lemma_aged();
        super::trace::lemma_traced_aged(s, parents, start, self.depths());
        assert forall|i: int| 0 <= i < self.queue_a().len() implies {
            let e = #[trigger] self.queue_a()[i];
            &&& arrives(t, parents, start, self.depths(), e, self.layer())
            &&& (t.is_visited(e.to) ==> depth_at(self.depths(), after.maze.width, e.to)
                == self.layer())
        } by {
            let e = self.queue_a()[i];
            assert(arrives(s, parents, start, self.depths(), e, self.layer()));
        }
        assert forall|i: int| 0 <= i < self.queue_b().len() implies {
            let e = #[trigger] self.queue_b()[i];
            &&& arrives(t, parents, start, self.depths(), e, self.layer() + 1)
            &&& !t.is_visited(e.to)
        } by {
            let e = self.queue_b()[i];
            assert(arrives(s, parents, start, self.depths(), e, self.layer() + 1));
            assert(s.visited_count > 0);
            assert(!e.is_step() ==> s.is_visited(start));
        }
        assert forall|n: Node| after.maze.contains(n) implies #[trigger] self.placed(after, n) by {
            assert(self.placed(before, n));
        }
        if !t.is_visited(after.phase.goal) {
            assert forall|n: Node|
                after.maze.contains(n) && #[trigger] t.is_visited(n) implies self.spread(t, n) by {
                assert(s.is_visited(n));
                assert(self.spread(s, n));
                assert forall|m: Node| #[trigger] t.maze.linked(n, m) implies t.is_visited(m)
                    || among(self.queue_a(), m) || among(self.queue_b(), m) by {
                    let e = s.maze.lemma_linked_edge(n, m);
                }
            }
        }
    }

    /// Puts the edge from the start to itself in queue A.
    fn new(state: &mut State, rng: &mut StdRng) -> (r: Self)
        ensures
            *final(state) == *old(state),
            r.queue_a() == seq![
                Edge {
                    from: old(state).phase.start,
                    to: old(state).phase.start,
                    direction: Direction::North,
                },
            ],
            r.queue_b() == Seq::<Edge>::empty(),
            r.layer() == 0,
    {
        let ghost w = state.maze.width;
        let ghost h = state.maze.height;
        let start = state.phase.start;
        let mut queue_a: VecDeque<Edge> = VecDeque::new();
        queue_a.push_back(Edge::identity(start));
        let ghost depths = Seq::new((w * h) as nat, |i: int| 0nat);
        let r = Flood {
            queue_a,
            queue_b: VecDeque::new(),
            layer: Ghost(0nat),
            depths: Ghost(depths),
        };
        proof {
            let s = state@;
            state.lemma_fresh_sound();
            start.lemma_slot_in_bounds(w, h);
            assert(r.queue_a() =~= seq![Edge { from: start, to: start, direction: Direction::North }]);
            assert forall|n: Node| s.maze.contains(n) implies #[trigger] traced_at(
                s,
                state.phase.parents@,
                start,
                depths,
                n,
            ) by {
                assert(state.maze.contains(n));
                assert(state.parent_of(n) is None);
                assert(!s.is_visited(n));
                n.lemma_slot_in_bounds(w, h);
            }
            assert forall|n: Node| state.maze.contains(n) implies #[trigger] r.placed(state, n) by {
                assert(state.parent_of(n) is None);
                assert(!s.is_visited(n));
            }
            assert(state.parent_of(start) is None);
            assert forall|n: Node| state.maze.contains(n) implies !s.is_visited(n) by {}
        }
        r
    }

    /// What one timestep makes of the algorithm and its state, and the
    /// signal that it gives.
    open spec fn moves(
        &self,
        state: &State,
        after: &Self,
        after_state: &State,
        signal: Signal,
    ) -> bool {
        &&& (({
                let tide = wave(
                    state@,
                    state.phase.parents@,
                    state.phase.goal,
                    self.queue_a(),
                    self.queue_b(),
                );
                &&& after_state@ == tide.s
                &&& after_state.phase.parents@ == tide.parents
                &&& after_state.phase.start == state.phase.start
                &&& after_state.phase.goal == state.phase.goal
                &&& (signal == Signal::Done <==> tide.found || tide.b.len() == 0)
                &&& (tide.found ==> after.queue_a() == tide.a && after.queue_b()
                    == tide.b && after.layer() == self.layer())
                &&& (!tide.found && tide.b.len() == 0 ==> after.queue_a().len() == 0
                    && after.queue_b().len() == 0 && after.layer() == self.layer())
                &&& (!tide.found && tide.b.len() > 0 ==> after.queue_a() == tide.b
                    && after.queue_b().len() == 0 && after.layer() == self.layer() + 1)
            }))
        &&& (forall|n: Node|
                state.maze.contains(n) && after_state@.is_visited(n) ==> depth_at(
                    after.depths(),
                    state.maze.width,
                    n,
                ) == if state@.is_visited(n) {
                    depth_at(self.depths(), state.maze.width, n)
                } else {
                    self.layer()
                })
        &&& (signal == Signal::Done ==> after_state.solved())
    }

    /// Visits every node that queue A leads to, in order, putting the open
    /// edges to its unvisited neighbours in queue B, and ends if one is
    /// the goal. Then, and where queue A was empty from the first, ends if
    /// queue B is empty too, and lets queue B take the place of queue A if
    /// not.
    fn step(&mut self, state: &mut State, rng: &mut StdRng) -> (r: Signal)
    {
        let ghost before = *self;
        let ghost then = *state;
        let ghost w = state.maze.width;
        let ghost goal = state.phase.goal;
        let ghost tide = wave(then@, then.phase.parents@, goal, before.queue_a(), before.queue_b());
        loop
            invariant
                before == *old(self),
                then == *old(state),
                self.inv_but(state, None),
                state.maze == then.maze,
                state.phase.start == then.phase.start,
                state.phase.goal == goal,
                goal == then.phase.goal,
                w == then.maze.width,
                self.layer() == before.layer(),
                tide == wave(
                    then@,
                    then.phase.parents@,
                    goal,
                    before.queue_a(),
                    before.queue_b(),
                ),
                tide == wave(
                    state@,
                    state.phase.parents@,
                    goal,
                    self.queue_a(),
                    self.queue_b(),
                ),
                forall|n: Node|
                    then.maze.contains(n) && state@.is_visited(n) ==> depth_at(
                        self.depths(),
                        w,
                        n,
                    ) == if then@.is_visited(n) {
                        depth_at(before.depths(), w, n)
                    } else {
                        before.layer()
                    },
                forall|n: Node| then.maze.contains(n) && then@.is_visited(n) ==> state@.is_visited(n),
            decreases self.queue_a().len(),
        {
            if self.queue_a.len() == 0 {
                proof {
                    assert(tide == (Tide {
                        s: state@,
                        parents: state.phase.parents@,
                        a: self.queue_a(),
                        b: self.queue_b(),
                        found: false,
                    }));
                }
                if self.queue_b.len() == 0 {
                    proof {
                        self.lemma_exhausted(state);
                    }
                    return Signal::Done;
                }
                let ghost entered = *self;
                std::mem::swap(&mut self.queue_a, &mut self.queue_b);
                self.layer = Ghost((self.layer@ + 1) as nat);
                proof {
                    Self::lemma_swapped(entered, *self, state);
                }
                return Signal::Continue;
            }
            let ghost entered = *self;
            let ghost s = state@;
            let ghost parents = state.phase.parents@;
            let head = self.land(state);
            proof {
                assert(tide == wave(s, parents, goal, entered.queue_a(), entered.queue_b()));
                assert(s.maze.width == w);
                if head.to == goal {
                    assert(tide == (Tide {
                        s: state@,
                        parents: state.phase.parents@,
                        a: self.queue_a(),
                        b: self.queue_b(),
                        found: true,
                    }));
                } else {
                    assert(tide == wave(
                        state@,
                        state.phase.parents@,
                        goal,
                        self.queue_a(),
                        self.queue_b() + AStar::unvisited_around(state@, head.to),
                    ));
                }
                s.lemma_set_age(head.to, 0);
                assert forall|n: Node|
                    then.maze.contains(n) && state@.is_visited(n) implies depth_at(
                    self.depths(),
                    w,
                    n,
                ) == if then@.is_visited(n) {
                    depth_at(before.depths(), w, n)
                } else {
                    before.layer()
                } by {
                    assert(s.maze.contains(n));
                    if n != head.to || s.is_visited(n) {
                        assert(depth_at(self.depths(), w, n) == depth_at(entered.depths(), w, n));
                    }
                }
                assert forall|n: Node|
                    then.maze.contains(n) && then@.is_visited(n) implies state@.is_visited(n) by {
                    assert(s.maze.contains(n));
                }
            }
            if head.to == state.phase.goal {
                return Signal::Done;
            }
            self.push_around(state, head.to);
        }
    }

    proof fn lemma_inv_can_be_drawn(&self, state: &State) {
    }

    open spec fn spec_timescale(&self) -> u32 {
        75
    }

    fn timescale(&self) -> (r: u32) {
        75
    }
}

impl Flood {
    /// The steps from the start that the flood has counted for a visited
    /// node are the least number of open edges that lead from the start to
    /// it, and never more than the layer.
    pub proof fn lemma_layers_are_distances(&self, state: &State, node: Node)
        requires
            self.inv(state),
            state.maze.contains(node),
            state@.is_visited(node),
        ensures
            state@.maze.is_distance(
                state.phase.start,
                node,
                depth_at(self.depths(), state.maze.width, node),
            ),
            depth_at(self.depths(), state.maze.width, node) <= self.layer(),
    {
        assert(traced_at(state@, state.phase.parents@, state.phase.start, self.depths(), node));
        assert(self.placed(state, node));
        super::trace::lemma_way_back_is_shortest(
            state@,
            state.phase.parents@,
            state.phase.start,
            self.depths(),
            node,
        );
    }
}

impl Flood {
    /// A node that a step visits for the first time lies no nearer to the
    /// start, by the least number of open edges, than any node visited
    /// before the step.
    pub proof fn lemma_visited_in_order(
        before: &Flood,
        then: &State,
        after: &Flood,
        now: &State,
        earlier: Node,
        later: Node,
    ) -> (steps: (nat, nat))
        requires
            before.inv(then),
            after.inv(now),
            now.maze == then.maze,
            now.phase.start == then.phase.start,
            then.maze.contains(earlier),
            then.maze.contains(later),
            then@.is_visited(earlier),
            !then@.is_visited(later),
            now@.is_visited(later),
            depth_at(after.depths(), then.maze.width, later) == before.layer(),
        ensures
            steps.0 <= steps.1,
            then@.maze.is_distance(then.phase.start, earlier, steps.0),
            now@.maze.is_distance(then.phase.start, later, steps.1),
    {
        before.lemma_layers_are_distances(then, earlier);
        after.lemma_layers_are_distances(now, later);
        (depth_at(before.depths(), then.maze.width, earlier), before.layer())
    }
}

} // verus!
