//! A*: expands the node that seems nearest to the goal, going by the steps
//! taken to it and its manhattan distance to the goal.

use vstd::prelude::*;
use rand::rngs::StdRng;
use crate::maze::lemma_node_slots_differ;
use crate::maze::Edge;
use crate::maze::MazeIndex;
use crate::maze::Node;
use crate::maze::NodeBuffer;
use crate::neighbours::lemma_filter_agree;
use crate::neighbours::lemma_filter_distinct_ends;
use crate::neighbours::Neighbours;
use crate::state::Snapshot;
use crate::Animation;
use crate::Signal;
use super::among;
use super::trace::depth_at;
use super::trace::lemma_traced_note;
use super::trace::parent_at;
use super::trace::traced;
use super::trace::traced_at;
use super::Phase;
use super::State;

verus! {

/// Search guided by manhattan distance.
///
/// This implementation is simplified from canonical ones since we can assume our mazes are free from loops.
pub struct AStar {
    /// The nodes to be expanded, each with its `f`-score.
    heap: Vec<(usize, Node)>,
    /// `g`-scores of all nodes.
    g_score: NodeBuffer<usize>,
}

/// Whether entry `a` leaves the heap no later than entry `b`: it has the
/// lower `f`-score or, with the same, the node that is not less in column
/// and then row.
pub open spec fn outranks(a: (usize, Node), b: (usize, Node)) -> bool {
    a.0 < b.0 || (a.0 == b.0 && (a.1.0 > b.1.0 || (a.1.0 == b.1.0 && a.1.1 >= b.1.1)))
}

/// The position of the entry among the first `count` that leaves the heap
/// first; of equal entries, the first.
pub open spec fn best_below(heap: Seq<(usize, Node)>, count: int) -> int
    decreases count,
{
    if count <= 1 {
        0
    } else {
        let before = best_below(heap, count - 1);
        if outranks(heap[before], heap[count - 1]) {
            before
        } else {
            count - 1
        }
    }
}

/// The entry at the position found outranks every entry counted.
pub proof fn lemma_best_below(heap: Seq<(usize, Node)>, count: int)
    requires
        1 <= count <= heap.len(),
    ensures
        0 <= best_below(heap, count) < count,
        forall|i: int| 0 <= i < count ==> outranks(heap[best_below(heap, count)], #[trigger] heap[i]),
    decreases count,
{
    if count > 1 {
        lemma_best_below(heap, count - 1);
    }
}

/// The `f`-score of a node: the steps taken to it and its manhattan distance
/// to the goal.
pub open spec fn f_score(g: int, node: Node, goal: Node) -> int {
    g + node.spec_manhattan(goal)
}

/// The manhattan distance between two nodes of a maze is less than the
/// number of its nodes.
pub proof fn lemma_manhattan_bound(a: Node, b: Node, width: usize, height: usize)
    requires
        a.in_maze(width, height),
        b.in_maze(width, height),
    ensures
        a.spec_manhattan(b) <= width * height - 1,
{
    let w = width as int;
    let h = height as int;
    assert((w - 1) * (h - 1) >= 0) by (nonlinear_arith)
        requires
            w >= 1,
            h >= 1,
    ;
    assert((w - 1) * (h - 1) == w * h - w - h + 1) by (nonlinear_arith);
}

impl AStar {
    /// The entries of the heap, in no particular order.
    pub closed spec fn heap(&self) -> Seq<(usize, Node)> {
        self.heap@
    }

    /// The `g`-score of a node: the steps taken to it from the start.
    pub closed spec fn g_of(&self, node: Node) -> usize {
        self.g_score.at(node)
    }

    /// Whether the `g`-scores cover the nodes of a maze of the given size.
    pub closed spec fn scores_fit(&self, width: usize, height: usize) -> bool {
        self.g_score.fits(width, height)
    }

    /// The `g`-scores as depths.
    pub closed spec fn depths(&self) -> Seq<nat> {
        Seq::new(self.g_score@.len(), |i: int| self.g_score@[i] as nat)
    }

    /// Whether the heap holds an entry for the node.
    pub open spec fn holds(heap: Seq<(usize, Node)>, node: Node) -> bool {
        exists|i: int| 0 <= i < heap.len() && (#[trigger] heap[i]).1 == node
    }

    /// The position of the entry that leaves the heap first.
    pub open spec fn best(heap: Seq<(usize, Node)>) -> int {
        best_below(heap, heap.len() as int)
    }

    /// The edges from a node to its open neighbours that are not visited,
    /// clockwise from north.
    pub open spec fn unvisited_around(s: Snapshot, node: Node) -> Seq<Edge> {
        s.maze.open_neighbours(node).filter(|e: Edge| !s.is_visited(e.to))
    }

    /// Takes the entry that leaves the heap first.
    pub fn pop_best(&mut self) -> (r: Option<(usize, Node)>)
        ensures
            old(self).heap().len() == 0 ==> r is None && *final(self) == *old(self),
            old(self).heap().len() > 0 ==> r == Some(old(self).heap()[Self::best(old(self).heap())])
                && final(self).heap() == old(self).heap().remove(Self::best(old(self).heap())),
            forall|n: Node| final(self).g_of(n) == old(self).g_of(n),
            forall|w: usize, h: usize| final(self).scores_fit(w, h) == old(self).scores_fit(w, h),
            final(self).depths() == old(self).depths(),
    {
        if self.heap.len() == 0 {
            return None;
        }
        let mut best: usize = 0;
        let mut i: usize = 1;
        while i < self.heap.len()
            invariant
                1 <= i <= self.heap@.len(),
                best == best_below(self.heap@, i as int),
                0 <= best < i,
                *self == *old(self),
            decreases self.heap.len() - i,
        {
            let a = self.heap[best];
            let b = self.heap[i];
            let keeps = a.0 < b.0 || (a.0 == b.0 && (a.1.0 > b.1.0 || (a.1.0 == b.1.0 && a.1.1
                >= b.1.1)));
            if !keeps {
                best = i;
            }
            i += 1;
        }
        let entry = self.heap.remove(best);
        Some(entry)
    }
}

/// The entries for the far ends of the edges, each with its `f`-score for
/// the given `g`-score.
pub open spec fn entries(edges: Seq<Edge>, g: int, goal: Node) -> Seq<(usize, Node)> {
    Seq::new(edges.len(), |i: int| (f_score(g, edges[i].to, goal) as usize, edges[i].to))
}

impl AStar {
    /// Whether every node linked to the given one is visited or has an entry
    /// in the heap.
    pub open spec fn spread(s: Snapshot, heap: Seq<(usize, Node)>, node: Node) -> bool {
        forall|m: Node| #[trigger] s.maze.linked(node, m) ==> s.is_visited(m) || Self::holds(heap, m)
    }

    /// What holds between steps, but for the node that is being expanded.
    pub open spec fn inv_but(&self, state: &State, pending: Option<Node>) -> bool {
        &&& state.sized()
        &&& state@.maze.is_spanning_tree()
        &&& self.scores_fit(state.maze.width, state.maze.height)
        &&& traced(state@, state.phase.parents@, state.phase.start, self.depths())
        &&& forall|i: int|
            0 <= i < self.heap().len() ==> state.maze.contains((#[trigger] self.heap()[i]).1)
                && state.reached(self.heap()[i].1) && !state@.is_visited(self.heap()[i].1)
        &&& forall|i: int, j: int|
            0 <= i < j < self.heap().len() ==> (#[trigger] self.heap()[i]).1 != (
            #[trigger] self.heap()[j]).1
        &&& state.parent_of(state.phase.start) is None
        &&& (state@.visited_count == 0 ==> self.heap().len() == 1 && self.heap()[0].1
            == state.phase.start)
        &&& (state@.visited_count > 0 ==> state@.is_visited(state.phase.start))
        &&& (!state@.is_visited(state.phase.goal) ==> forall|n: Node|
            state.maze.contains(n) && #[trigger] state@.is_visited(n) && Some(n) != pending
                ==> Self::spread(state@, self.heap(), n))
    }

    /// The open edges from a node to its unvisited neighbours.
    pub fn unvisited_neighbours(state: &State, node: Node) -> (r: Neighbours<false>)
        requires
            state.wf(),
            state.maze.contains(node),
        ensures
            r@ == Self::unvisited_around(state@, node),
    {
        let all = state.maze.open_neighbours(node);
        proof {
            state@.maze.lemma_open_neighbours(node);
        }
        let unvisited = |n: Node| -> (b: bool)
            requires
                state.wf(),
                state.maze.contains(n),
            ensures
                b == !state@.is_visited(n),
            { !state.is_visited(n) };
        let found = all.filter(unvisited);
        proof {
            lemma_filter_agree(
                all@,
                |e: Edge| call_ensures(unvisited, (e.to,), true),
                |e: Edge| !state@.is_visited(e.to),
            );
        }
        found
    }

    /// The unvisited open neighbours are open neighbours that are not
    /// visited, and every such neighbour is among them.
    pub proof fn lemma_unvisited_around(s: Snapshot, node: Node)
        requires
            s.wf(),
            s.maze.contains(node),
        ensures
            forall|i: int|
                0 <= i < Self::unvisited_around(s, node).len() ==> {
                    let e = #[trigger] Self::unvisited_around(s, node)[i];
                    e.from == node && e.in_maze(s.maze.width, s.maze.height) && s.maze.is_open(e)
                        && !s.is_visited(e.to)
                },
            forall|m: Node|
                s.maze.linked(node, m) && !s.is_visited(m) ==> among(
                    Self::unvisited_around(s, node),
                    m,
                ),
            forall|i: int, j: int|
                0 <= i < j < Self::unvisited_around(s, node).len() ==> (
                #[trigger] Self::unvisited_around(s, node)[i]).to != (
                #[trigger] Self::unvisited_around(s, node)[j]).to,
    {
        let all = s.maze.open_neighbours(node);
        let keep = |e: Edge| !s.is_visited(e.to);
        let found = all.filter(keep);
        s.maze.lemma_open_neighbours(node);
        lemma_filter_distinct_ends(all, keep);
        assert forall|i: int| 0 <= i < found.len() implies {
            let e = #[trigger] found[i];
            e.from == node && e.in_maze(s.maze.width, s.maze.height) && s.maze.is_open(e)
                && !s.is_visited(e.to)
        } by {
            let e = found[i];
            assert(found.contains(e));
            all.lemma_filter_contains_rev(keep, e);
            let k = choose|k: int| 0 <= k < all.len() && all[k] == e;
        }
        assert forall|m: Node| s.maze.linked(node, m) && !s.is_visited(m) implies among(
            found,
            m,
        ) by {
            let d = choose|d: crate::maze::Direction|
                (#[trigger] s.maze.open_edge(node, d)) matches Some(e) && e.to == m;
            let e = s.maze.open_edge(node, d).unwrap();
            assert(all.contains(e));
            let k = choose|k: int| 0 <= k < all.len() && all[k] == e;
            all.lemma_filter_contains(keep, k);
            let j = choose|j: int| 0 <= j < found.len() && found[j] == e;
            assert(found[j].to == m);
        }
    }

    /// Gives every unvisited open neighbour of a visited node that node as
    /// parent, a `g`-score one above that of the node, and an entry in the
    /// heap.
    fn expand(&mut self, state: &mut State, head: Node)
        requires
            old(self).inv_but(old(state), Some(head)),
            old(state).maze.contains(head),
            old(state)@.is_visited(head),
            old(state).reached(head),
            forall|n: Node|
                old(state).maze.contains(n) ==> old(state).parent_of(n) != Some(head),
        ensures
            final(self).inv_but(final(state), None),
            final(state)@ == old(state)@,
            final(state).maze == old(state).maze,
            final(state).phase.start == old(state).phase.start,
            final(state).phase.goal == old(state).phase.goal,
            final(self).heap() == old(self).heap() + entries(
                Self::unvisited_around(old(state)@, head),
                old(self).g_of(head) + 1,
                old(state).phase.goal,
            ),
            forall|n: Node|
                old(state).maze.contains(n) ==> final(state).parent_of(n) == (if among(
                    Self::unvisited_around(old(state)@, head),
                    n,
                ) {
                    Some(head)
                } else {
                    old(state).parent_of(n)
                }) && final(self).g_of(n) == (if among(
                    Self::unvisited_around(old(state)@, head),
                    n,
                ) {
                    (old(self).g_of(head) + 1) as usize
                } else {
                    old(self).g_of(n)
                }),
    {
        let ghost s = state@;
        let ghost w = state.maze.width;
        let ghost h = state.maze.height;
        let ghost start = state.phase.start;
        let ghost before = *self;
        let ghost then = *state;
        let fresh = Self::unvisited_neighbours(state, head);
        proof {
            Self::lemma_unvisited_around(s, head);
            self.g_score.lemma_covers(head, w, h);
            head.lemma_slot_in_bounds(w, h);
            assert(traced_at(s, state.phase.parents@, start, self.depths(), head));
            s.lemma_all_visited();
        }
        let g = *self.g_score.get(head) + 1;
        let goal = state.phase.goal;
        let mut i: usize = 0;
        while i < fresh.len()
            invariant
                i <= fresh@.len(),
                fresh@ == Self::unvisited_around(s, head),
                state@ == s,
                s.wf(),
                w == state.maze.width,
                h == state.maze.height,
                start == state.phase.start,
                goal == state.phase.goal,
                state.maze == then.maze,
                g == before.g_of(head) + 1,
                g <= s.visited_count,
                s.visited_count <= w * h,
                s.maze.contains(head),
                s.is_visited(head),
                state.reached(head),
                self.g_of(head) == before.g_of(head),
                forall|k: int|
                    0 <= k < fresh@.len() ==> {
                        let e = #[trigger] fresh@[k];
                        e.from == head && e.in_maze(w, h) && s.maze.is_open(e) && !s.is_visited(
                            e.to,
                        )
                    },
                self.inv_but(state, Some(head)),
                then.phase.start == start,
                then.maze.width == w,
                then.maze.height == h,
                forall|n: Node| s.maze.contains(n) ==> then.parent_of(n) != Some(head),
                forall|a: int, b: int|
                    0 <= a < b < fresh@.len() ==> (#[trigger] fresh@[a]).to != (
                    #[trigger] fresh@[b]).to,
                self.heap() == before.heap() + entries(fresh@.take(i as int), g as int, goal),
                forall|n: Node|
                    s.maze.contains(n) ==> state.parent_of(n) == (if among(
                        fresh@.take(i as int),
                        n,
                    ) {
                        Some(head)
                    } else {
                        then.parent_of(n)
                    }) && self.g_of(n) == (if among(fresh@.take(i as int), n) {
                        g
                    } else {
                        before.g_of(n)
                    }),
            decreases fresh@.len() - i,
        {
            let edge = fresh.get(i);
            let ghost entered = *self;
            let ghost parents = state.phase.parents@;
            proof {
                state.phase.parents.lemma_covers(edge.to, w, h);
                self.g_score.lemma_covers(edge.to, w, h);
                edge.to.lemma_slot_in_bounds(w, h);
                lemma_manhattan_bound(edge.to, goal, w, h);
                assert(edge.to != start);
                lemma_traced_note(s, parents, start, self.depths(), edge);
                assert(w * h + w * h == 2 * w * h) by (nonlinear_arith);
                assert(state.maze.contains(goal));
                head.lemma_slot_in_bounds(w, h);
                assert(depth_at(self.depths(), w, head) == self.g_of(head));
            }
            state.phase.parents.set(edge.to, Some(head));
            self.g_score.set(edge.to, g);
            self.heap.push((g + edge.to.manhattan(goal), edge.to));
            proof {
                let taken = fresh@.take(i as int);
                let more = fresh@.take(i + 1);
                assert(more =~= taken.push(edge));
                assert(self.depths() =~= entered.depths().update(
                    edge.to.spec_normalise(w),
                    depth_at(entered.depths(), w, head) + 1,
                ));
                assert(self.heap() =~= before.heap() + entries(more, g as int, goal));
                assert forall|n: Node| s.maze.contains(n) implies among(more, n) == (among(
                    taken,
                    n,
                ) || n == edge.to) by {
                    if among(more, n) {
                        let k = choose|k: int| 0 <= k < more.len() && (#[trigger] more[k]).to == n;
                        if k < i {
                            assert(taken[k].to == n);
                        }
                    }
                    if among(taken, n) {
                        let k = choose|k: int| 0 <= k < taken.len() && (#[trigger] taken[k]).to == n;
                        assert(more[k].to == n);
                    }
                    if n == edge.to {
                        assert(more[i as int].to == n);
                    }
                }
                assert forall|n: Node| s.maze.contains(n) implies state.parent_of(n) == (if n
                    == edge.to {
                    Some(head)
                } else {
                    parent_at(parents, w, n)
                }) && self.g_of(n) == (if n == edge.to {
                    g
                } else {
                    entered.g_of(n)
                }) by {
                    n.lemma_slot_in_bounds(w, h);
                    if n != edge.to && n.spec_normalise(w) == edge.to.spec_normalise(w) {
                        lemma_node_slots_differ(n, edge.to, w, h);
                    }
                }
                assert forall|k: int| 0 <= k < self.heap().len() implies state.maze.contains(
                    (#[trigger] self.heap()[k]).1,
                ) && state.reached(self.heap()[k].1) && !s.is_visited(self.heap()[k].1) by {
                    if k < entered.heap().len() {
                        assert(self.heap()[k] == entered.heap()[k]);
                        let n = entered.heap()[k].1;
                        assert(s.maze.contains(n));
                    } else {
                        assert(s.maze.contains(edge.to));
                    }
                }
                assert forall|a: int, b: int| 0 <= a < b < self.heap().len() implies (
                #[trigger] self.heap()[a]).1 != (#[trigger] self.heap()[b]).1 by {
                    if b < entered.heap().len() {
                        assert(self.heap()[a] == entered.heap()[a]);
                        assert(self.heap()[b] == entered.heap()[b]);
                    } else {
                        assert(self.heap()[a] == entered.heap()[a]);
                        let n = entered.heap()[a].1;
                        if n == edge.to {
                            assert(s.maze.contains(start) && s.maze.contains(head));
                            assert(s.maze.contains(n));
                            assert(parent_at(parents, w, head) == then.parent_of(head)) by {
                                assert(!among(fresh@.take(i as int), head)) by {
                                    if among(fresh@.take(i as int), head) {
                                        let j = choose|j: int|
                                            0 <= j < fresh@.take(i as int).len() && (
                                            #[trigger] fresh@.take(i as int)[j]).to == head;
                                        assert(fresh@[j].to == head);
                                    }
                                }
                            }
                            Self::lemma_not_yet_in_heap(
                                &entered,
                                &then,
                                s,
                                parents,
                                head,
                                edge,
                                fresh@,
                                i as int,
                                before.heap().len() as int,
                                a,
                            );
                        }
                    }
                }
                assert(state.parent_of(start) is None) by {
                    assert(s.maze.contains(start));
                }
                if !s.is_visited(goal) {
                    assert forall|n: Node|
                        state.maze.contains(n) && #[trigger] s.is_visited(n) && Some(n) != Some(
                            head,
                        ) implies Self::spread(s, self.heap(), n) by {
                        assert(Self::spread(s, entered.heap(), n));
                        assert forall|m: Node| #[trigger] s.maze.linked(n, m) implies s.is_visited(
                            m,
                        ) || Self::holds(self.heap(), m) by {
                            if Self::holds(entered.heap(), m) {
                                let k = choose|k: int|
                                    0 <= k < entered.heap().len() && (
                                    #[trigger] entered.heap()[k]).1 == m;
                                assert(self.heap()[k].1 == m);
                            }
                        }
                    }
                }
            }
            i += 1;
        }
        proof {
            assert(fresh@.take(fresh@.len() as int) =~= fresh@);
            if !s.is_visited(goal) {
                assert forall|n: Node|
                    state.maze.contains(n) && #[trigger] s.is_visited(n) implies Self::spread(
                    s,
                    self.heap(),
                    n,
                ) by {
                    if n == head {
                        assert forall|m: Node| #[trigger] s.maze.linked(n, m) implies s.is_visited(
                            m,
                        ) || Self::holds(self.heap(), m) by {
                            if !s.is_visited(m) {
                                assert(among(fresh@, m));
                                let k = choose|k: int|
                                    0 <= k < fresh@.len() && (#[trigger] fresh@[k]).to == m;
                                assert(self.heap()[before.heap().len() + k].1 == m);
                            }
                        }
                    }
                }
            }
        }
    }
}

impl Animation for AStar {
    type Phase = Phase;

    /// A fresh state on a maze that is a spanning tree.
    open spec fn ready(state: &State) -> bool {
        &&& state.is_fresh()
        &&& state@.maze.is_spanning_tree()
    }

    /// The parents lead from every node that has been reached to the start,
    /// the `g`-score of each being the number of steps; every entry of the
    /// heap is for a node that has been reached and is not visited, and no
    /// two are for the same node; and until the goal is visited, every node
    /// linked to a visited node is visited or has an entry.
    open spec fn inv(&self, state: &State) -> bool {
        self.inv_but(state, None)
    }

    proof fn lemma_inv_outlives_ageing(&self, before: &State, after: &State) {
        before@.lemma_aged();
        super::trace::lemma_traced_aged(
            before@,
            before.phase.parents@,
            before.phase.start,
            self.depths(),
        );
        if !after@.is_visited(after.phase.goal) {
            assert forall|n: Node|
                after.maze.contains(n) && #[trigger] after@.is_visited(n) implies Self::spread(
                after@,
                self.heap(),
                n,
            ) by {
                assert(before@.is_visited(n));
                assert(Self::spread(before@, self.heap(), n));
                assert forall|m: Node| #[trigger] after@.maze.linked(n, m) implies after@.is_visited(
                    m,
                ) || Self::holds(self.heap(), m) by {
                    let e = before@.maze.lemma_linked_edge(n, m);
                }
            }
        }
    }

    /// Puts the start in the heap, with a `g`-score of zero.
    fn new(state: &mut State, rng: &mut StdRng) -> (r: Self)
        ensures
            *final(state) == *old(state),
            r.heap() == seq![
                (
                    f_score(0, old(state).phase.start, old(state).phase.goal) as usize,
                    old(state).phase.start,
                ),
            ],
            r.g_of(old(state).phase.start) == 0,
    {
        let ghost w = state.maze.width;
        let ghost h = state.maze.height;
        let start = state.phase.start;
        let goal = state.phase.goal;
        let mut g_score = NodeBuffer::new_with_values(&state.maze, usize::MAX);
        proof {
            g_score.lemma_covers(start, w, h);
            start.lemma_slot_in_bounds(w, h);
            lemma_manhattan_bound(start, goal, w, h);
            state.lemma_fresh_sound();
        }
        g_score.set(start, 0);
        let mut heap: Vec<(usize, Node)> = Vec::new();
        heap.push((start.manhattan(goal), start));
        let r = AStar { heap, g_score };
        proof {
            let s = state@;
            assert forall|n: Node| s.maze.contains(n) implies #[trigger] traced_at(
                s,
                state.phase.parents@,
                start,
                r.depths(),
                n,
            ) by {
                assert(state.maze.contains(n));
                assert(state.parent_of(n) is None);
                assert(!s.is_visited(n));
            }
            assert(state.parent_of(start) is None);
            assert forall|n: Node| state.maze.contains(n) implies !s.is_visited(n) by {}
        }
        r
    }

    /// What one timestep makes of the algorithm and its state, and the
    /// signal that it gives.
    open spec fn moves(
        &self,
        state: &State,
        after: &Self,
        after_state: &State,
        signal: Signal,
    ) -> bool {
        &&& (self.heap().len() == 0 ==> signal == Signal::Done && *after_state == *state
                && *after == *self)
        &&& (self.heap().len() > 0 ==> {
                let best = Self::best(self.heap());
                let head = self.heap()[best].1;
                let visited = state@.visit(head);
                let fresh = Self::unvisited_around(visited, head);
                &&& !state@.is_visited(head)
                &&& after_state@ == visited
                &&& after_state.phase.start == state.phase.start
                &&& after_state.phase.goal == state.phase.goal
                &&& (signal == Signal::Done <==> head == state.phase.goal)
                &&& (head == state.phase.goal ==> after_state.phase == state.phase
                    && after.heap() == self.heap().remove(best)
                    && after.g_of(head) == self.g_of(head))
                &&& (head != state.phase.goal ==> after.heap() == self.heap().remove(best) + entries(
                    fresh,
                    self.g_of(head) + 1,
                    state.phase.goal,
                ) && forall|n: Node|
                    state.maze.contains(n) ==> after_state.parent_of(n) == (if among(
                        fresh,
                        n,
                    ) {
                        Some(head)
                    } else {
                        state.parent_of(n)
                    }) && after.g_of(n) == (if among(fresh, n) {
                        (self.g_of(head) + 1) as usize
                    } else {
                        self.g_of(n)
                    }))
            })
        &&& (signal == Signal::Done ==> after_state.solved())
    }

    /// Ends once the heap is empty. Else takes the entry that leaves the
    /// heap first and visits its node, which was not visited before; ends
    /// there if it is the goal, and expands it if not.
    fn step(&mut self, state: &mut State, rng: &mut StdRng) -> (r: Signal)
    {
        let ghost before = *self;
        let ghost s = state@;
        let ghost w = state.maze.width;
        let ghost h = state.maze.height;
        proof {
            if self.heap().len() > 0 {
                lemma_best_below(self.heap(), self.heap().len() as int);
            }
        }
        let head = match self.pop_best() {
            Some(entry) => entry.1,
            None => {
                proof {
                    Self::lemma_exhausted(&before, state);
                }
                return Signal::Done;
            },
        };
        let ghost best = Self::best(before.heap());
        proof {
            assert(before.heap()[best].1 == head);
            assert(state.maze.contains(head) && state.reached(head));
            s.lemma_set_age(head, 0);
            super::trace::lemma_traced_visit(
                s,
                state.phase.parents@,
                state.phase.start,
                self.depths(),
                head,
            );
        }
        state.visit(head);
        proof {
            let after = state@;
            after.lemma_visited_counts(head);
            assert forall|i: int| 0 <= i < self.heap().len() implies state.maze.contains(
                (#[trigger] self.heap()[i]).1,
            ) && state.reached(self.heap()[i].1) by {
                if i < best {
                    assert(self.heap()[i] == before.heap()[i]);
                } else {
                    assert(self.heap()[i] == before.heap()[i + 1]);
                }
            }
            if s.visited_count == 0 {
                assert(head == state.phase.start);
            }
            if !after.is_visited(state.phase.goal) {
                assert forall|n: Node|
                    state.maze.contains(n) && #[trigger] after.is_visited(n) && Some(n) != Some(
                        head,
                    ) implies Self::spread(after, self.heap(), n) by {
                    assert(s.is_visited(n));
                    assert(Self::spread(s, before.heap(), n));
                    assert forall|m: Node| #[trigger] after.maze.linked(n, m) implies after.is_visited(
                        m,
                    ) || Self::holds(self.heap(), m) by {
                        let e = s.maze.lemma_linked_edge(n, m);
                        if !s.is_visited(m) && m != head {
                            let k = choose|k: int|
                                0 <= k < before.heap().len() && (#[trigger] before.heap()[k]).1
                                    == m;
                            if k < best {
                                assert(self.heap()[k].1 == m);
                            } else {
                                assert(self.heap()[k - 1].1 == m);
                            }
                        }
                    }
                }
            }
        }
        if head == state.phase.goal {
            return Signal::Done;
        }
        proof {
            assert forall|n: Node| state.maze.contains(n) implies state.parent_of(n) != Some(
                head,
            ) by {
                assert(s.maze.contains(n));
                assert(traced_at(s, state.phase.parents@, state.phase.start, self.depths(), n));
            }
        }
        self.expand(state, head);
        Signal::Continue
    }

    proof fn lemma_inv_can_be_drawn(&self, state: &State) {
    }

    open spec fn spec_timescale(&self) -> u32 {
        100
    }

    fn timescale(&self) -> (r: u32) {
        100
    }
}

impl AStar {
    /// In a maze without cycles, the heap holds no entry yet for an unvisited
    /// node next to the node that is being expanded for the first time.
    proof fn lemma_not_yet_in_heap(
        &self,
        then: &State,
        s: Snapshot,
        parents: Seq<Option<Node>>,
        head: Node,
        edge: Edge,
        fresh: Seq<Edge>,
        count: int,
        old_len: int,
        at: int,
    )
        requires
            s.wf(),
            s.maze.acyclic(),
            s.maze.width == then.maze.width,
            s.maze.height == then.maze.height,
            s.maze.contains(then.phase.start),
            s.maze.contains(head),
            s.is_visited(head),
            s.is_visited(then.phase.start),
            head == then.phase.start || parent_at(parents, s.maze.width, head) is Some,
            traced(s, parents, then.phase.start, self.depths()),
            0 <= count < fresh.len(),
            edge == fresh[count],
            edge.from == head,
            edge.in_maze(s.maze.width, s.maze.height),
            s.maze.is_open(edge),
            !s.is_visited(edge.to),
            forall|a: int, b: int|
                0 <= a < b < fresh.len() ==> (#[trigger] fresh[a]).to != (#[trigger] fresh[b]).to,
            forall|n: Node| s.maze.contains(n) ==> then.parent_of(n) != Some(head),
            forall|n: Node|
                s.maze.contains(n) ==> parent_at(parents, s.maze.width, n) == (if among(
                    fresh.take(count),
                    n,
                ) {
                    Some(head)
                } else {
                    then.parent_of(n)
                }),
            0 <= at < self.heap().len(),
            0 <= old_len <= self.heap().len(),
            self.heap().len() == old_len + count,
            forall|k: int|
                old_len <= k < self.heap().len() ==> (#[trigger] self.heap()[k]).1 == fresh[k
                    - old_len].to,
            s.maze.contains(self.heap()[at].1),
            self.heap()[at].1 == then.phase.start || parent_at(
                parents,
                s.maze.width,
                self.heap()[at].1,
            ) is Some,
        ensures
            self.heap()[at].1 != edge.to,
    {
        let w = s.maze.width;
        let n = edge.to;
        let start = then.phase.start;
        if self.heap()[at].1 == n {
            if at >= old_len {
                assert(fresh[at - old_len].to == fresh[count].to);
            } else {
                if among(fresh.take(count), n) {
                    let j = choose|j: int|
                        0 <= j < fresh.take(count).len() && (#[trigger] fresh.take(count)[j]).to == n;
                    assert(fresh[j].to == fresh[count].to);
                }
                let p = parent_at(parents, w, n).unwrap();
                assert(p != head);
                assert(traced_at(s, parents, start, self.depths(), n));
                s.maze.lemma_open_edge_links(edge);
                super::trace::lemma_one_way_in(s, parents, start, self.depths(), n, p, head);
            }
        }
    }

    /// Once the heap is empty, the goal has been visited.
    proof fn lemma_exhausted(&self, state: &State)
        requires
            self.inv_but(state, None),
            self.heap().len() == 0,
        ensures
            state.solved(),
    {
        let s = state@;
        let l = s.maze;
        let start = state.phase.start;
        let goal = state.phase.goal;
        if !s.is_visited(goal) {
            let inside = Set::new(|n: Node| l.contains(n) && s.is_visited(n));
            assert(l.connected(start, goal));
            let p = choose|p: Seq<Node>| #[trigger]
                l.is_walk(p) && p[0] == start && p[p.len() - 1] == goal;
            assert forall|a: Node, b: Node|
                inside.contains(a) && #[trigger] l.linked(a, b) implies inside.contains(b) by {
                assert(state.maze.contains(a));
                assert(Self::spread(s, self.heap(), a));
                let e = l.lemma_linked_edge(a, b);
                if Self::holds(self.heap(), b) {
                    let k = choose|k: int|
                        0 <= k < self.heap().len() && (#[trigger] self.heap()[k]).1 == b;
                }
            }
            l.lemma_walk_stays(inside, p, p.len() - 1);
        }
    }
}

impl AStar {
    /// Once the goal is visited, its `g`-score is the least number of open
    /// edges that lead from the start to it, and the way back from it along
    /// the parents takes that many steps.
    pub proof fn lemma_optimal(&self, state: &State)
        requires
            self.inv(state),
            state@.is_visited(state.phase.goal),
        ensures
            state@.maze.is_distance(
                state.phase.start,
                state.phase.goal,
                self.g_of(state.phase.goal) as nat,
            ),
            super::trace::ancestor(
                state.phase.parents@,
                state.maze.width,
                state.phase.start,
                state.phase.goal,
                self.g_of(state.phase.goal) as nat,
            ) == state.phase.start,
            forall|j: nat|
                j < self.g_of(state.phase.goal) ==> #[trigger] super::trace::ancestor(
                    state.phase.parents@,
                    state.maze.width,
                    state.phase.start,
                    state.phase.goal,
                    j,
                ) != state.phase.start,
    {
        let goal = state.phase.goal;
        let w = state.maze.width;
        assert(traced_at(state@, state.phase.parents@, state.phase.start, self.depths(), goal));
        goal.lemma_slot_in_bounds(w, state.maze.height);
        assert(depth_at(self.depths(), w, goal) == self.g_of(goal));
        super::trace::lemma_way_back_is_shortest(
            state@,
            state.phase.parents@,
            state.phase.start,
            self.depths(),
            goal,
        );
    }
}

} // verus!
