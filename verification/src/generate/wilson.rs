//! Wilson: loop-erased random walks, each started on an unvisited node and
//! added to the maze when it meets a node of the maze.

use vstd::prelude::*;
use rand::rngs::StdRng;
use crate::lattice::Lattice;
use crate::maze::lemma_cell_slot;
use crate::maze::lemma_edge_slot_reverse;
use crate::maze::lemma_edge_slots_differ;
use crate::maze::lemma_node_slots_differ;
use crate::maze::lemma_slot_cell;
use crate::maze::node_at;
use crate::maze::Direction;
use crate::maze::Edge;
use crate::maze::MazeIndex;
use crate::maze::Node;
use crate::maze::NodeBuffer;
use crate::state::lemma_count_visited_update;
use crate::state::Snapshot;
use crate::Animation;
use crate::Signal;
use super::Phase;
use super::State;

verus! {

/// Perform a loop-erased random walk from a random unvisited node until we find the established maze.
pub struct Wilson {
    /// Loop-erased path currently being walked.
    path: Vec<Edge>,
    /// Path indices of successor nodes. When a loop is detected, this is the first index to remove.
    path_indices: NodeBuffer<Option<usize>>,
}

/// Whether one of the edges of `path` from position `from` on leads to the
/// node.
pub open spec fn leads_to(path: Seq<Edge>, from: int, node: Node) -> bool {
    exists|j: int| from <= j < path.len() && (#[trigger] path[j]).to == node
}

/// Whether one of the edges of `path` from position `from` on has the slot.
pub open spec fn has_slot(path: Seq<Edge>, from: int, width: usize, slot: int) -> bool {
    exists|j: int| from <= j < path.len() && (#[trigger] path[j]).spec_normalise(width) == slot
}

/// The lattice with the edges of `path` from position `from` on closed.
pub open spec fn without(l: Lattice, path: Seq<Edge>, from: int) -> Lattice {
    Lattice {
        open: Seq::new(l.open.len(), |i: int| l.open[i] && !has_slot(path, from, l.width, i)),
        ..l
    }
}

/// The snapshot with the edges of `path` from position `from` on closed and
/// the nodes that they lead to unvisited.
pub open spec fn erased(s: Snapshot, path: Seq<Edge>, from: int) -> Snapshot {
    Snapshot {
        maze: without(s.maze, path, from),
        age: Seq::new(
            s.age.len(),
            |i: int|
                if leads_to(path, from, node_at(i, s.maze.width)) {
                    None
                } else {
                    s.age[i]
                },
        ),
        visited_count: s.visited_count - (path.len() - from),
    }
}

/// Whether the edge at a position of `path` is an edge of the maze that starts
/// where the edge before it ends.
pub open spec fn follows(path: Seq<Edge>, k: int, width: usize, height: usize) -> bool {
    path[k].in_maze(width, height) && path[k].from == path[k - 1].to
}

/// Whether `path` is a walk without loops: an edge from its first node to
/// itself, then edges of the maze, each starting where the one before ends
/// and no two ending at the same node.
pub open spec fn is_trail(path: Seq<Edge>, width: usize, height: usize) -> bool {
    &&& forall|k: int|
        0 <= k < path.len() ==> (#[trigger] path[k]).to.in_maze(width, height)
    &&& path.len() > 0 ==> path[0] == (Edge {
        from: path[0].to,
        to: path[0].to,
        direction: Direction::North,
    })
    &&& forall|k: int| 1 <= k < path.len() ==> #[trigger] follows(path, k, width, height)
    &&& forall|j: int, k: int|
        0 <= j < path.len() && 0 <= k < path.len() && (#[trigger] path[j]).to == (
        #[trigger] path[k]).to ==> j == k
}

/// Two edges of a trail that are not the same have different slots.
pub proof fn lemma_trail_slots(path: Seq<Edge>, width: usize, height: usize, j: int, k: int)
    requires
        is_trail(path, width, height),
        1 <= j < path.len(),
        1 <= k < path.len(),
        path[j].spec_normalise(width) == path[k].spec_normalise(width),
    ensures
        j == k,
{
    assert(follows(path, j, width, height));
    assert(follows(path, k, width, height));
    lemma_edge_slots_differ(path[j], path[k], width, height);
    if j != k {
        let a = path[j - 1];
        let b = path[k - 1];
        assert(path[j].to == path[k].to || (path[j].to == b.to && a.to == path[k].to));
    }
}

/// An edge of the maze that leads to a node off the trail has the slot of no
/// edge of the trail.
pub proof fn lemma_off_trail_slot(path: Seq<Edge>, width: usize, height: usize, edge: Edge)
    requires
        is_trail(path, width, height),
        edge.in_maze(width, height),
        !leads_to(path, 0, edge.to) || !leads_to(path, 0, edge.from),
    ensures
        !has_slot(path, 1, width, edge.spec_normalise(width)),
{
    if has_slot(path, 1, width, edge.spec_normalise(width)) {
        let j = choose|j: int|
            1 <= j < path.len() && (#[trigger] path[j]).spec_normalise(width)
                == edge.spec_normalise(width);
        assert(follows(path, j, width, height));
        lemma_edge_slots_differ(path[j], edge, width, height);
        assert(path[j - 1].to == path[j].from);
    }
}

/// Closing the last of the edges from `from - 1` on, and unvisiting its far
/// end, is one more step of erasing.
pub proof fn lemma_erase_one(s: Snapshot, path: Seq<Edge>, from: int)
    requires
        s.wf(),
        is_trail(path, s.maze.width, s.maze.height),
        2 <= from <= path.len(),
        forall|k: int| from - 1 <= k < path.len() ==> s.is_visited((#[trigger] path[k]).to),
    ensures
        erased(s, path, from).wf(),
        erased(s, path, from).is_visited(path[from - 1].to),
        erased(s, path, from).unvisit(path[from - 1].to).set_edge(path[from - 1], false) == erased(
            s,
            path,
            from - 1,
        ),
{
    let w = s.maze.width;
    let h = s.maze.height;
    lemma_erased(s, path, from);
    let e = path[from - 1];
    assert(follows(path, from - 1, w, h));
    let now = erased(s, path, from);
    let next = now.unvisit(e.to).set_edge(e, false);
    let goal = erased(s, path, from - 1);
    e.to.lemma_slot_in_bounds(w, h);
    e.lemma_slot_in_bounds(w, h);
    lemma_cell_slot(e.to.0 as int, e.to.1 as int, w as int, h as int);
    assert(!leads_to(path, from, e.to));
    assert(now.is_visited(e.to));
    assert forall|i: int| 0 <= i < s.age.len() implies next.age[i] == goal.age[i] by {
        lemma_slot_cell(i, w as int, h as int);
        let n = node_at(i, w);
        if leads_to(path, from - 1, n) {
            let j = choose|j: int| from - 1 <= j < path.len() && (#[trigger] path[j]).to == n;
            if j >= from {
                assert(leads_to(path, from, n));
            }
        }
        if i == now.slot(e.to) {
            assert(n == e.to);
        } else if leads_to(path, from, n) {
            assert(leads_to(path, from - 1, n));
        }
    }
    assert(next.age =~= goal.age);
    assert forall|i: int| 0 <= i < s.maze.open.len() implies next.maze.open[i]
        == goal.maze.open[i] by {
        if has_slot(path, from - 1, w, i) {
            let j = choose|j: int|
                from - 1 <= j < path.len() && (#[trigger] path[j]).spec_normalise(w) == i;
            if j >= from {
                assert(has_slot(path, from, w, i));
            }
        }
        if has_slot(path, from, w, i) {
            assert(has_slot(path, from - 1, w, i));
        }
    }
    assert(next.maze.open =~= goal.maze.open);
}

/// Erasing keeps a snapshot well formed; it unvisits exactly the nodes that
/// the erased edges lead to.
pub proof fn lemma_erased(s: Snapshot, path: Seq<Edge>, from: int)
    requires
        s.wf(),
        is_trail(path, s.maze.width, s.maze.height),
        1 <= from <= path.len(),
        forall|k: int| from <= k < path.len() ==> s.is_visited((#[trigger] path[k]).to),
    ensures
        erased(s, path, from).wf(),
        forall|n: Node|
            s.maze.contains(n) ==> erased(s, path, from).is_visited(n) == (s.is_visited(n)
                && !leads_to(path, from, n)),
    decreases path.len() - from,
{
    let w = s.maze.width;
    let h = s.maze.height;
    let now = erased(s, path, from);
    assert forall|n: Node| s.maze.contains(n) implies now.is_visited(n) == (s.is_visited(n)
        && !leads_to(path, from, n)) by {
        n.lemma_slot_in_bounds(w, h);
        lemma_cell_slot(n.0 as int, n.1 as int, w as int, h as int);
    }
    if from == path.len() {
        assert(now.age =~= s.age);
        assert(now.maze.open =~= s.maze.open);
    } else {
        lemma_erased(s, path, from + 1);
        let later = erased(s, path, from + 1);
        let e = path[from];
        e.to.lemma_slot_in_bounds(w, h);
        lemma_cell_slot(e.to.0 as int, e.to.1 as int, w as int, h as int);
        assert(!leads_to(path, from + 1, e.to));
        assert(later.is_visited(e.to));
        assert forall|i: int| 0 <= i < s.age.len() implies now.age[i] == later.age.update(
            later.slot(e.to),
            None,
        )[i] by {
            lemma_slot_cell(i, w as int, h as int);
            let n = node_at(i, w);
            if leads_to(path, from, n) {
                let j = choose|j: int| from <= j < path.len() && (#[trigger] path[j]).to == n;
                if j > from {
                    assert(leads_to(path, from + 1, n));
                }
            }
            if i == later.slot(e.to) {
                assert(n == e.to);
            } else if leads_to(path, from + 1, n) {
                assert(leads_to(path, from, n));
            }
        }
        assert(now.age =~= later.age.update(later.slot(e.to), None));
        lemma_count_visited_update(later.age, later.slot(e.to), None, later.age.len() as int);
    }
}

/// The lattice `base` with `edge` and the edges of `path` from position `k`
/// on opened.
pub open spec fn attached(base: Lattice, path: Seq<Edge>, edge: Edge, k: int) -> Lattice
    decreases path.len() - k,
{
    if k >= path.len() {
        base.set_open(edge, true)
    } else {
        attached(base, path, edge, k + 1).set_open(path[k], true)
    }
}

/// Setting the flag of an edge is setting that of its reverse.
pub proof fn lemma_set_open_reverse(l: Lattice, e: Edge)
    requires
        e.in_maze(l.width, l.height),
    ensures
        l.set_open(e, true) == l.set_open(e.reverse(), true),
{
    lemma_edge_slot_reverse(e, l.width, l.height);
}

/// A trail that ends next to a tree, and has no node in common with it,
/// makes a larger tree when its edges and the edge to the tree are opened.
pub proof fn lemma_attached(
    base: Lattice,
    members: Set<Node>,
    size: int,
    path: Seq<Edge>,
    edge: Edge,
    k: int,
)
    requires
        base.is_tree_on(members, size),
        is_trail(path, base.width, base.height),
        1 <= k <= path.len(),
        edge.in_maze(base.width, base.height),
        edge.from == path[path.len() - 1].to,
        members.contains(edge.to),
        forall|j: int| 0 <= j < path.len() ==> !members.contains((#[trigger] path[j]).to),
    ensures
        attached(base, path, edge, k).is_tree_on(
            Set::new(|n: Node| members.contains(n) || leads_to(path, k - 1, n)),
            size + (path.len() - k + 1),
        ),
        attached(base, path, edge, k).width == base.width,
        attached(base, path, edge, k).height == base.height,
        attached(base, path, edge, k).open.len() == base.open.len(),
        forall|i: int|
            0 <= i < base.open.len() ==> (#[trigger] attached(base, path, edge, k).open[i]) == (
            base.open[i] || i == edge.spec_normalise(base.width) || has_slot(
                path,
                k,
                base.width,
                i,
            )),
    decreases path.len() - k,
{
    let w = base.width;
    let h = base.height;
    let now = attached(base, path, edge, k);
    let nodes = Set::new(|n: Node| members.contains(n) || leads_to(path, k - 1, n));
    edge.lemma_slot_in_bounds(w, h);
    if k == path.len() {
        lemma_set_open_reverse(base, edge);
        lemma_edge_slot_reverse(edge, w, h);
        base.lemma_tree_grows(members, size, edge.reverse());
        assert(nodes =~= members.insert(edge.from)) by {
            assert forall|n: Node| nodes.contains(n) <==> members.insert(edge.from).contains(
                n,
            ) by {
                if leads_to(path, k - 1, n) {
                    let j = choose|j: int| k - 1 <= j < path.len() && (#[trigger] path[j]).to == n;
                }
                if n == edge.from {
                    assert(path[k - 1].to == n);
                }
            }
        }
        assert forall|i: int| 0 <= i < base.open.len() implies now.open[i] == (base.open[i] || i
            == edge.spec_normalise(w) || has_slot(path, k, w, i)) by {
        }
    } else {
        lemma_attached(base, members, size, path, edge, k + 1);
        let later = attached(base, path, edge, k + 1);
        let before = Set::new(|n: Node| members.contains(n) || leads_to(path, k, n));
        let e = path[k];
        assert(follows(path, k, w, h));
        lemma_set_open_reverse(later, e);
        lemma_edge_slot_reverse(e, w, h);
        e.lemma_slot_in_bounds(w, h);
        assert(before.contains(e.to));
        assert(!before.contains(e.from)) by {
            if leads_to(path, k, e.from) {
                let j = choose|j: int| k <= j < path.len() && (#[trigger] path[j]).to == e.from;
                assert(path[k - 1].to == e.from);
            }
            assert(!members.contains(path[k - 1].to));
        }
        later.lemma_tree_grows(before, size + (path.len() - k), e.reverse());
        assert(nodes =~= before.insert(e.from)) by {
            assert forall|n: Node| nodes.contains(n) <==> before.insert(e.from).contains(n) by {
                if leads_to(path, k - 1, n) {
                    let j = choose|j: int| k - 1 <= j < path.len() && (#[trigger] path[j]).to == n;
                    if j >= k {
                        assert(leads_to(path, k, n));
                    }
                }
                if leads_to(path, k, n) {
                    let j = choose|j: int| k <= j < path.len() && (#[trigger] path[j]).to == n;
                    assert(leads_to(path, k - 1, n));
                }
                if n == e.from {
                    assert(path[k - 1].to == n);
                }
            }
        }
        assert forall|i: int| 0 <= i < base.open.len() implies now.open[i] == (base.open[i] || i
            == edge.spec_normalise(w) || has_slot(path, k, w, i)) by {
            if has_slot(path, k, w, i) {
                let j = choose|j: int|
                    k <= j < path.len() && (#[trigger] path[j]).spec_normalise(w) == i;
                if j > k {
                    assert(has_slot(path, k + 1, w, i));
                } else {
                    assert(i == e.spec_normalise(w));
                }
            }
            if has_slot(path, k + 1, w, i) {
                let j = choose|j: int|
                    k + 1 <= j < path.len() && (#[trigger] path[j]).spec_normalise(w) == i;
                assert(has_slot(path, k, w, i));
            }
            if i == e.spec_normalise(w) {
                assert(path[k].spec_normalise(w) == i);
                assert(has_slot(path, k, w, i));
                assert(now.open[i]);
            } else {
                assert(now.open[i] == later.open[i]);
            }
        }
    }
}

impl Wilson {
    /// The walk in progress: an edge from its first node to itself, then
    /// the edges walked.
    pub closed spec fn path(&self) -> Seq<Edge> {
        self.path@
    }

    /// The position after the edge of the walk that leads to the node, where
    /// the node has been the head of the walk.
    pub closed spec fn index_of(&self, node: Node) -> Option<usize> {
        self.path_indices.at(node)
    }

    /// Whether the positions cover the nodes of a maze of the given size.
    pub closed spec fn indices_fit(&self, width: usize, height: usize) -> bool {
        self.path_indices.fits(width, height)
    }

    /// The node that the walk has come to.
    pub open spec fn head(&self) -> Node {
        self.path().last().to
    }

    /// Whether the walk has come to its head with the step before, so that
    /// the head is not yet visited.
    pub open spec fn fresh(&self) -> bool {
        self.path().len() > 0 && self.index_of(self.head()) is None
    }

    /// The number of nodes of the walk that are visited.
    pub open spec fn marked(&self) -> int {
        self.path().len() - if self.fresh() {
            1int
        } else {
            0int
        }
    }

    /// The nodes of the maze built so far: the visited nodes off the walk.
    pub open spec fn settled_nodes(&self, s: Snapshot) -> Set<Node> {
        Set::new(|n: Node| s.maze.contains(n) && s.is_visited(n) && !leads_to(self.path(), 0, n))
    }

    /// The walk is a trail of open edges; every node that has been its head
    /// is visited and knows its position.
    pub open spec fn trail_wf(&self, s: Snapshot) -> bool {
        &&& is_trail(self.path(), s.maze.width, s.maze.height)
        &&& forall|k: int| 1 <= k < self.path().len() ==> s.maze.is_open(#[trigger] self.path()[k])
        &&& forall|n: Node|
            s.maze.contains(n) && (#[trigger] self.index_of(n)) is Some ==> 1 <= self.index_of(
                n,
            ).unwrap() <= self.path().len() && self.path()[self.index_of(n).unwrap() - 1].to == n
        &&& forall|k: int|
            0 <= k < self.marked() ==> self.index_of((#[trigger] self.path()[k]).to) == Some(
                (k + 1) as usize,
            ) && s.is_visited(self.path()[k].to)
        &&& self.fresh() ==> !s.is_visited(self.head())
    }

    /// The state after a step along `edge`, where `index` is the position
    /// that the far end of the edge knows: the head is visited; then a loop
    /// is erased, or the edge is opened.
    pub open spec fn moved(
        before: Snapshot,
        path: Seq<Edge>,
        index: Option<usize>,
        edge: Edge,
    ) -> Snapshot {
        let marked = before.visit(path.last().to);
        match index {
            Some(start) => erased(marked, path, start as int),
            None => marked.set_edge(edge, true),
        }
    }

    /// The walk after a step along `edge`: cut back to the far end of the
    /// edge where that is on the walk, empty where it belongs to the maze,
    /// and longer by the edge otherwise.
    pub open spec fn path_after(
        before: Snapshot,
        path: Seq<Edge>,
        index: Option<usize>,
        edge: Edge,
    ) -> Seq<Edge> {
        match index {
            Some(start) => path.take(start as int),
            None => if before.visit(path.last().to).is_visited(edge.to) {
                Seq::<Edge>::empty()
            } else {
                path.push(edge)
            },
        }
    }

    /// Changing the position of one node leaves those of the others.
    proof fn lemma_index_set(
        before: Wilson,
        after: Wilson,
        width: usize,
        height: usize,
        node: Node,
        value: Option<usize>,
    )
        requires
            width * height <= usize::MAX,
            before.indices_fit(width, height),
            node.in_maze(width, height),
            after.path_indices.spec_width() == before.path_indices.spec_width(),
            after.path_indices@ == before.path_indices@.update(
                before.path_indices.slot(node),
                value,
            ),
        ensures
            after.indices_fit(width, height),
            forall|n: Node|
                n.in_maze(width, height) ==> after.index_of(n) == if n == node {
                    value
                } else {
                    before.index_of(n)
                },
    {
        node.lemma_slot_in_bounds(width, height);
        assert forall|n: Node| n.in_maze(width, height) implies after.index_of(n) == if n == node {
            value
        } else {
            before.index_of(n)
        } by {
            n.lemma_slot_in_bounds(width, height);
            node.lemma_slot_in_bounds(width, height);
            if n != node && n.spec_normalise(width) == node.spec_normalise(width) {
                lemma_node_slots_differ(n, node, width, height);
            }
        }
    }

    /// Starts a new walk on the given node.
    pub fn begin(&mut self, state: &State, first: Node)
        requires
            old(self).inv(state),
            old(self).path().len() == 0,
            state.maze.contains(first),
            !state@.is_visited(first),
        ensures
            final(self).inv(state),
            final(self).path() == seq![Edge { from: first, to: first, direction: Direction::North }],
            forall|n: Node| final(self).index_of(n) == old(self).index_of(n),
    {
        let ghost before = *self;
        let ghost s = state@;
        self.path.push(Edge::identity(first));
        proof {
            let path = self.path();
            assert(path =~= seq![Edge { from: first, to: first, direction: Direction::North }]);
            assert forall|n: Node| self.index_of(n) == before.index_of(n) by {}
            assert forall|n: Node| s.maze.contains(n) implies self.index_of(n) is None by {
                if before.index_of(n) is Some {
                    assert(1 <= before.index_of(n).unwrap() <= before.path().len());
                }
            }
            assert(path.len() == 1);
            assert(path[0].to == first);
            assert(self.head() == first);
            assert(s.maze.contains(first));
            assert(self.index_of(first) is None);
            assert(self.fresh());
            assert(self.settled_nodes(s) =~= before.settled_nodes(s)) by {
                assert forall|n: Node| leads_to(path, 0, n) implies n == first by {
                    let j = choose|j: int| 0 <= j < path.len() && (#[trigger] path[j]).to == n;
                }
                assert forall|n: Node| !leads_to(before.path(), 0, n) by {
                    if leads_to(before.path(), 0, n) {
                        let j = choose|j: int|
                            0 <= j < before.path().len() && (#[trigger] before.path()[j]).to == n;
                    }
                }
            }
            assert(without(s.maze, path, 1).open =~= without(s.maze, before.path(), 1).open) by {
                assert forall|i: int| !has_slot(path, 1, s.maze.width, i) by {
                    if has_slot(path, 1, s.maze.width, i) {
                        let j = choose|j: int|
                            1 <= j < path.len() && (#[trigger] path[j]).spec_normalise(
                                s.maze.width,
                            ) == i;
                    }
                }
                assert forall|i: int| !has_slot(before.path(), 1, s.maze.width, i) by {
                    if has_slot(before.path(), 1, s.maze.width, i) {
                        let j = choose|j: int|
                            1 <= j < before.path().len() && (
                            #[trigger] before.path()[j]).spec_normalise(s.maze.width) == i;
                    }
                }
            }
        }
    }

    /// Visits the head and notes its position.
    fn mark_head(&mut self, state: &mut State)
        requires
            old(self).inv(old(state)),
            old(self).path().len() > 0,
        ensures
            final(self).inv(final(state)),
            !final(self).fresh(),
            final(self).path() == old(self).path(),
            final(state)@ == old(state)@.visit(old(self).head()),
            final(state).maze == old(state).maze,
            forall|n: Node|
                old(state).maze.contains(n) && n != old(self).head() ==> final(self).index_of(n)
                    == old(self).index_of(n),
    {
        let ghost before = *self;
        let ghost s = state@;
        let ghost w = state.maze.width;
        let ghost h = state.maze.height;
        let len = self.path.len();
        let head = self.path[len - 1].to;
        proof {
            s.lemma_set_age(head, 0);
            self.path_indices.lemma_covers(head, w, h);
        }
        state.visit(head);
        self.path_indices.set(head, Some(len));
        proof {
            let path = self.path();
            let after = state@;
            Self::lemma_index_set(before, *self, w, h, head, Some(len));
            assert forall|k: int| 0 <= k < path.len() implies self.index_of(
                (#[trigger] path[k]).to,
            ) == Some((k + 1) as usize) && after.is_visited(path[k].to) by {
                if k < len - 1 {
                    assert(path[k].to != head);
                    assert(k < before.marked());
                } else if !before.fresh() {
                    let j = before.index_of(head).unwrap();
                    assert(path[j - 1].to == path[len - 1].to);
                }
            }
            assert forall|n: Node|
                after.maze.contains(n) && (#[trigger] self.index_of(n)) is Some implies 1
                <= self.index_of(n).unwrap() <= path.len() && path[self.index_of(n).unwrap()
                - 1].to == n by {
                if n != head {
                    assert(before.index_of(n) is Some);
                }
            }
            assert(self.settled_nodes(after) =~= before.settled_nodes(s)) by {
                assert(leads_to(path, 0, head));
            }
            if !before.fresh() {
                assert(len - 1 < before.marked());
                assert(s.is_visited(path[len - 1].to));
            }
        }
    }

    /// Cuts the walk back to the given length: closes the edges beyond it
    /// and unvisits the nodes that they lead to.
    fn erase(&mut self, state: &mut State, start: usize)
        requires
            old(self).inv(old(state)),
            !old(self).fresh(),
            1 <= start < old(self).path().len(),
        ensures
            final(self).inv(final(state)),
            final(self).path() == old(self).path().take(start as int),
            final(state)@ == erased(old(state)@, old(self).path(), start as int),
    {
        let ghost before = *self;
        let ghost s = state@;
        let ghost w = state.maze.width;
        let ghost h = state.maze.height;
        let ghost path = self.path@;
        proof {
            lemma_erased(s, path, path.len() as int);
            assert(erased(s, path, path.len() as int).age =~= s.age);
            assert(erased(s, path, path.len() as int).maze.open =~= s.maze.open) by {
                assert forall|i: int| !has_slot(path, path.len() as int, w, i) by {
                    if has_slot(path, path.len() as int, w, i) {
                        let j = choose|j: int|
                            path.len() <= j < path.len() && (#[trigger] path[j]).spec_normalise(w)
                                == i;
                    }
                }
            }
            assert forall|n: Node| !leads_to(path, path.len() as int, n) by {
                if leads_to(path, path.len() as int, n) {
                    let j = choose|j: int|
                        path.len() <= j < path.len() && (#[trigger] path[j]).to == n;
                }
            }
        }
        while self.path.len() > start
            invariant
                state.wf(),
                w == state.maze.width,
                h == state.maze.height,
                s.wf(),
                s.maze.width == w,
                s.maze.height == h,
                1 <= start <= self.path@.len() <= path.len(),
                self.path@ == path.take(self.path@.len() as int),
                is_trail(path, w, h),
                forall|k: int| 0 <= k < path.len() ==> s.is_visited((#[trigger] path[k]).to),
                state@ == erased(s, path, self.path@.len() as int),
                self.indices_fit(w, h),
                forall|n: Node|
                    n.in_maze(w, h) ==> self.index_of(n) == if leads_to(
                        path,
                        self.path@.len() as int,
                        n,
                    ) {
                        None
                    } else {
                        before.index_of(n)
                    },
            decreases self.path@.len(),
        {
            let ghost m = self.path@.len() as int;
            let ghost entered = *self;
            let edge = self.path.pop().unwrap();
            assert(edge == path[m - 1]);
            assert(self.path@ =~= path.take(m - 1));
            proof {
                assert(follows(path, m - 1, w, h));
                lemma_erase_one(s, path, m);
                self.path_indices.lemma_covers(edge.to, w, h);
                state.maze.open.lemma_covers(edge, w, h);
            }
            let ghost popped = *self;
            self.path_indices.set(edge.to, None);
            state.maze.open.set(edge, false);
            state.unvisit(edge.to);
            proof {
                Self::lemma_index_set(popped, *self, w, h, edge.to, None);
                assert(state@ == erased(s, path, m).unvisit(edge.to).set_edge(edge, false));
                assert forall|n: Node| n.in_maze(w, h) implies self.index_of(n) == if leads_to(
                    path,
                    m - 1,
                    n,
                ) {
                    None
                } else {
                    before.index_of(n)
                } by {
                    assert(popped.index_of(n) == entered.index_of(n));
                    if leads_to(path, m - 1, n) {
                        let j = choose|j: int| m - 1 <= j < path.len() && (#[trigger] path[j]).to == n;
                        if j >= m {
                            assert(leads_to(path, m, n));
                        }
                    }
                    if leads_to(path, m, n) {
                        let j = choose|j: int| m <= j < path.len() && (#[trigger] path[j]).to == n;
                        assert(leads_to(path, m - 1, n));
                    }
                    if n == edge.to {
                        assert(leads_to(path, m - 1, n));
                    }
                }
            }
        }
        proof {
            let after = state@;
            let cut = self.path();
            let from = start as int;
            lemma_erased(s, path, from);
            assert(cut =~= path.take(from));
            assert(is_trail(cut, w, h)) by {
                assert forall|k: int| 1 <= k < cut.len() implies #[trigger] follows(cut, k, w, h) by {
                    assert(follows(path, k, w, h));
                }
            }
            assert forall|n: Node| n.in_maze(w, h) implies leads_to(path, 0, n) == (leads_to(
                cut,
                0,
                n,
            ) || leads_to(path, from, n)) by {
                if leads_to(path, 0, n) {
                    let j = choose|j: int| 0 <= j < path.len() && (#[trigger] path[j]).to == n;
                    if j < from {
                        assert(cut[j].to == n);
                    } else {
                        assert(leads_to(path, from, n));
                    }
                }
                if leads_to(cut, 0, n) {
                    let j = choose|j: int| 0 <= j < cut.len() && (#[trigger] cut[j]).to == n;
                    assert(path[j].to == n);
                }
                if leads_to(path, from, n) {
                    let j = choose|j: int| from <= j < path.len() && (#[trigger] path[j]).to == n;
                }
            }
            assert forall|k: int| 0 <= k < cut.len() implies !leads_to(
                path,
                from,
                (#[trigger] cut[k]).to,
            ) by {
                if leads_to(path, from, cut[k].to) {
                    let j = choose|j: int|
                        from <= j < path.len() && (#[trigger] path[j]).to == cut[k].to;
                    assert(path[k].to == path[j].to);
                }
            }
            assert forall|k: int| 1 <= k < cut.len() implies after.maze.is_open(
                #[trigger] cut[k],
            ) by {
                assert(follows(path, k, w, h));
                cut[k].lemma_slot_in_bounds(w, h);
                assert(s.maze.is_open(path[k]));
                if has_slot(path, from, w, cut[k].spec_normalise(w)) {
                    let j = choose|j: int|
                        from <= j < path.len() && (#[trigger] path[j]).spec_normalise(w)
                            == cut[k].spec_normalise(w);
                    lemma_trail_slots(path, w, h, j, k);
                }
            }
            assert forall|k: int| 0 <= k < cut.len() implies self.index_of((#[trigger] cut[k]).to)
                == Some((k + 1) as usize) && after.is_visited(cut[k].to) by {
                assert(path[k].to == cut[k].to);
                assert(k < before.marked());
            }
            assert(!self.fresh());
            assert forall|n: Node|
                after.maze.contains(n) && (#[trigger] self.index_of(n)) is Some implies 1
                <= self.index_of(n).unwrap() <= cut.len() && cut[self.index_of(n).unwrap()
                - 1].to == n by {
                assert(before.index_of(n) is Some);
                let j = before.index_of(n).unwrap() as int;
                if j > from {
                    assert(path[j - 1].to == n);
                    assert(leads_to(path, from, n));
                }
            }
            assert(self.settled_nodes(after) =~= before.settled_nodes(s));
            assert(without(after.maze, cut, 1).open =~= without(s.maze, path, 1).open) by {
                assert forall|i: int| 0 <= i < s.maze.open.len() implies has_slot(path, 1, w, i)
                    == (has_slot(cut, 1, w, i) || has_slot(path, from, w, i)) by {
                    if has_slot(path, 1, w, i) {
                        let j = choose|j: int|
                            1 <= j < path.len() && (#[trigger] path[j]).spec_normalise(w) == i;
                        if j < from {
                            assert(cut[j].spec_normalise(w) == i);
                        } else {
                            assert(has_slot(path, from, w, i));
                        }
                    }
                    if has_slot(cut, 1, w, i) {
                        let j = choose|j: int|
                            1 <= j < cut.len() && (#[trigger] cut[j]).spec_normalise(w) == i;
                        assert(path[j].spec_normalise(w) == i);
                    }
                    if has_slot(path, from, w, i) {
                        let j = choose|j: int|
                            from <= j < path.len() && (#[trigger] path[j]).spec_normalise(w) == i;
                    }
                }
            }
        }
    }
}

impl Wilson {
    /// Opens the edge to a node of the maze: the walk becomes part of the
    /// maze, and no walk is in progress.
    fn settle(&mut self, state: &mut State, edge: Edge)
        requires
            old(self).inv(old(state)),
            !old(self).fresh(),
            old(self).path().len() > 0,
            edge.in_maze(old(state).maze.width, old(state).maze.height),
            edge.from == old(self).head(),
            old(state)@.is_visited(edge.to),
            old(self).index_of(edge.to) is None,
        ensures
            final(self).inv(final(state)),
            final(self).path() == Seq::<Edge>::empty(),
            final(state)@ == old(state)@.set_edge(edge, true),
    {
        let ghost before = *self;
        let ghost s = state@;
        let ghost w = state.maze.width;
        let ghost h = state.maze.height;
        let ghost path = self.path@;
        proof {
            state.maze.open.lemma_covers(edge, w, h);
        }
        state.maze.open.set(edge, true);
        self.path_indices.fill(None);
        self.path.clear();
        proof {
            let after = state@;
            assert(after == s.set_edge(edge, true));
            let base = without(s.maze, path, 1);
            let members = before.settled_nodes(s);
            let size = s.visited_count - path.len();
            assert(!leads_to(path, 0, edge.to)) by {
                if leads_to(path, 0, edge.to) {
                    let j = choose|j: int| 0 <= j < path.len() && (#[trigger] path[j]).to == edge.to;
                    assert(j < before.marked());
                }
            }
            assert(members.contains(edge.to));
            assert forall|j: int| 0 <= j < path.len() implies !members.contains(
                (#[trigger] path[j]).to,
            ) by {
                assert(leads_to(path, 0, path[j].to));
            }
            lemma_attached(base, members, size, path, edge, 1);
            let grown = attached(base, path, edge, 1);
            edge.lemma_slot_in_bounds(w, h);
            assert(grown.open =~= after.maze.open) by {
                assert forall|i: int| 0 <= i < s.maze.open.len() implies grown.open[i]
                    == after.maze.open[i] by {
                    if has_slot(path, 1, w, i) {
                        let j = choose|j: int|
                            1 <= j < path.len() && (#[trigger] path[j]).spec_normalise(w) == i;
                        assert(s.maze.is_open(path[j]));
                    }
                }
            }
            assert(grown == after.maze);
            assert forall|n: Node| after.maze.contains(n) implies self.index_of(n) is None by {
                n.lemma_slot_in_bounds(w, h);
            }
            assert forall|n: Node| !leads_to(self.path(), 0, n) by {
                if leads_to(self.path(), 0, n) {
                    let j = choose|j: int|
                        0 <= j < self.path().len() && (#[trigger] self.path()[j]).to == n;
                }
            }
            assert(without(after.maze, self.path(), 1).open =~= after.maze.open) by {
                assert forall|i: int| !has_slot(self.path(), 1, w, i) by {
                    if has_slot(self.path(), 1, w, i) {
                        let j = choose|j: int|
                            1 <= j < self.path().len() && (
                            #[trigger] self.path()[j]).spec_normalise(w) == i;
                    }
                }
            }
            assert(self.settled_nodes(after) =~= Set::new(
                |n: Node| members.contains(n) || leads_to(path, 0, n),
            )) by {
                assert forall|n: Node| leads_to(path, 0, n) implies after.maze.contains(n)
                    && after.is_visited(n) by {
                    let j = choose|j: int| 0 <= j < path.len() && (#[trigger] path[j]).to == n;
                    assert(j < before.marked());
                }
            }
        }
    }

    /// Opens the edge to an unvisited node off the walk, and makes it the
    /// last edge of the walk.
    fn extend(&mut self, state: &mut State, edge: Edge)
        requires
            old(self).inv(old(state)),
            !old(self).fresh(),
            old(self).path().len() > 0,
            edge.in_maze(old(state).maze.width, old(state).maze.height),
            edge.from == old(self).head(),
            !old(state)@.is_visited(edge.to),
            old(self).index_of(edge.to) is None,
        ensures
            final(self).inv(final(state)),
            final(self).path() == old(self).path().push(edge),
            final(state)@ == old(state)@.set_edge(edge, true),
    {
        let ghost before = *self;
        let ghost s = state@;
        let ghost w = state.maze.width;
        let ghost h = state.maze.height;
        let ghost path = self.path@;
        proof {
            state.maze.open.lemma_covers(edge, w, h);
        }
        state.maze.open.set(edge, true);
        self.path.push(edge);
        proof {
            let after = state@;
            let longer = self.path();
            let len = path.len() as int;
            assert(after == s.set_edge(edge, true));
            assert(longer =~= path.push(edge));
            edge.lemma_slot_in_bounds(w, h);
            assert(!leads_to(path, 0, edge.to)) by {
                if leads_to(path, 0, edge.to) {
                    let j = choose|j: int| 0 <= j < path.len() && (#[trigger] path[j]).to == edge.to;
                    assert(j < before.marked());
                }
            }
            lemma_off_trail_slot(path, w, h, edge);
            assert(is_trail(longer, w, h)) by {
                assert forall|k: int| 1 <= k < longer.len() implies #[trigger] follows(
                    longer,
                    k,
                    w,
                    h,
                ) by {
                    if k < len {
                        assert(follows(path, k, w, h));
                    }
                }
                assert forall|j: int, k: int|
                    0 <= j < longer.len() && 0 <= k < longer.len() && (#[trigger] longer[j]).to == (
                    #[trigger] longer[k]).to implies j == k by {
                    if j < len && k < len {
                        assert(path[j].to == path[k].to);
                    } else if j < len {
                        assert(path[j].to == edge.to);
                        assert(leads_to(path, 0, edge.to));
                    } else if k < len {
                        assert(path[k].to == edge.to);
                        assert(leads_to(path, 0, edge.to));
                    }
                }
            }
            assert forall|k: int| 1 <= k < longer.len() implies after.maze.is_open(
                #[trigger] longer[k],
            ) by {
                if k < len {
                    assert(follows(path, k, w, h));
                    path[k].lemma_slot_in_bounds(w, h);
                    assert(s.maze.is_open(path[k]));
                }
            }
            assert(self.head() == edge.to);
            assert(self.fresh());
            assert forall|k: int| 0 <= k < self.marked() implies self.index_of(
                (#[trigger] longer[k]).to,
            ) == Some((k + 1) as usize) && after.is_visited(longer[k].to) by {
                assert(longer[k] == path[k]);
                assert(k < before.marked());
            }
            assert forall|n: Node|
                after.maze.contains(n) && (#[trigger] self.index_of(n)) is Some implies 1
                <= self.index_of(n).unwrap() <= longer.len() && longer[self.index_of(n).unwrap()
                - 1].to == n by {
                assert(before.index_of(n) is Some);
            }
            assert(self.settled_nodes(after) =~= before.settled_nodes(s)) by {
                assert forall|n: Node| s.maze.contains(n) && s.is_visited(n) implies leads_to(
                    longer,
                    0,
                    n,
                ) == leads_to(path, 0, n) by {
                    if leads_to(longer, 0, n) {
                        let j = choose|j: int| 0 <= j < longer.len() && (#[trigger] longer[j]).to == n;
                        assert(path[j].to == n);
                    }
                    if leads_to(path, 0, n) {
                        let j = choose|j: int| 0 <= j < path.len() && (#[trigger] path[j]).to == n;
                        assert(longer[j].to == n);
                    }
                }
            }
            let base = without(s.maze, path, 1);
            let slot = edge.spec_normalise(w);
            assert(!s.maze.open[slot]) by {
                if s.maze.open[slot] {
                    assert(base.is_open(edge));
                    base.lemma_open_edge_links(edge);
                    assert(before.settled_nodes(s).contains(edge.to));
                }
            }
            assert(without(after.maze, longer, 1).open =~= base.open) by {
                assert forall|i: int| 0 <= i < s.maze.open.len() implies has_slot(longer, 1, w, i)
                    == (has_slot(path, 1, w, i) || i == slot) by {
                    if has_slot(longer, 1, w, i) {
                        let j = choose|j: int|
                            1 <= j < longer.len() && (#[trigger] longer[j]).spec_normalise(w) == i;
                        if j < len {
                            assert(path[j].spec_normalise(w) == i);
                        }
                    }
                    if has_slot(path, 1, w, i) {
                        let j = choose|j: int|
                            1 <= j < path.len() && (#[trigger] path[j]).spec_normalise(w) == i;
                        assert(longer[j].spec_normalise(w) == i);
                    }
                    if i == slot {
                        assert(longer[len].spec_normalise(w) == i);
                    }
                }
            }
        }
    }

    /// Whether a step may start a walk on `first`: a walk is in progress, or
    /// the node is an unvisited node of the maze.
    pub open spec fn may_begin(s: Snapshot, path: Seq<Edge>, first: Node) -> bool {
        path.len() > 0 || (s.maze.contains(first) && !s.is_visited(first))
    }

    /// The walk in progress, or a new walk that stands on `first`.
    pub open spec fn begun(path: Seq<Edge>, first: Node) -> Seq<Edge> {
        if path.len() > 0 {
            path
        } else {
            seq![Edge { from: first, to: first, direction: Direction::North }]
        }
    }

    /// Takes one step of the walk along the given edge from the head: erases
    /// the loop that the step closes, or adds the walk to the maze where the
    /// step reaches it, or makes the walk longer.
    pub fn advance(&mut self, state: &mut State, edge: Edge)
        requires
            old(self).inv(old(state)),
            old(self).path().len() > 0,
            old(state)@.maze.neighbours(old(self).head()).contains(edge),
        ensures
            final(self).inv(final(state)),
            final(self).path() == Self::path_after(
                old(state)@,
                old(self).path(),
                old(self).index_of(edge.to),
                edge,
            ),
            final(state)@ == Self::moved(
                old(state)@,
                old(self).path(),
                old(self).index_of(edge.to),
                edge,
            ),
            old(self).index_of(edge.to) is Some ==> final(self).path().len() < old(self).path().len(),
    {
        let ghost w = state.maze.width;
        let ghost h = state.maze.height;
        let ghost head = self.head();
        proof {
            state@.maze.lemma_neighbours(head);
        }
        self.mark_head(state);
        let next = edge.to;
        proof {
            self.path_indices.lemma_covers(next, w, h);
        }
        let index = *self.path_indices.get(next);
        assert(index == self.index_of(next));
        match index {
            Some(start) => {
                proof {
                    let len = self.path().len() as int;
                    assert(self.path()[start - 1].to == next);
                    assert(self.path()[len - 1].to == head);
                }
                self.erase(state, start);
            },
            None => {
                if state.is_visited(next) {
                    self.settle(state, edge);
                } else {
                    self.extend(state, edge);
                }
            },
        }
    }
}

impl Wilson {
    /// At every step, the maze built so far, that is the open edges apart
    /// from those of the walk in progress, has no cycle and joins the
    /// visited nodes off the walk to each other; no open edge leads from one
    /// of them to any other node.
    pub proof fn lemma_settled_is_a_tree(&self, state: &State)
        requires
            self.inv(state),
        ensures
            without(state@.maze, self.path(), 1).acyclic(),
            forall|a: Node, b: Node|
                self.settled_nodes(state@).contains(a) && self.settled_nodes(state@).contains(b)
                    ==> #[trigger] without(state@.maze, self.path(), 1).connected(a, b),
            self.path().len() == 0 ==> without(state@.maze, self.path(), 1) == state@.maze,
    {
        if self.path().len() == 0 {
            assert(without(state@.maze, self.path(), 1).open =~= state@.maze.open) by {
                assert forall|i: int| !has_slot(self.path(), 1, state@.maze.width, i) by {
                    if has_slot(self.path(), 1, state@.maze.width, i) {
                        let j = choose|j: int|
                            1 <= j < self.path().len() && (
                            #[trigger] self.path()[j]).spec_normalise(state@.maze.width) == i;
                    }
                }
            }
        }
    }
}

impl Animation for Wilson {
    type Phase = Phase;

    /// A blank state on a maze of two or more nodes.
    open spec fn ready(state: &State) -> bool {
        &&& state.wf()
        &&& state@.is_blank()
        &&& (state.maze.width >= 2 || state.maze.height >= 2)
    }

    /// Apart from the edges of the walk, the open edges form a tree on the
    /// visited nodes off the walk.
    open spec fn inv(&self, state: &State) -> bool {
        &&& state.wf()
        &&& (state.maze.width >= 2 || state.maze.height >= 2)
        &&& self.indices_fit(state.maze.width, state.maze.height)
        &&& self.trail_wf(state@)
        &&& without(state@.maze, self.path(), 1).is_tree_on(
            self.settled_nodes(state@),
            state@.visited_count - self.marked(),
        )
        &&& state@.visited_count - self.marked() >= 1
    }

    proof fn lemma_inv_outlives_ageing(&self, before: &State, after: &State) {
        before@.lemma_aged();
        assert(self.settled_nodes(after@) =~= self.settled_nodes(before@));
        assert forall|k: int| 0 <= k < self.marked() implies self.index_of(
            (#[trigger] self.path()[k]).to,
        ) == Some((k + 1) as usize) && after@.is_visited(self.path()[k].to) by {
            assert(before@.is_visited(self.path()[k].to));
        }
    }

    /// Visits a random node, the seed of the maze.
    fn new(state: &mut State, rng: &mut StdRng) -> (r: Self)
        ensures
            r.path().len() == 0,
            exists|goal: Node|
                old(state).maze.contains(goal) && final(state)@ == old(state)@.visit(goal),
    {
        let goal = state.maze.random_node(rng);
        let ghost s = state@;
        proof {
            s.lemma_blank();
            s.maze.lemma_all_closed();
            s.maze.lemma_connected_reflexive(goal);
            s.lemma_set_age(goal, 0);
        }
        state.visit(goal);
        let r = Wilson { path: Vec::new(), path_indices: NodeBuffer::new(&state.maze) };
        proof {
            let after = state@;
            let w = after.maze.width;
            let h = after.maze.height;
            assert forall|n: Node| after.maze.contains(n) implies r.index_of(n) is None by {
                n.lemma_slot_in_bounds(w, h);
            }
            assert forall|n: Node| !leads_to(r.path(), 0, n) by {
                if leads_to(r.path(), 0, n) {
                    let j = choose|j: int| 0 <= j < r.path().len() && (#[trigger] r.path()[j]).to == n;
                }
            }
            assert(r.settled_nodes(after) =~= set![goal]);
            assert(without(after.maze, r.path(), 1).open =~= s.maze.open) by {
                assert forall|i: int| !has_slot(r.path(), 1, w, i) by {
                    if has_slot(r.path(), 1, w, i) {
                        let j = choose|j: int|
                            1 <= j < r.path().len() && (#[trigger] r.path()[j]).spec_normalise(w)
                                == i;
                    }
                }
            }
        }
        r
    }

    /// What one timestep makes of the algorithm and its state, and the
    /// signal that it gives.
    open spec fn moves(
        &self,
        state: &State,
        after: &Self,
        after_state: &State,
        signal: Signal,
    ) -> bool {
        &&& (signal == Signal::Done <==> self.path().len() == 0 && state@.all_visited())
        &&& (signal == Signal::Done ==> *after_state == *state && after.path().len() == 0)
        &&& (signal == Signal::Continue ==> exists|first: Node, edge: Edge|
                #![auto]
                Self::may_begin(state@, self.path(), first) && state@.maze.neighbours(
                    Self::begun(self.path(), first).last().to,
                ).contains(edge)
                    && after.path() == Self::path_after(
                    state@,
                    Self::begun(self.path(), first),
                    self.index_of(edge.to),
                    edge,
                ) && after_state@ == Self::moved(
                    state@,
                    Self::begun(self.path(), first),
                    self.index_of(edge.to),
                    edge,
                ))
        &&& (signal == Signal::Done ==> after_state@.maze.is_spanning_tree())
    }

    /// Starts a walk on a random unvisited node where none is in progress,
    /// and ends where no node is left for that; then takes one step of the
    /// walk along a random edge.
    fn step(&mut self, state: &mut State, rng: &mut StdRng) -> (r: Signal)
    {
        let ghost first = if self.path@.len() > 0 {
            self.path@[0].to
        } else {
            Node(0, 0)
        };
        if self.path.len() == 0 {
            let current: &State = state;
            let unvisited = |n: Node| -> (b: bool)
                requires
                    current.wf(),
                    current.maze.contains(n),
                ensures
                    b == !current@.is_visited(n),
                { !current.is_visited(n) };
            match state.maze.random_node_where(unvisited, rng) {
                Some(node) => {
                    self.begin(state, node);
                    proof {
                        first = node;
                    }
                },
                None => {
                    proof {
                        let s = state@;
                        assert forall|n: Node| s.maze.contains(n) implies s.is_visited(n) by {
                            assert(state.maze.contains(n));
                        }
                        s.lemma_all_visited();
                        assert forall|n: Node| !leads_to(self.path(), 0, n) by {
                            if leads_to(self.path(), 0, n) {
                                let j = choose|j: int|
                                    0 <= j < self.path().len() && (#[trigger] self.path()[j]).to
                                        == n;
                            }
                        }
                        assert(self.settled_nodes(s) =~= s.visited());
                        assert(without(s.maze, self.path(), 1).open =~= s.maze.open) by {
                            assert forall|i: int| !has_slot(self.path(), 1, s.maze.width, i) by {
                                if has_slot(self.path(), 1, s.maze.width, i) {
                                    let j = choose|j: int|
                                        1 <= j < self.path().len() && (
                                        #[trigger] self.path()[j]).spec_normalise(s.maze.width)
                                            == i;
                                }
                            }
                        }
                        assert(without(s.maze, self.path(), 1) == s.maze);
                        s.maze.lemma_tree_spans(s.visited());
                    }
                    return Signal::Done;
                },
            }
        }
        assert(self.path() == Self::begun(old(self).path(), first));
        assert(Self::may_begin(old(state)@, old(self).path(), first));
        let head = self.path[self.path.len() - 1].to;
        proof {
            state@.maze.lemma_neighbours(head);
            if old(state)@.all_visited() && old(self).path().len() == 0 {
                assert(old(state)@.is_visited(first));
            }
        }
        let edge = state.maze.neighbours(head).pick(rng);
        self.advance(state, edge);
        Signal::Continue
    }

    proof fn lemma_inv_can_be_drawn(&self, state: &State) {
    }

    open spec fn spec_timescale(&self) -> u32 {
        125
    }

    fn timescale(&self) -> (r: u32) {
        125
    }
}

} // verus!
