//! The maze as a graph: which nodes are joined by open edges, walks,
//! connectivity, cycles, and what it means to be a spanning tree.

use vstd::prelude::*;
use crate::maze::lemma_cell_slot;
use crate::maze::lemma_edge_slot_reverse;
use crate::maze::lemma_edge_slots_differ;
use crate::maze::Direction;
use crate::maze::Edge;
use crate::maze::MazeIndex;
use crate::maze::Node;

verus! {

/// The edge itself where there is one, else nothing.
pub open spec fn one_or_none(edge: Option<Edge>) -> Seq<Edge> {
    match edge {
        Some(e) => seq![e],
        None => Seq::<Edge>::empty(),
    }
}

/// What a maze is, apart from how it is stored: its size and the open flag
/// of each edge slot.
pub struct Lattice {
    pub width: usize,
    pub height: usize,
    pub open: Seq<bool>,
}

impl Lattice {
    /// A lattice has at least one node and two slots for each node.
    pub open spec fn wf(self) -> bool {
        &&& self.width >= 1
        &&& self.height >= 1
        &&& self.width * self.height <= usize::MAX
        &&& 2 * self.width * self.height <= usize::MAX
        &&& self.open.len() == 2 * self.width * self.height
    }

    /// Whether the node lies within the lattice.
    pub open spec fn contains(self, node: Node) -> bool {
        node.in_maze(self.width, self.height)
    }

    /// The edge from a node to its neighbour in a direction, if that
    /// neighbour lies within the lattice.
    pub open spec fn edge(self, node: Node, direction: Direction) -> Option<Edge> {
        let (x, y) = node.toward(direction);
        if 0 <= x < self.width && 0 <= y < self.height {
            Some(Edge { from: node, to: Node(x as usize, y as usize), direction })
        } else {
            None
        }
    }

    /// The slot that holds the flag of an edge.
    pub open spec fn slot(self, edge: Edge) -> int {
        edge.spec_normalise(self.width)
    }

    /// Whether the edge's flag is set.
    pub open spec fn is_open(self, edge: Edge) -> bool {
        self.open[self.slot(edge)]
    }

    /// The edge from a node in a direction, where it exists and is open.
    pub open spec fn open_edge(self, node: Node, direction: Direction) -> Option<Edge> {
        match self.edge(node, direction) {
            Some(e) => if self.is_open(e) {
                Some(e)
            } else {
                None
            },
            None => None,
        }
    }

    /// The lattice with the flag of one edge set.
    pub open spec fn set_open(self, edge: Edge, value: bool) -> Lattice {
        Lattice { open: self.open.update(self.slot(edge), value), ..self }
    }

    /// Whether `b` is a neighbour of `a` behind an open edge.
    pub open spec fn linked(self, a: Node, b: Node) -> bool {
        &&& self.contains(a)
        &&& exists|d: Direction| (#[trigger] self.open_edge(a, d)) matches Some(e) && e.to == b
    }

    /// Whether the node at a position of `p` is linked to the next.
    pub open spec fn steps_at(self, p: Seq<Node>, i: int) -> bool {
        self.linked(p[i], p[i + 1])
    }

    /// Whether the nodes of `p`, in order, are each joined to the next by an
    /// open edge.
    pub open spec fn is_walk(self, p: Seq<Node>) -> bool {
        &&& p.len() >= 1
        &&& self.contains(p[0])
        &&& forall|i: int| 0 <= i < p.len() - 1 ==> #[trigger] self.steps_at(p, i)
    }

    /// Whether open edges lead from `a` to `b`.
    pub open spec fn connected(self, a: Node, b: Node) -> bool {
        exists|p: Seq<Node>| #[trigger] self.is_walk(p) && p[0] == a && p[p.len() - 1] == b
    }

    /// Whether `p` is a closed walk of three or more nodes that visits no
    /// node twice.
    pub open spec fn is_cycle(self, p: Seq<Node>) -> bool {
        &&& p.len() >= 3
        &&& p.no_duplicates()
        &&& self.is_walk(p)
        &&& self.linked(p[p.len() - 1], p[0])
    }

    /// Whether the open edges form no cycle.
    pub open spec fn acyclic(self) -> bool {
        forall|p: Seq<Node>| !#[trigger] self.is_cycle(p)
    }

    /// The node that owns a slot.
    pub open spec fn owner_of(self, slot: int) -> Node {
        Node(((slot / 2) % (self.width as int)) as usize, ((slot / 2) / (self.width as int)) as usize)
    }

    /// The edge whose flag a slot holds; a slot on the south or east border
    /// holds none.
    pub open spec fn slot_edge(self, slot: int) -> Option<Edge> {
        if slot % 2 == 0 {
            self.edge(self.owner_of(slot), Direction::South)
        } else {
            self.edge(self.owner_of(slot), Direction::East)
        }
    }

    /// The number of open edges among the first `count` slots.
    pub open spec fn open_below(self, count: int) -> int
        decreases count,
    {
        if count <= 0 {
            0
        } else {
            self.open_below(count - 1) + if self.slot_edge(count - 1) is Some && self.open[count
                - 1] {
                1int
            } else {
                0int
            }
        }
    }

    /// The number of open edges.
    pub open spec fn open_count(self) -> int {
        self.open_below(self.open.len() as int)
    }

    /// Whether the open edges join every node to every other, form no cycle,
    /// and number one less than the nodes.
    pub open spec fn is_spanning_tree(self) -> bool {
        &&& forall|a: Node, b: Node|
            self.contains(a) && self.contains(b) ==> #[trigger] self.connected(a, b)
        &&& self.acyclic()
        &&& self.open_count() == self.width * self.height - 1
    }

    /// Whether the open edges join the nodes of `members` to each other,
    /// form no cycle, leave every other node without an open edge, and
    /// number one less than `size`.
    pub open spec fn is_tree_on(self, members: Set<Node>, size: int) -> bool {
        &&& self.wf()
        &&& self.acyclic()
        &&& forall|a: Node| #[trigger] members.contains(a) ==> self.contains(a)
        &&& forall|a: Node, b: Node|
            members.contains(a) && members.contains(b) ==> #[trigger] self.connected(a, b)
        &&& forall|a: Node, b: Node| #[trigger]
            self.linked(a, b) ==> members.contains(a) && members.contains(b)
        &&& self.open_count() == size - 1
    }

    /// The edges from a node to its neighbours within the maze, clockwise
    /// from north.
    pub open spec fn neighbours(self, node: Node) -> Seq<Edge> {
        one_or_none(self.edge(node, Direction::North)) + one_or_none(
            self.edge(node, Direction::East),
        ) + one_or_none(self.edge(node, Direction::South)) + one_or_none(
            self.edge(node, Direction::West),
        )
    }

    /// The open edges from a node to its neighbours, clockwise from north.
    pub open spec fn open_neighbours(self, node: Node) -> Seq<Edge> {
        one_or_none(self.open_edge(node, Direction::North)) + one_or_none(
            self.open_edge(node, Direction::East),
        ) + one_or_none(self.open_edge(node, Direction::South)) + one_or_none(
            self.open_edge(node, Direction::West),
        )
    }

    /// Every neighbour edge of a node of the maze is an edge of the maze that
    /// starts at the node, and every edge of the maze that starts at the node
    /// is among them. A maze of two or more nodes leaves no node without one.
    pub proof fn lemma_neighbours(self, node: Node)
        requires
            self.contains(node),
        ensures
            forall|i: int|
                0 <= i < self.neighbours(node).len() ==> {
                    let e = #[trigger] self.neighbours(node)[i];
                    e.from == node && e.in_maze(self.width, self.height) && self.edge(
                        node,
                        e.direction,
                    ) == Some(e)
                },
            forall|d: Direction|
                self.edge(node, d) is Some ==> self.neighbours(node).contains(
                    #[trigger] self.edge(node, d).unwrap(),
                ),
            self.neighbours(node).len() <= 4,
            self.width >= 2 || self.height >= 2 ==> self.neighbours(node).len() >= 1,
    {
        let s = self.neighbours(node);
        let n = one_or_none(self.edge(node, Direction::North));
        let e = one_or_none(self.edge(node, Direction::East));
        let so = one_or_none(self.edge(node, Direction::South));
        let w = one_or_none(self.edge(node, Direction::West));
        assert forall|d: Direction| self.edge(node, d) is Some implies s.contains(
            #[trigger] self.edge(node, d).unwrap(),
        ) by {
            let x = self.edge(node, d).unwrap();
            match d {
                Direction::North => {
                    assert(s[0] == x);
                },
                Direction::East => {
                    assert(s[n.len() as int] == x);
                },
                Direction::South => {
                    assert(s[(n.len() + e.len()) as int] == x);
                },
                Direction::West => {
                    assert(s[(n.len() + e.len() + so.len()) as int] == x);
                },
            }
        }
    }

    /// Every open neighbour edge is a neighbour edge that is open, and every
    /// open edge of the maze that starts at the node is among them.
    pub proof fn lemma_open_neighbours(self, node: Node)
        requires
            self.contains(node),
        ensures
            forall|i: int|
                0 <= i < self.open_neighbours(node).len() ==> {
                    let e = #[trigger] self.open_neighbours(node)[i];
                    e.from == node && e.in_maze(self.width, self.height) && self.edge(
                        node,
                        e.direction,
                    ) == Some(e) && self.is_open(e)
                },
            forall|d: Direction|
                self.open_edge(node, d) is Some ==> self.open_neighbours(node).contains(
                    #[trigger] self.open_edge(node, d).unwrap(),
                ),
            self.open_neighbours(node).len() <= 4,
            forall|i: int, j: int|
                0 <= i < j < self.open_neighbours(node).len() ==> (
                #[trigger] self.open_neighbours(node)[i]).to != (
                #[trigger] self.open_neighbours(node)[j]).to,
    {
        let s = self.open_neighbours(node);
        let n = one_or_none(self.open_edge(node, Direction::North));
        let e = one_or_none(self.open_edge(node, Direction::East));
        let so = one_or_none(self.open_edge(node, Direction::South));
        let w = one_or_none(self.open_edge(node, Direction::West));
        assert forall|d: Direction| self.open_edge(node, d) is Some implies s.contains(
            #[trigger] self.open_edge(node, d).unwrap(),
        ) by {
            let x = self.open_edge(node, d).unwrap();
            match d {
                Direction::North => {
                    assert(s[0] == x);
                },
                Direction::East => {
                    assert(s[n.len() as int] == x);
                },
                Direction::South => {
                    assert(s[(n.len() + e.len()) as int] == x);
                },
                Direction::West => {
                    assert(s[(n.len() + e.len() + so.len()) as int] == x);
                },
            }
        }
    }

    /// An edge that the lattice yields starts at the node asked for, points
    /// the way asked for, and is an edge of the lattice.
    pub proof fn lemma_edge(self, node: Node, direction: Direction)
        requires
            self.contains(node),
            self.edge(node, direction) is Some,
        ensures
            self.edge(node, direction).unwrap().in_maze(self.width, self.height),
            self.edge(node, direction).unwrap().from == node,
            self.edge(node, direction).unwrap().to != node,
            self.edge(node, direction).unwrap().direction == direction,
    {
    }

    /// An edge of the lattice is the one that the lattice yields from its
    /// start in its direction, and its slot lies within the flags.
    pub proof fn lemma_edge_of(self, e: Edge)
        requires
            self.wf(),
            e.in_maze(self.width, self.height),
        ensures
            self.edge(e.from, e.direction) == Some(e),
            0 <= self.slot(e) < self.open.len(),
            self.slot_edge(self.slot(e)) is Some,
    {
        e.lemma_slot_in_bounds(self.width, self.height);
        let (x, y) = e.owner();
        lemma_cell_slot(x, y, self.width as int, self.height as int);
        let s = self.slot(e);
        assert(s / 2 == x + y * self.width);
        assert(s % 2 == e.orientation());
        assert(self.owner_of(s) == Node(x as usize, y as usize));
    }

    /// Whether an edge of the lattice joins the two nodes, in either order.
    pub open spec fn joins(e: Edge, a: Node, b: Node) -> bool {
        (e.from == a && e.to == b) || (e.from == b && e.to == a)
    }

    /// Setting the flag of one edge changes whether its two ends are linked,
    /// and nothing else.
    pub proof fn lemma_linked_after_set(self, e: Edge, value: bool, a: Node, b: Node)
        requires
            self.wf(),
            e.in_maze(self.width, self.height),
        ensures
            self.set_open(e, value).linked(a, b) == (if Self::joins(e, a, b) {
                value
            } else {
                self.linked(a, b)
            }),
    {
        let l2 = self.set_open(e, value);
        self.lemma_edge_of(e);
        lemma_edge_slot_reverse(e, self.width, self.height);
        self.lemma_edge_of(e.reverse());
        if l2.linked(a, b) {
            let d = choose|d: Direction| (#[trigger] l2.open_edge(a, d)) matches Some(f) && f.to == b;
            let f = l2.open_edge(a, d).unwrap();
            assert(l2.edge(a, d) == self.edge(a, d));
            self.lemma_edge(a, d);
            lemma_edge_slots_differ(e, f, self.width, self.height);
            self.lemma_edge_of(f);
            if !Self::joins(e, a, b) {
                assert(self.open_edge(a, d) == Some(f));
            }
        }
        if Self::joins(e, a, b) && value {
            let f = if e.from == a {
                e
            } else {
                e.reverse()
            };
            assert(l2.open_edge(a, f.direction) == Some(f));
        }
        if !Self::joins(e, a, b) && self.linked(a, b) {
            let d = choose|d: Direction|
                (#[trigger] self.open_edge(a, d)) matches Some(f) && f.to == b;
            let f = self.open_edge(a, d).unwrap();
            self.lemma_edge(a, d);
            lemma_edge_slots_differ(e, f, self.width, self.height);
            self.lemma_edge_of(f);
            assert(l2.open_edge(a, d) == Some(f));
        }
    }

    /// The end of an open edge is linked to its start.
    pub proof fn lemma_open_edge_links(self, e: Edge)
        requires
            self.wf(),
            e.in_maze(self.width, self.height),
            self.is_open(e),
        ensures
            self.linked(e.from, e.to),
            self.linked(e.to, e.from),
    {
        self.lemma_edge_of(e);
        assert(self.open_edge(e.from, e.direction) == Some(e));
        lemma_edge_slot_reverse(e, self.width, self.height);
        self.lemma_edge_of(e.reverse());
        assert(self.open_edge(e.to, e.reverse().direction) == Some(e.reverse()));
    }

    /// Linked nodes are neighbours in the lattice, joined by an open edge.
    pub proof fn lemma_linked_edge(self, a: Node, b: Node) -> (e: Edge)
        requires
            self.linked(a, b),
        ensures
            e.in_maze(self.width, self.height),
            e.from == a,
            e.to == b,
            self.is_open(e),
            self.contains(b),
            a != b,
    {
        let d = choose|d: Direction| (#[trigger] self.open_edge(a, d)) matches Some(f) && f.to == b;
        self.lemma_edge(a, d);
        self.open_edge(a, d).unwrap()
    }

    /// Being linked goes both ways.
    pub proof fn lemma_linked_symmetric(self, a: Node, b: Node)
        requires
            self.wf(),
            self.linked(a, b),
        ensures
            self.linked(b, a),
    {
        let e = self.lemma_linked_edge(a, b);
        self.lemma_open_edge_links(e);
    }

    /// Every node of a walk lies within the lattice.
    pub proof fn lemma_walk_contained(self, p: Seq<Node>, i: int)
        requires
            self.is_walk(p),
            0 <= i < p.len(),
        ensures
            self.contains(p[i]),
        decreases i,
    {
        if i > 0 {
            self.lemma_walk_contained(p, i - 1);
            assert(self.steps_at(p, i - 1));
            let e = self.lemma_linked_edge(p[i - 1], p[i]);
        }
    }

    /// Every node of the lattice is connected to itself.
    pub proof fn lemma_connected_reflexive(self, a: Node)
        requires
            self.contains(a),
        ensures
            self.connected(a, a),
    {
        let p = seq![a];
        assert(self.is_walk(p));
        assert(p[0] == a && p[p.len() - 1] == a);
    }

    /// Linked nodes are connected.
    pub proof fn lemma_linked_connected(self, a: Node, b: Node)
        requires
            self.linked(a, b),
        ensures
            self.connected(a, b),
    {
        let p = seq![a, b];
        assert(self.is_walk(p));
        assert(p[0] == a && p[p.len() - 1] == b);
    }

    /// Being connected goes both ways.
    pub proof fn lemma_connected_symmetric(self, a: Node, b: Node)
        requires
            self.wf(),
            self.connected(a, b),
        ensures
            self.connected(b, a),
    {
        let p = choose|p: Seq<Node>| #[trigger] self.is_walk(p) && p[0] == a && p[p.len() - 1] == b;
        let q = p.reverse();
        self.lemma_walk_contained(p, p.len() - 1);
        assert forall|i: int| 0 <= i < q.len() - 1 implies #[trigger] self.steps_at(q, i) by {
            let j = p.len() - 2 - i;
            assert(self.steps_at(p, j));
            self.lemma_linked_symmetric(p[j], p[j + 1]);
        }
        assert(self.is_walk(q));
        assert(q[0] == b && q[q.len() - 1] == a);
    }

    /// Nodes connected through a third are connected.
    pub proof fn lemma_connected_transitive(self, a: Node, b: Node, c: Node)
        requires
            self.connected(a, b),
            self.connected(b, c),
        ensures
            self.connected(a, c),
    {
        let p = choose|p: Seq<Node>| #[trigger] self.is_walk(p) && p[0] == a && p[p.len() - 1] == b;
        let q = choose|q: Seq<Node>| #[trigger] self.is_walk(q) && q[0] == b && q[q.len() - 1] == c;
        let r = p + q.drop_first();
        assert forall|i: int| 0 <= i < r.len() - 1 implies #[trigger] self.steps_at(r, i) by {
            if i < p.len() - 1 {
                assert(self.steps_at(p, i));
            } else {
                let j = i - p.len() + 1;
                assert(self.steps_at(q, j));
            }
        }
        assert(self.is_walk(r));
        assert(r[0] == a && r[r.len() - 1] == c);
    }

    /// A node that is connected to another has an open edge.
    pub proof fn lemma_connected_has_open_edge(self, a: Node, b: Node)
        requires
            self.connected(a, b),
            a != b,
        ensures
            self.open_neighbours(a).len() >= 1,
            exists|d: Direction| (#[trigger] self.open_edge(a, d)) is Some,
    {
        let p = choose|p: Seq<Node>| #[trigger] self.is_walk(p) && p[0] == a && p[p.len() - 1] == b;
        assert(self.steps_at(p, 0));
        let d = choose|d: Direction| (#[trigger] self.open_edge(a, d)) matches Some(e) && e.to == p[1];
        self.lemma_open_neighbours(a);
        assert(self.open_neighbours(a).contains(self.open_edge(a, d).unwrap()));
    }

    /// A stretch of a sequence whose nodes are each linked to the next
    /// connects its first node to its last.
    pub proof fn lemma_stretch_connected(self, p: Seq<Node>, from: int, to: int)
        requires
            0 <= from <= to < p.len(),
            self.contains(p[from]),
            forall|i: int| from <= i < to ==> #[trigger] self.steps_at(p, i),
        ensures
            self.connected(p[from], p[to]),
    {
        let q = p.subrange(from, to + 1);
        assert forall|i: int| 0 <= i < q.len() - 1 implies #[trigger] self.steps_at(q, i) by {
            assert(self.steps_at(p, from + i));
        }
        assert(self.is_walk(q));
        assert(q[0] == p[from] && q[q.len() - 1] == p[to]);
    }

    /// A walk that starts inside a set of nodes which no link leaves stays
    /// inside it, and is a walk of any lattice that has those links too.
    pub proof fn lemma_walk_carries_over(self, other: Lattice, inside: Set<Node>, p: Seq<Node>)
        requires
            self.is_walk(p),
            inside.contains(p[0]),
            other.width == self.width,
            other.height == self.height,
            forall|a: Node, b: Node|
                inside.contains(a) && #[trigger] self.linked(a, b) ==> inside.contains(b)
                    && other.linked(a, b),
        ensures
            other.is_walk(p),
            forall|i: int| 0 <= i < p.len() ==> inside.contains(#[trigger] p[i]),
    {
        assert forall|i: int| 0 <= i < p.len() implies inside.contains(#[trigger] p[i]) by {
            self.lemma_walk_stays(inside, p, i);
        }
        assert forall|i: int| 0 <= i < p.len() - 1 implies #[trigger] other.steps_at(p, i) by {
            assert(inside.contains(p[i]));
            assert(self.steps_at(p, i));
        }
    }

    /// A walk that starts inside a set of nodes which no link leaves stays
    /// inside it.
    pub proof fn lemma_walk_stays(self, inside: Set<Node>, p: Seq<Node>, i: int)
        requires
            self.is_walk(p),
            inside.contains(p[0]),
            0 <= i < p.len(),
            forall|a: Node, b: Node|
                inside.contains(a) && #[trigger] self.linked(a, b) ==> inside.contains(b),
        ensures
            inside.contains(p[i]),
        decreases i,
    {
        if i > 0 {
            self.lemma_walk_stays(inside, p, i - 1);
            assert(self.steps_at(p, i - 1));
        }
    }

    /// Nodes connected in a lattice are connected in any lattice that has
    /// all its links.
    pub proof fn lemma_connected_carries_over(self, other: Lattice, a: Node, b: Node)
        requires
            self.connected(a, b),
            other.width == self.width,
            other.height == self.height,
            forall|x: Node, y: Node| #[trigger] self.linked(x, y) ==> other.linked(x, y),
        ensures
            other.connected(a, b),
    {
        let p = choose|p: Seq<Node>| #[trigger] self.is_walk(p) && p[0] == a && p[p.len() - 1] == b;
        self.lemma_walk_carries_over(other, Set::new(|n: Node| true), p);
    }

    /// Opening an edge between two nodes that were not connected makes no
    /// cycle.
    pub proof fn lemma_bridge_acyclic(self, e: Edge)
        requires
            self.wf(),
            self.acyclic(),
            e.in_maze(self.width, self.height),
            !self.connected(e.from, e.to),
        ensures
            self.set_open(e, true).acyclic(),
    {
        let l2 = self.set_open(e, true);
        assert forall|c: Seq<Node>| !#[trigger] l2.is_cycle(c) by {
            if l2.is_cycle(c) {
                let k = c.len() as int;
                assert forall|i: int| 0 <= i < k implies self.contains(#[trigger] c[i]) by {
                    l2.lemma_walk_contained(c, i);
                }
                assert forall|i: int| 0 <= i < k - 1 implies (#[trigger] self.steps_at(c, i)
                    || Self::joins(e, c[i], c[i + 1])) by {
                    assert(l2.steps_at(c, i));
                    self.lemma_linked_after_set(e, true, c[i], c[i + 1]);
                }
                self.lemma_linked_after_set(e, true, c[k - 1], c[0]);
                if forall|i: int| 0 <= i < k - 1 ==> #[trigger] self.steps_at(c, i) {
                    if self.linked(c[k - 1], c[0]) {
                        assert(self.is_cycle(c));
                    } else {
                        self.lemma_stretch_connected(c, 0, k - 1);
                        if e.from == c[k - 1] {
                            self.lemma_connected_symmetric(c[0], c[k - 1]);
                        }
                    }
                } else {
                    let i = choose|i: int| 0 <= i < k - 1 && !#[trigger] self.steps_at(c, i);
                    assert(Self::joins(e, c[i], c[i + 1]));
                    assert forall|j: int| 0 <= j < k - 1 && j != i implies #[trigger] self.steps_at(c, j) by {
                        if Self::joins(e, c[j], c[j + 1]) {
                            assert(c[j] == c[i] || c[j] == c[i + 1]);
                            assert(c[j + 1] == c[i] || c[j + 1] == c[i + 1]);
                        }
                    }
                    assert(self.linked(c[k - 1], c[0])) by {
                        if Self::joins(e, c[k - 1], c[0]) {
                            assert(c[0] == c[i] || c[0] == c[i + 1]);
                            assert(c[k - 1] == c[i] || c[k - 1] == c[i + 1]);
                        }
                    }
                    self.lemma_stretch_connected(c, i + 1, k - 1);
                    self.lemma_linked_connected(c[k - 1], c[0]);
                    self.lemma_stretch_connected(c, 0, i);
                    self.lemma_connected_transitive(c[i + 1], c[k - 1], c[0]);
                    self.lemma_connected_transitive(c[i + 1], c[0], c[i]);
                    if e.from == c[i] {
                        self.lemma_connected_symmetric(c[i + 1], c[i]);
                    }
                }
            }
        }
    }

    /// A lattice with no open edge has no links, no cycle and an open count
    /// of zero.
    pub proof fn lemma_all_closed(self)
        requires
            self.wf(),
            forall|i: int| 0 <= i < self.open.len() ==> !#[trigger] self.open[i],
        ensures
            forall|a: Node, b: Node| !#[trigger] self.linked(a, b),
            self.acyclic(),
            self.open_count() == 0,
    {
        assert forall|a: Node, b: Node| !#[trigger] self.linked(a, b) by {
            if self.linked(a, b) {
                let e = self.lemma_linked_edge(a, b);
                self.lemma_edge_of(e);
            }
        }
        assert forall|p: Seq<Node>| !#[trigger] self.is_cycle(p) by {
            if self.is_cycle(p) {
                assert(self.steps_at(p, 0));
            }
        }
        self.lemma_none_open_below(self.open.len() as int);
    }

    proof fn lemma_none_open_below(self, count: int)
        requires
            0 <= count <= self.open.len(),
            forall|i: int| 0 <= i < self.open.len() ==> !#[trigger] self.open[i],
        ensures
            self.open_below(count) == 0,
        decreases count,
    {
        if count > 0 {
            self.lemma_none_open_below(count - 1);
        }
    }

    /// Changing the flag of one slot changes the count of open edges below
    /// a bound by at most one, and only where the slot holds an edge.
    pub proof fn lemma_open_below_update(self, slot: int, value: bool, count: int)
        requires
            0 <= slot < self.open.len(),
            0 <= count <= self.open.len(),
        ensures
            (Lattice { open: self.open.update(slot, value), ..self }).open_below(count)
                == self.open_below(count) + if slot < count && self.slot_edge(slot) is Some {
                (if value {
                    1int
                } else {
                    0int
                }) - (if self.open[slot] {
                    1int
                } else {
                    0int
                })
            } else {
                0int
            },
        decreases count,
    {
        let l2 = Lattice { open: self.open.update(slot, value), ..self };
        if count > 0 {
            self.lemma_open_below_update(slot, value, count - 1);
            assert(l2.slot_edge(count - 1) == self.slot_edge(count - 1));
        }
    }

    /// Setting the flag of an edge of the lattice changes the open count by
    /// the change of that flag.
    pub proof fn lemma_open_count_set(self, e: Edge, value: bool)
        requires
            self.wf(),
            e.in_maze(self.width, self.height),
        ensures
            self.set_open(e, value).wf(),
            self.set_open(e, value).open_count() == self.open_count() + (if value {
                1int
            } else {
                0int
            }) - (if self.is_open(e) {
                1int
            } else {
                0int
            }),
    {
        self.lemma_edge_of(e);
        self.lemma_open_below_update(self.slot(e), value, self.open.len() as int);
    }

    /// A set of nodes that holds one node of the lattice, and with each of
    /// its nodes the neighbours of that node, holds every node of the
    /// lattice.
    pub proof fn lemma_closed_set_is_all(self, inside: Set<Node>, seed: Node, target: Node)
        requires
            self.contains(seed),
            self.contains(target),
            inside.contains(seed),
            forall|n: Node, d: Direction|
                inside.contains(n) && self.contains(n) && (#[trigger] self.edge(n, d)) is Some
                    ==> inside.contains(self.edge(n, d).unwrap().to),
        ensures
            inside.contains(target),
        decreases target.spec_manhattan(seed),
    {
        if target != seed {
            let (near, d) = if target.0 > seed.0 {
                (Node((target.0 - 1) as usize, target.1), Direction::East)
            } else if target.0 < seed.0 {
                (Node((target.0 + 1) as usize, target.1), Direction::West)
            } else if target.1 > seed.1 {
                (Node(target.0, (target.1 - 1) as usize), Direction::South)
            } else {
                (Node(target.0, (target.1 + 1) as usize), Direction::North)
            };
            self.lemma_closed_set_is_all(inside, seed, near);
            assert(self.edge(near, d).unwrap().to == target);
        }
    }

    /// Opening an edge from a node of a tree to a node outside it gives a
    /// tree on one node more, with one edge more.
    pub proof fn lemma_tree_grows(self, members: Set<Node>, size: int, e: Edge)
        requires
            self.is_tree_on(members, size),
            e.in_maze(self.width, self.height),
            members.contains(e.from),
            !members.contains(e.to),
        ensures
            self.set_open(e, true).is_tree_on(members.insert(e.to), size + 1),
    {
        let l2 = self.set_open(e, true);
        let grown = members.insert(e.to);
        assert(!self.connected(e.from, e.to)) by {
            if self.connected(e.from, e.to) {
                let p = choose|p: Seq<Node>| #[trigger]
                    self.is_walk(p) && p[0] == e.from && p[p.len() - 1] == e.to;
                self.lemma_walk_stays(members, p, p.len() - 1);
            }
        }
        self.lemma_bridge_acyclic(e);
        assert(!self.is_open(e)) by {
            if self.is_open(e) {
                self.lemma_open_edge_links(e);
            }
        }
        self.lemma_open_count_set(e, true);
        assert forall|a: Node, b: Node| #[trigger] l2.linked(a, b) implies grown.contains(a)
            && grown.contains(b) by {
            self.lemma_linked_after_set(e, true, a, b);
        }
        assert forall|a: Node, b: Node| #[trigger] self.linked(a, b) implies l2.linked(a, b) by {
            self.lemma_linked_after_set(e, true, a, b);
        }
        self.lemma_linked_after_set(e, true, e.from, e.to);
        self.lemma_linked_after_set(e, true, e.to, e.from);
        l2.lemma_linked_connected(e.from, e.to);
        l2.lemma_linked_connected(e.to, e.from);
        l2.lemma_connected_reflexive(e.to);
        assert forall|a: Node, b: Node| grown.contains(a) && grown.contains(b) implies #[trigger]
            l2.connected(a, b) by {
            if a == e.to && b == e.to {
            } else if a == e.to {
                self.lemma_connected_carries_over(l2, e.from, b);
                l2.lemma_connected_transitive(e.to, e.from, b);
            } else if b == e.to {
                self.lemma_connected_carries_over(l2, a, e.from);
                l2.lemma_connected_transitive(a, e.from, e.to);
            } else {
                self.lemma_connected_carries_over(l2, a, b);
            }
        }
    }

    /// A tree on all the nodes of the lattice is a spanning tree.
    pub proof fn lemma_tree_spans(self, members: Set<Node>)
        requires
            self.is_tree_on(members, self.width * self.height),
            forall|a: Node| self.contains(a) ==> members.contains(a),
        ensures
            self.is_spanning_tree(),
    {
    }
}

} // verus!
