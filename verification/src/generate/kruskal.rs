//! Kruskal: takes the edges in random order and opens each that joins two
//! trees, keeping the trees apart with a union-find structure.

use vstd::prelude::*;
use rand::rngs::StdRng;
use crate::counting::count_true;
use crate::counting::lemma_count_true_single;
use crate::counting::lemma_count_true_uniform;
use crate::counting::lemma_count_true_update;
use crate::lattice::Lattice;
use crate::maze::lemma_edges_below_complete;
use crate::maze::lemma_edges_below_in_maze;
use crate::maze::lemma_cell_slot;
use crate::maze::lemma_edge_slot_reverse;
use crate::maze::lemma_node_slots_differ;
use crate::maze::lemma_slot_cell;
use crate::maze::node_at;
use crate::maze::Direction;
use crate::maze::Edge;
use crate::maze::Maze;
use crate::maze::MazeIndex;
use crate::maze::Node;
use crate::maze::NodeBuffer;
use crate::random::shuffle_edges;
use crate::state::Snapshot;
use crate::Animation;
use crate::Signal;
use super::Phase;
use super::State;

verus! {

/// Iteratively adjoins trees of nodes, with each node initially being given its own tree, until all nodes
/// belong to the same tree.
pub struct Kruskal {
    /// A queue of all edges in a random order.
    queue: Vec<Edge>,
    /// Stores the parent of each node. This is used to compute root nodes (nodes that are their own parents)
    /// which serves as set identifiers.
    parents: NodeBuffer<Node>,
    /// The root that the parents of each node lead to.
    roots: Ghost<Seq<Node>>,
    /// For each node, a number that is less for its parent and for its root.
    depths: Ghost<Seq<nat>>,
}

/// For each slot, whether its node is the given root of that slot.
pub open spec fn is_root_flags(roots: Seq<Node>, width: usize) -> Seq<bool> {
    Seq::new(roots.len(), |i: int| roots[i] == node_at(i, width))
}

impl Kruskal {
    /// The edges still to be tried, the next one last.
    pub closed spec fn queue(&self) -> Seq<Edge> {
        self.queue@
    }

    /// The parent of a node.
    pub closed spec fn parent_of(&self, node: Node) -> Node {
        self.parents.at(node)
    }

    /// The root of the tree that a node belongs to.
    pub closed spec fn root_of(&self, node: Node) -> Node {
        self.roots@[node.spec_normalise(self.parents.spec_width())]
    }

    /// A number that is less for the parent and for the root of a node than
    /// for the node itself.
    pub closed spec fn depth_of(&self, node: Node) -> nat {
        self.depths@[node.spec_normalise(self.parents.spec_width())]
    }

    /// The number of trees.
    pub closed spec fn tree_count(&self) -> int {
        count_true(is_root_flags(self.roots@, self.parents.spec_width()), self.roots@.len() as int)
    }

    /// Whether the edge would be thrown away: its ends are in one tree.
    pub open spec fn rejects(&self, edge: Edge) -> bool {
        self.root_of(edge.from) == self.root_of(edge.to)
    }

    /// The parents lead every node of a maze of the given size to its root.
    pub closed spec fn forest_wf(&self, width: usize, height: usize) -> bool {
        &&& width >= 1
        &&& width * height <= usize::MAX
        &&& self.parents.fits(width, height)
        &&& self.roots@.len() == width * height
        &&& self.depths@.len() == width * height
        &&& forall|n: Node|
            n.in_maze(width, height) ==> {
                &&& (#[trigger] self.parent_of(n)).in_maze(width, height)
                &&& self.root_of(self.parent_of(n)) == self.root_of(n)
                &&& (self.parent_of(n) == n ==> self.root_of(n) == n)
                &&& (self.parent_of(n) != n ==> self.depth_of(self.parent_of(n)) < self.depth_of(n))
            }
        &&& forall|n: Node|
            n.in_maze(width, height) ==> {
                &&& (#[trigger] self.root_of(n)).in_maze(width, height)
                &&& self.parent_of(self.root_of(n)) == self.root_of(n)
                &&& (self.root_of(n) != n ==> self.depth_of(self.root_of(n)) < self.depth_of(n))
            }
    }

    /// The root of a node lies within the maze and is its own root.
    pub proof fn lemma_root_idempotent(&self, width: usize, height: usize, node: Node)
        requires
            self.forest_wf(width, height),
            node.in_maze(width, height),
        ensures
            self.root_of(node).in_maze(width, height),
            self.root_of(self.root_of(node)) == self.root_of(node),
    {
        let root = self.root_of(node);
        assert(self.parent_of(root) == root);
    }

    /// Finds the root of a node, and sets it as the direct parent of the node and all nodes inbetween for
    /// quick future lookup.
    pub fn find_root(&mut self, maze: &Maze, node: Node) -> (root: Node)
        requires
            old(self).forest_wf(maze.width, maze.height),
            maze.contains(node),
        ensures
            final(self).forest_wf(maze.width, maze.height),
            root == old(self).root_of(node),
            maze.contains(root),
            final(self).root_of(root) == root,
            forall|n: Node| maze.contains(n) ==> final(self).root_of(n) == old(self).root_of(n),
            final(self).queue() == old(self).queue(),
            final(self).tree_count() == old(self).tree_count(),
        decreases old(self).depth_of(node),
    {
        proof {
            self.parents.lemma_covers(node, maze.width, maze.height);
            self.lemma_root_idempotent(maze.width, maze.height, node);
        }
        let parent = *self.parents.get(node);
        assert(parent == self.parent_of(node));
        if node == parent {
            node
        } else {
            let root = self.find_root(maze, parent);
            let ghost mid = *self;
            proof {
                self.parents.lemma_covers(node, maze.width, maze.height);
            }
            self.parents.set(node, root);
            proof {
                let w = maze.width;
                let h = maze.height;
                assert(self.roots@ == mid.roots@);
                assert(self.depths@ == mid.depths@);
                assert(mid.root_of(node) == root);
                assert(mid.parent_of(root) == root);
                assert(mid.parent_of(node) != node ==> mid.depth_of(mid.parent_of(node))
                    < mid.depth_of(node));
                assert forall|n: Node| n.in_maze(w, h) implies self.parent_of(n) == if n == node {
                    root
                } else {
                    mid.parent_of(n)
                } by {
                    n.lemma_slot_in_bounds(w, h);
                    node.lemma_slot_in_bounds(w, h);
                    if n != node && n.spec_normalise(w) == node.spec_normalise(w) {
                        lemma_node_slots_differ(n, node, w, h);
                    }
                }
                assert forall|n: Node| n.in_maze(w, h) implies {
                    &&& (#[trigger] self.parent_of(n)).in_maze(w, h)
                    &&& self.root_of(self.parent_of(n)) == self.root_of(n)
                    &&& (self.parent_of(n) == n ==> self.root_of(n) == n)
                    &&& (self.parent_of(n) != n ==> self.depth_of(self.parent_of(n))
                        < self.depth_of(n))
                } by {
                    assert(mid.parent_of(n).in_maze(w, h));
                    assert(self.root_of(n) == mid.root_of(n));
                    assert(self.depth_of(n) == mid.depth_of(n));
                }
                assert forall|n: Node| n.in_maze(w, h) implies {
                    &&& (#[trigger] self.root_of(n)).in_maze(w, h)
                    &&& self.parent_of(self.root_of(n)) == self.root_of(n)
                    &&& (self.root_of(n) != n ==> self.depth_of(self.root_of(n)) < self.depth_of(n))
                } by {
                    assert(mid.root_of(n).in_maze(w, h));
                    assert(mid.parent_of(mid.root_of(n)) == mid.root_of(n));
                    assert(self.root_of(n) == mid.root_of(n));
                }
            }
            root
        }
    }
}

impl Kruskal {
    /// Makes one root the parent of another, and so one tree of two.
    fn join(&mut self, maze: &Maze, root_a: Node, root_b: Node)
        requires
            old(self).forest_wf(maze.width, maze.height),
            maze.height >= 1,
            maze.contains(root_a),
            maze.contains(root_b),
            old(self).root_of(root_a) == root_a,
            old(self).root_of(root_b) == root_b,
            root_a != root_b,
        ensures
            final(self).forest_wf(maze.width, maze.height),
            forall|n: Node|
                maze.contains(n) ==> final(self).root_of(n) == if old(self).root_of(n) == root_a {
                    root_b
                } else {
                    old(self).root_of(n)
                },
            final(self).queue() == old(self).queue(),
            final(self).tree_count() == old(self).tree_count() - 1,
    {
        let ghost before = *self;
        let ghost w = maze.width;
        let ghost h = maze.height;
        proof {
            self.parents.lemma_covers(root_a, w, h);
        }
        self.parents.set(root_a, root_b);
        let ghost lift = before.depth_of(root_b) + 1;
        let ghost roots = Seq::new(
            before.roots@.len(),
            |i: int|
                if before.roots@[i] == root_a {
                    root_b
                } else {
                    before.roots@[i]
                },
        );
        let ghost depths = Seq::new(
            before.depths@.len(),
            |i: int|
                if before.roots@[i] == root_a {
                    before.depths@[i] + lift
                } else {
                    before.depths@[i]
                },
        );
        self.roots = Ghost(roots);
        self.depths = Ghost(depths);
        proof {
            assert forall|n: Node| n.in_maze(w, h) implies {
                &&& self.parent_of(n) == if n == root_a {
                    root_b
                } else {
                    before.parent_of(n)
                }
                &&& self.root_of(n) == if before.root_of(n) == root_a {
                    root_b
                } else {
                    before.root_of(n)
                }
                &&& self.depth_of(n) == if before.root_of(n) == root_a {
                    before.depth_of(n) + lift
                } else {
                    before.depth_of(n)
                }
            } by {
                n.lemma_slot_in_bounds(w, h);
                root_a.lemma_slot_in_bounds(w, h);
                if n != root_a && n.spec_normalise(w) == root_a.spec_normalise(w) {
                    lemma_node_slots_differ(n, root_a, w, h);
                }
            }
            assert forall|n: Node| n.in_maze(w, h) implies {
                &&& (#[trigger] self.parent_of(n)).in_maze(w, h)
                &&& self.root_of(self.parent_of(n)) == self.root_of(n)
                &&& (self.parent_of(n) == n ==> self.root_of(n) == n)
                &&& (self.parent_of(n) != n ==> self.depth_of(self.parent_of(n)) < self.depth_of(
                    n,
                ))
            } by {
                assert(before.parent_of(n).in_maze(w, h));
                assert(before.root_of(n).in_maze(w, h));
                let p = before.parent_of(n);
                assert(before.root_of(p).in_maze(w, h));
            }
            assert forall|n: Node| n.in_maze(w, h) implies {
                &&& (#[trigger] self.root_of(n)).in_maze(w, h)
                &&& self.parent_of(self.root_of(n)) == self.root_of(n)
                &&& (self.root_of(n) != n ==> self.depth_of(self.root_of(n)) < self.depth_of(n))
            } by {
                assert(before.root_of(n).in_maze(w, h));
                let r = before.root_of(n);
                assert(before.parent_of(r) == r);
                assert(before.parent_of(root_b) == root_b);
                assert(before.root_of(r).in_maze(w, h));
            }
            let old_flags = is_root_flags(before.roots@, w);
            let new_flags = is_root_flags(roots, w);
            let at = root_a.spec_normalise(w);
            root_a.lemma_slot_in_bounds(w, h);
            lemma_cell_slot(root_a.0 as int, root_a.1 as int, w as int, h as int);
            assert(new_flags =~= old_flags.update(at, false)) by {
                assert forall|i: int| 0 <= i < new_flags.len() implies new_flags[i]
                    == old_flags.update(at, false)[i] by {
                    lemma_slot_cell(i, w as int, h as int);
                    let n = node_at(i, w);
                    assert(n.in_maze(w, h));
                    assert(n.spec_normalise(w) == i);
                    assert(before.root_of(n) == before.roots@[i]);
                    assert(before.root_of(root_b) == root_b);
                }
            }
            assert(old_flags[at]);
            lemma_count_true_update(old_flags, at, false, old_flags.len() as int);
        }
    }

    /// Whether the union-find structure agrees with the open edges: nodes
    /// are in one tree exactly when open edges connect them, the open edges
    /// form no cycle, and each open edge has made one tree of two.
    pub open spec fn matches_maze(&self, l: Lattice) -> bool {
        &&& forall|a: Node, b: Node| #[trigger] l.linked(a, b) ==> self.root_of(a) == self.root_of(b)
        &&& forall|a: Node, b: Node|
            l.contains(a) && l.contains(b) && self.root_of(a) == self.root_of(b)
                ==> #[trigger] l.connected(a, b)
        &&& l.acyclic()
        &&& l.open_count() + self.tree_count() == l.width * l.height
    }

    /// Whether every edge of the maze that points east or south is still in
    /// the queue or has its ends in one tree.
    pub open spec fn tried_all_others(&self, l: Lattice) -> bool {
        forall|e: Edge|
            e.in_maze(l.width, l.height) && (e.direction == Direction::East || e.direction
                == Direction::South) ==> #[trigger] self.queue().contains(e) || self.rejects(e)
    }

    /// The state after an edge has been taken: its ends are visited, and it
    /// is open.
    pub open spec fn joined(before: Snapshot, edge: Edge) -> Snapshot {
        before.visit(edge.from).visit(edge.to).set_edge(edge, true)
    }

    /// Nodes that open edges connect are in one tree.
    pub proof fn lemma_connected_same_root(&self, l: Lattice, a: Node, b: Node)
        requires
            self.matches_maze(l),
            l.connected(a, b),
        ensures
            self.root_of(a) == self.root_of(b),
    {
        let p = choose|p: Seq<Node>| #[trigger] l.is_walk(p) && p[0] == a && p[p.len() - 1] == b;
        let inside = Set::new(|n: Node| self.root_of(n) == self.root_of(a));
        l.lemma_walk_stays(inside, p, p.len() - 1);
    }

    /// A maze in which every edge has its ends in one tree is a spanning
    /// tree.
    proof fn lemma_exhausted(&self, l: Lattice)
        requires
            l.wf(),
            self.forest_wf(l.width, l.height),
            self.matches_maze(l),
            self.tried_all_others(l),
            self.queue().len() == 0,
        ensures
            l.is_spanning_tree(),
    {
        let w = l.width;
        let h = l.height;
        let seed = Node(0, 0);
        let root = self.root_of(seed);
        let inside = Set::new(|n: Node| self.root_of(n) == root);
        assert forall|n: Node, d: Direction|
            inside.contains(n) && l.contains(n) && (#[trigger] l.edge(n, d)) is Some implies inside.contains(
            l.edge(n, d).unwrap().to,
        ) by {
            let e = l.edge(n, d).unwrap();
            l.lemma_edge(n, d);
            lemma_edge_slot_reverse(e, w, h);
            if d == Direction::East || d == Direction::South {
                assert(self.queue().contains(e) || self.rejects(e));
            } else {
                assert(self.queue().contains(e.reverse()) || self.rejects(e.reverse()));
            }
        }
        assert forall|n: Node| l.contains(n) implies self.root_of(n) == root by {
            l.lemma_closed_set_is_all(inside, seed, n);
        }
        self.lemma_root_idempotent(w, h, seed);
        let flags = is_root_flags(self.roots@, self.parents.spec_width());
        let at = root.spec_normalise(w);
        root.lemma_slot_in_bounds(w, h);
        lemma_cell_slot(root.0 as int, root.1 as int, w as int, h as int);
        assert forall|i: int| 0 <= i < flags.len() implies flags[i] == (i == at) by {
            lemma_slot_cell(i, w as int, h as int);
            let n = node_at(i, w);
            assert(n.spec_normalise(w) == i);
            assert(self.root_of(n) == self.roots@[i]);
        }
        lemma_count_true_single(flags, at);
    }

    /// Opening an edge between two trees, and making one tree of them,
    /// keeps the union-find structure in agreement with the open edges.
    proof fn lemma_join_matches(before: Kruskal, after: Kruskal, l: Lattice, edge: Edge)
        requires
            l.wf(),
            before.forest_wf(l.width, l.height),
            before.matches_maze(l),
            edge.in_maze(l.width, l.height),
            !before.rejects(edge),
            forall|n: Node|
                l.contains(n) ==> after.root_of(n) == if before.root_of(n) == before.root_of(
                    edge.from,
                ) {
                    before.root_of(edge.to)
                } else {
                    before.root_of(n)
                },
            after.tree_count() == before.tree_count() - 1,
        ensures
            after.matches_maze(l.set_open(edge, true)),
    {
        let l2 = l.set_open(edge, true);
        let a = edge.from;
        let b = edge.to;
        assert(!l.connected(a, b)) by {
            if l.connected(a, b) {
                before.lemma_connected_same_root(l, a, b);
            }
        }
        l.lemma_bridge_acyclic(edge);
        assert(!l.is_open(edge)) by {
            if l.is_open(edge) {
                l.lemma_open_edge_links(edge);
            }
        }
        l.lemma_open_count_set(edge, true);
        assert forall|x: Node, y: Node| #[trigger] l2.linked(x, y) implies after.root_of(x)
            == after.root_of(y) by {
            l.lemma_linked_after_set(edge, true, x, y);
            let f = l2.lemma_linked_edge(x, y);
        }
        assert forall|x: Node, y: Node| #[trigger] l.linked(x, y) implies l2.linked(x, y) by {
            l.lemma_linked_after_set(edge, true, x, y);
        }
        l.lemma_linked_after_set(edge, true, a, b);
        l.lemma_linked_after_set(edge, true, b, a);
        l2.lemma_linked_connected(a, b);
        l2.lemma_linked_connected(b, a);
        assert forall|x: Node, y: Node|
            l2.contains(x) && l2.contains(y) && after.root_of(x) == after.root_of(
                y,
            ) implies #[trigger] l2.connected(x, y) by {
            if before.root_of(x) == before.root_of(y) {
                assert(l.connected(x, y));
                l.lemma_connected_carries_over(l2, x, y);
            } else if before.root_of(x) == before.root_of(a) {
                assert(l.connected(x, a));
                assert(l.connected(b, y));
                l.lemma_connected_carries_over(l2, x, a);
                l.lemma_connected_carries_over(l2, b, y);
                l2.lemma_connected_transitive(x, a, b);
                l2.lemma_connected_transitive(x, b, y);
            } else {
                assert(l.connected(x, b));
                assert(l.connected(a, y));
                l.lemma_connected_carries_over(l2, x, b);
                l.lemma_connected_carries_over(l2, a, y);
                l2.lemma_connected_transitive(x, b, a);
                l2.lemma_connected_transitive(x, a, y);
            }
        }
    }

    /// What is said of parents and roots does not depend on the queue.
    proof fn lemma_queue_aside(before: Kruskal, after: Kruskal, width: usize, height: usize)
        requires
            before.forest_wf(width, height),
            after.parents == before.parents,
            after.roots == before.roots,
            after.depths == before.depths,
        ensures
            after.forest_wf(width, height),
            after.tree_count() == before.tree_count(),
            forall|n: Node| after.root_of(n) == before.root_of(n),
    {
        assert forall|n: Node| n.in_maze(width, height) implies {
            &&& (#[trigger] after.parent_of(n)).in_maze(width, height)
            &&& after.root_of(after.parent_of(n)) == after.root_of(n)
            &&& (after.parent_of(n) == n ==> after.root_of(n) == n)
            &&& (after.parent_of(n) != n ==> after.depth_of(after.parent_of(n)) < after.depth_of(
                n,
            ))
        } by {
            assert(before.parent_of(n).in_maze(width, height));
        }
        assert forall|n: Node| n.in_maze(width, height) implies {
            &&& (#[trigger] after.root_of(n)).in_maze(width, height)
            &&& after.parent_of(after.root_of(n)) == after.root_of(n)
            &&& (after.root_of(n) != n ==> after.depth_of(after.root_of(n)) < after.depth_of(n))
        } by {
            assert(before.root_of(n).in_maze(width, height));
        }
    }

    /// Looking up roots leaves the union-find structure in agreement with
    /// the open edges.
    proof fn lemma_lookup_matches(before: Kruskal, after: Kruskal, l: Lattice)
        requires
            before.matches_maze(l),
            forall|n: Node| l.contains(n) ==> after.root_of(n) == before.root_of(n),
            after.tree_count() == before.tree_count(),
        ensures
            after.matches_maze(l),
    {
        assert forall|x: Node, y: Node| #[trigger] l.linked(x, y) implies after.root_of(x)
            == after.root_of(y) by {
            let f = l.lemma_linked_edge(x, y);
        }
    }
}

impl Animation for Kruskal {
    type Phase = Phase;

    /// A blank state.
    open spec fn ready(state: &State) -> bool {
        &&& state.wf()
        &&& state@.is_blank()
    }

    /// The union-find structure agrees with the open edges, and every edge
    /// not in the queue has been tried.
    open spec fn inv(&self, state: &State) -> bool {
        &&& state.wf()
        &&& self.forest_wf(state.maze.width, state.maze.height)
        &&& forall|i: int|
            0 <= i < self.queue().len() ==> (#[trigger] self.queue()[i]).in_maze(
                state.maze.width,
                state.maze.height,
            )
        &&& self.matches_maze(state@.maze)
        &&& self.tried_all_others(state@.maze)
    }

    proof fn lemma_inv_outlives_ageing(&self, before: &State, after: &State) {
    }

    /// Shuffles the edges of the maze into the queue, and makes every node
    /// a tree of its own.
    fn new(state: &mut State, rng: &mut StdRng) -> (r: Self)
        ensures
            *final(state) == *old(state),
            r.queue().to_multiset() == Edge::spec_iter(
                old(state).maze.width,
                old(state).maze.height,
            ).to_multiset(),
            forall|n: Node| old(state).maze.contains(n) ==> r.root_of(n) == n,
    {
        let ghost w = state.maze.width;
        let ghost h = state.maze.height;
        let mut queue = state.maze.edges_iter();
        let ghost edges = queue@;
        shuffle_edges(&mut queue, rng);
        let own = |n: Node| -> (p: Node)
            ensures
                p == n,
            { n };
        let parents = NodeBuffer::new_from_function(&state.maze, own);
        let ghost roots = Node::spec_iter(w, h);
        let r = Kruskal {
            queue,
            parents,
            roots: Ghost(roots),
            depths: Ghost(Seq::new(roots.len(), |i: int| 0nat)),
        };
        proof {
            let l = state@.maze;
            state@.lemma_blank();
            l.lemma_all_closed();
            assert forall|n: Node| n.in_maze(w, h) implies r.parent_of(n) == n && r.root_of(n)
                == n by {
                n.lemma_slot_in_bounds(w, h);
                lemma_cell_slot(n.0 as int, n.1 as int, w as int, h as int);
                assert(r.parents@[n.spec_normalise(w)] == roots[n.spec_normalise(w)]);
            }
            assert forall|a: Node, b: Node|
                l.contains(a) && l.contains(b) && r.root_of(a) == r.root_of(
                    b,
                ) implies #[trigger] l.connected(a, b) by {
                l.lemma_connected_reflexive(a);
            }
            let flags = is_root_flags(roots, w);
            lemma_count_true_uniform(flags, flags.len() as int, true);
            assert forall|i: int| 0 <= i < r.queue().len() implies (#[trigger] r.queue()[i]).in_maze(
                w,
                h,
            ) by {
                let e = r.queue()[i];
                assert(r.queue().contains(e));
                vstd::seq_lib::to_multiset_contains(r.queue(), e);
                vstd::seq_lib::to_multiset_contains(edges, e);
                let k = choose|k: int| 0 <= k < edges.len() && edges[k] == e;
                lemma_edges_below_in_maze(w, h, (w * h) as nat, k);
            }
            assert forall|e: Edge|
                e.in_maze(w, h) && (e.direction == Direction::East || e.direction
                    == Direction::South) implies #[trigger] r.queue().contains(e) || r.rejects(
                e,
            ) by {
                e.from.lemma_slot_in_bounds(w, h);
                lemma_edges_below_complete(w, h, (w * h) as nat, e);
                vstd::seq_lib::to_multiset_contains(r.queue(), e);
                vstd::seq_lib::to_multiset_contains(edges, e);
            }
        }
        r
    }

    /// What one timestep makes of the algorithm and its state, and the
    /// signal that it gives.
    open spec fn moves(
        &self,
        state: &State,
        after: &Self,
        after_state: &State,
        signal: Signal,
    ) -> bool {
        &&& (signal == Signal::Done ==> forall|n: Node|
                state.maze.contains(n) ==> after.root_of(n) == self.root_of(n))
        &&& (signal == Signal::Done ==> after.queue().len() == 0 && *after_state == *state
                && forall|i: int|
                0 <= i < self.queue().len() ==> self.rejects(
                    #[trigger] self.queue()[i],
                ))
        &&& (signal == Signal::Continue ==> exists|k: int|
                #![auto]
                0 <= k < self.queue().len() && !self.rejects(self.queue()[k])
                    && (forall|i: int|
                    k < i < self.queue().len() ==> self.rejects(
                        #[trigger] self.queue()[i],
                    )) && after.queue() == self.queue().take(k) && after_state@
                    == Self::joined(state@, self.queue()[k]) && (forall|n: Node|
                    state.maze.contains(n) ==> after.root_of(n) == if self.root_of(
                        n,
                    ) == self.root_of(self.queue()[k].from) {
                        self.root_of(self.queue()[k].to)
                    } else {
                        self.root_of(n)
                    }))
        &&& (signal == Signal::Done ==> after_state@.maze.is_spanning_tree())
    }

    /// Takes edges from the queue until one joins two trees, and opens that
    /// one; ends when the queue runs out first.
    fn step(&mut self, state: &mut State, rng: &mut StdRng) -> (r: Signal)
    {
        let ghost first = *self;
        let ghost w = state.maze.width;
        let ghost h = state.maze.height;
        loop
            invariant
                self.inv(state),
                first == *old(self),
                first.inv(state),
                *state == *old(state),
                w == state.maze.width,
                h == state.maze.height,
                self.queue().len() <= first.queue().len(),
                self.queue() == first.queue().take(self.queue().len() as int),
                forall|i: int|
                    self.queue().len() <= i < first.queue().len() ==> first.rejects(
                        #[trigger] first.queue()[i],
                    ),
                forall|n: Node| state.maze.contains(n) ==> self.root_of(n) == first.root_of(n),
            decreases self.queue().len(),
        {
            let ghost queue = self.queue@;
            let ghost k = queue.len() - 1;
            let ghost entered = *self;
            if self.queue.len() == 0 {
                proof {
                    self.lemma_exhausted(state@.maze);
                }
                return Signal::Done;
            }
            let edge = self.queue.pop().unwrap();
            assert(edge == first.queue()[k]);
            assert(self.queue@ =~= first.queue().take(k));
            let ghost popped = *self;
            proof {
                Self::lemma_queue_aside(entered, popped, w, h);
                Self::lemma_lookup_matches(entered, popped, state@.maze);
            }
            let root_a = self.find_root(&state.maze, edge.from);
            let ghost once = *self;
            let root_b = self.find_root(&state.maze, edge.to);
            let ghost looked = *self;
            proof {
                assert forall|n: Node| state.maze.contains(n) implies looked.root_of(n)
                    == popped.root_of(n) && looked.root_of(n) == first.root_of(n) by {
                    assert(once.root_of(n) == popped.root_of(n));
                    assert(popped.root_of(n) == entered.root_of(n));
                }
                assert(state.maze.contains(edge.from) && state.maze.contains(edge.to));
                assert(once.root_of(edge.to) == popped.root_of(edge.to));
                assert(root_a == first.root_of(edge.from));
                assert(root_b == first.root_of(edge.to));
                Self::lemma_lookup_matches(popped, looked, state@.maze);
                assert forall|e: Edge|
                    e.in_maze(w, h) && (e.direction == Direction::East || e.direction
                        == Direction::South) implies #[trigger] looked.queue().contains(e)
                    || looked.rejects(e) || e == edge by {
                    if queue.contains(e) {
                        let j = choose|j: int| 0 <= j < queue.len() && queue[j] == e;
                        if j < k {
                            assert(looked.queue()[j] == e);
                        }
                    }
                }
            }
            if root_a != root_b {
                let ghost before = state@;
                proof {
                    before.lemma_set_age(edge.from, 0);
                    before.visit(edge.from).lemma_set_age(edge.to, 0);
                    state.maze.open.lemma_covers(edge, w, h);
                }
                state.visit(edge.from);
                state.visit(edge.to);
                self.join(&state.maze, root_a, root_b);
                proof {
                    assert(looked.root_of(edge.from) == root_a);
                    assert(looked.root_of(edge.to) == root_b);
                    assert(self.queue() == looked.queue());
                    assert forall|n: Node| before.maze.contains(n) implies self.root_of(n)
                        == if looked.root_of(n) == looked.root_of(edge.from) {
                        looked.root_of(edge.to)
                    } else {
                        looked.root_of(n)
                    } by {
                        assert(state.maze.contains(n));
                    }
                }
                state.maze.open.set(edge, true);
                proof {
                    assert(state@ == Self::joined(before, edge));
                    Self::lemma_join_matches(looked, *self, before.maze, edge);
                    assert forall|e: Edge|
                        e.in_maze(w, h) && (e.direction == Direction::East || e.direction
                            == Direction::South) implies #[trigger] self.queue().contains(e)
                        || self.rejects(e) by {
                        assert(looked.queue().contains(e) || looked.rejects(e) || e == edge);
                        assert(state.maze.contains(e.from) && state.maze.contains(e.to));
                    }
                }
                return Signal::Continue;
            }
        }
    }

    proof fn lemma_inv_can_be_drawn(&self, state: &State) {
    }

    open spec fn spec_timescale(&self) -> u32 {
        150
    }

    fn timescale(&self) -> (r: u32) {
        150
    }
}

} // verus!
