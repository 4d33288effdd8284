//! The breadth-first search for a dead end.

use vstd::prelude::*;
use crate::counting::count_true;
use crate::counting::lemma_count_true_bounds;
use crate::counting::lemma_count_true_update;
use crate::lattice::Lattice;
use crate::maze::lemma_node_slots_differ;
use crate::maze::Direction;
use crate::maze::Edge;
use crate::maze::MazeIndex;
use crate::maze::Node;
use super::among;
use super::trace::depth_at;

verus! {

impl Lattice {
    /// Whether the node has exactly one open edge.
    pub open spec fn is_dead_end(self, node: Node) -> bool {
        self.open_neighbours(node).len() == 1
    }

    /// Whether `found` is what a search for a dead end from `from` may
    /// give: a dead end that open edges lead to, and in no more of them than
    /// to any other; `from` itself where it is one, and also where open
    /// edges lead to none.
    pub open spec fn dead_end_from(self, from: Node, found: Node) -> bool {
        &&& self.contains(found)
        &&& self.connected(from, found)
        &&& (self.is_dead_end(from) ==> found == from)
        &&& (self.is_dead_end(found) || (found == from && forall|n: Node|
            self.connected(from, n) ==> !self.is_dead_end(n)))
        &&& (self.is_dead_end(found) ==> exists|steps: nat|
            #![auto]
            self.is_distance(from, found, steps) && self.no_dead_end_within(from, steps))
    }

    /// Whether no walk of fewer than `steps` open edges leads from `from`
    /// to a dead end.
    pub open spec fn no_dead_end_within(self, from: Node, steps: nat) -> bool {
        forall|q: Seq<Node>|
            #[trigger] self.is_walk(q) && q[0] == from && self.is_dead_end(q[q.len() - 1])
                ==> q.len() >= steps + 1
    }
}

/// Whether the node's flag is set.
pub open spec fn seen_at(seen: Seq<bool>, width: usize, node: Node) -> bool {
    seen[node.spec_normalise(width)]
}

/// Whether the search is done with a node: it is no dead end, and every
/// node linked to it has been seen.
pub open spec fn finished(l: Lattice, seen: Seq<bool>, node: Node) -> bool {
    &&& !l.is_dead_end(node)
    &&& forall|m: Node| #[trigger] l.linked(node, m) ==> seen_at(seen, l.width, m)
}

/// What holds while the search runs: every node seen is connected to the
/// node searched from, and is in the queue or finished.
#[verifier::opaque]
pub open spec fn searching(l: Lattice, from: Node, seen: Seq<bool>, queue: Seq<Edge>) -> bool {
    &&& l.wf()
    &&& l.contains(from)
    &&& seen.len() == l.width * l.height
    &&& seen_at(seen, l.width, from)
    &&& forall|i: int|
        0 <= i < queue.len() ==> l.contains((#[trigger] queue[i]).to) && seen_at(
            seen,
            l.width,
            queue[i].to,
        )
    &&& forall|n: Node|
        l.contains(n) && #[trigger] seen_at(seen, l.width, n) ==> l.connected(from, n) && (among(
            queue,
            n,
        ) || finished(l, seen, n))
}

/// The work that is left: two for each node not seen, one for each edge in
/// the queue.
pub open spec fn work_left(seen: Seq<bool>, queue: Seq<Edge>) -> int {
    2 * (seen.len() - count_true(seen, seen.len() as int)) + queue.len()
}

/// Once the queue is empty, no node connected to the one searched from is
/// a dead end.
pub proof fn lemma_search_exhausted(l: Lattice, from: Node, seen: Seq<bool>, n: Node)
    requires
        searching(l, from, seen, Seq::<Edge>::empty()),
        l.connected(from, n),
    ensures
        !l.is_dead_end(n),
{
    reveal(searching);
    let inside = Set::new(|n: Node| l.contains(n) && seen_at(seen, l.width, n));
    let p = choose|p: Seq<Node>| #[trigger] l.is_walk(p) && p[0] == from && p[p.len() - 1] == n;
    assert forall|a: Node, b: Node|
        inside.contains(a) && #[trigger] l.linked(a, b) implies inside.contains(b) by {
        assert(!among(Seq::<Edge>::empty(), a));
        assert(finished(l, seen, a));
        let e = l.lemma_linked_edge(a, b);
    }
    l.lemma_walk_stays(inside, p, p.len() - 1);
    assert(!among(Seq::<Edge>::empty(), n));
    assert(finished(l, seen, n));
}

/// Seeing one more node, and putting an edge to it in the queue, keeps
/// what holds while the search runs, apart from the node being worked on.
pub proof fn lemma_search_enqueue(
    l: Lattice,
    from: Node,
    seen: Seq<bool>,
    queue: Seq<Edge>,
    node: Node,
    edge: Edge,
)
    requires
        searching(l, from, seen, queue.push(Edge { from: node, to: node, direction: Direction::North })),
        l.contains(node),
        edge.in_maze(l.width, l.height),
        edge.from == node,
        l.is_open(edge),
        !seen_at(seen, l.width, edge.to),
    ensures
        searching(
            l,
            from,
            seen.update(edge.to.spec_normalise(l.width), true),
            queue.push(edge).push(Edge { from: node, to: node, direction: Direction::North }),
        ),
        work_left(seen.update(edge.to.spec_normalise(l.width), true), queue.push(edge))
            == work_left(seen, queue) - 1,
        0 <= count_true(seen, seen.len() as int) < seen.len(),
        forall|n: Node|
            l.contains(n) ==> seen_at(seen.update(edge.to.spec_normalise(l.width), true), l.width, n)
                == (n == edge.to || seen_at(seen, l.width, n)),
{
    reveal(searching);
    let w = l.width;
    let h = l.height;
    let mark = Edge { from: node, to: node, direction: Direction::North };
    let before = queue.push(mark);
    let seen2 = seen.update(edge.to.spec_normalise(w), true);
    let after = queue.push(edge).push(mark);
    edge.to.lemma_slot_in_bounds(w, h);
    lemma_count_true_update(seen, edge.to.spec_normalise(w), true, seen.len() as int);
    lemma_count_true_bounds(seen2, seen2.len() as int);
    lemma_count_true_bounds(seen, seen.len() as int);
    l.lemma_open_edge_links(edge);
    l.lemma_linked_connected(node, edge.to);
    assert(before[queue.len() as int].to == node);
    assert(seen_at(seen, w, node));
    l.lemma_connected_transitive(from, node, edge.to);
    assert forall|n: Node| l.contains(n) implies seen_at(seen2, w, n) == (n == edge.to || seen_at(
        seen,
        w,
        n,
    )) by {
        n.lemma_slot_in_bounds(w, h);
        if n != edge.to && n.spec_normalise(w) == edge.to.spec_normalise(w) {
            lemma_node_slots_differ(n, edge.to, w, h);
        }
    }
    assert forall|i: int| 0 <= i < after.len() implies l.contains((#[trigger] after[i]).to)
        && seen_at(seen2, w, after[i].to) by {
        if i < queue.len() {
            assert(after[i] == before[i]);
        } else if i == queue.len() {
        } else {
            assert(after[i] == before[queue.len() as int]);
        }
    }
    assert forall|n: Node| l.contains(n) && #[trigger] seen_at(seen2, w, n) implies l.connected(
        from,
        n,
    ) && (among(after, n) || finished(l, seen2, n)) by {
        if n == edge.to {
            assert(after[queue.len() as int].to == n);
        } else {
            assert(seen_at(seen, w, n));
            if among(before, n) {
                let k = choose|k: int| 0 <= k < before.len() && (#[trigger] before[k]).to == n;
                if k < queue.len() {
                    assert(after[k].to == n);
                } else {
                    assert(after[(queue.len() + 1) as int].to == n);
                }
            } else {
                assert(finished(l, seen, n));
                assert forall|m: Node| #[trigger] l.linked(n, m) implies seen_at(seen2, w, m) by {
                    let e = l.lemma_linked_edge(n, m);
                }
            }
        }
    }
}

/// Once every open neighbour of a node that is no dead end has been seen,
/// the search is done with the node.
pub proof fn lemma_search_finish(
    l: Lattice,
    from: Node,
    seen: Seq<bool>,
    queue: Seq<Edge>,
    node: Node,
)
    requires
        searching(l, from, seen, queue.push(Edge { from: node, to: node, direction: Direction::North })),
        l.contains(node),
        !l.is_dead_end(node),
        forall|k: int|
            0 <= k < l.open_neighbours(node).len() ==> seen_at(
                seen,
                l.width,
                (#[trigger] l.open_neighbours(node)[k]).to,
            ),
    ensures
        searching(l, from, seen, queue),
{
    reveal(searching);
    let w = l.width;
    let mark = Edge { from: node, to: node, direction: Direction::North };
    let before = queue.push(mark);
    l.lemma_open_neighbours(node);
    assert forall|m: Node| #[trigger] l.linked(node, m) implies seen_at(seen, w, m) by {
        let d = choose|d: Direction| (#[trigger] l.open_edge(node, d)) matches Some(e) && e.to == m;
        let e = l.open_edge(node, d).unwrap();
        let around = l.open_neighbours(node);
        assert(around.contains(e));
        let k = choose|k: int| 0 <= k < around.len() && around[k] == e;
        assert(seen_at(seen, w, around[k].to));
    }
    assert(finished(l, seen, node));
    assert forall|i: int| 0 <= i < queue.len() implies l.contains((#[trigger] queue[i]).to)
        && seen_at(seen, w, queue[i].to) by {
        assert(before[i] == queue[i]);
    }
    assert forall|n: Node| l.contains(n) && #[trigger] seen_at(seen, w, n) implies l.connected(
        from,
        n,
    ) && (among(queue, n) || finished(l, seen, n)) by {
        if n != node && among(before, n) {
            let k = choose|k: int| 0 <= k < before.len() && (#[trigger] before[k]).to == n;
            assert(queue[k].to == n);
        }
    }
}

/// The search starts with the node searched from seen and in the queue.
pub proof fn lemma_search_start(l: Lattice, from: Node, blank: Seq<bool>)
    requires
        l.wf(),
        l.contains(from),
        blank.len() == l.width * l.height,
        forall|i: int| 0 <= i < blank.len() ==> !#[trigger] blank[i],
    ensures
        searching(
            l,
            from,
            blank.update(from.spec_normalise(l.width), true),
            seq![Edge { from, to: from, direction: Direction::North }],
        ),
{
    reveal(searching);
    let w = l.width;
    let h = l.height;
    let seen = blank.update(from.spec_normalise(w), true);
    let queue = seq![Edge { from, to: from, direction: Direction::North }];
    from.lemma_slot_in_bounds(w, h);
    l.lemma_connected_reflexive(from);
    assert(queue[0].to == from);
    assert(among(queue, from));
    assert forall|n: Node| l.contains(n) && #[trigger] seen_at(seen, w, n) implies n == from by {
        n.lemma_slot_in_bounds(w, h);
        if n.spec_normalise(w) == from.spec_normalise(w) {
            lemma_node_slots_differ(n, from, w, h);
        }
    }
}

/// Taking the first edge from the queue to work on the node it leads to
/// keeps what holds while the search runs; that node lies within the maze
/// and is connected to the node searched from.
pub proof fn lemma_search_pop(l: Lattice, from: Node, seen: Seq<bool>, queue: Seq<Edge>)
    requires
        searching(l, from, seen, queue),
        queue.len() > 0,
    ensures
        searching(
            l,
            from,
            seen,
            queue.subrange(1, queue.len() as int).push(
                Edge { from: queue[0].to, to: queue[0].to, direction: Direction::North },
            ),
        ),
        l.wf(),
        l.contains(from),
        l.contains(queue[0].to),
        l.connected(from, queue[0].to),
        l.connected(from, from),
        seen.len() == l.width * l.height,
{
    reveal(searching);
    let w = l.width;
    let node = queue[0].to;
    let rest = queue.subrange(1, queue.len() as int);
    let q = rest.push(Edge { from: node, to: node, direction: Direction::North });
    assert(seen_at(seen, w, node));
    assert forall|i: int| 0 <= i < q.len() implies l.contains((#[trigger] q[i]).to) && seen_at(
        seen,
        w,
        q[i].to,
    ) by {
        if i < rest.len() {
            assert(q[i] == queue[i + 1]);
        }
    }
    assert forall|n: Node| l.contains(n) && #[trigger] seen_at(seen, w, n) implies l.connected(
        from,
        n,
    ) && (among(q, n) || finished(l, seen, n)) by {
        if among(queue, n) {
            let k = choose|k: int| 0 <= k < queue.len() && (#[trigger] queue[k]).to == n;
            if k == 0 {
                assert(q[rest.len() as int].to == n);
            } else {
                assert(q[k - 1].to == n);
            }
        }
    }
}

/// Seen nodes and queue after the first `count` of the edges `around` have
/// been looked at: each that leads to an unseen node is put at the end of
/// the queue, and that node is seen.
pub open spec fn enqueued(
    seen: Seq<bool>,
    queue: Seq<Edge>,
    width: usize,
    around: Seq<Edge>,
    count: int,
) -> (Seq<bool>, Seq<Edge>)
    decreases count,
{
    if count <= 0 {
        (seen, queue)
    } else {
        let (marks, edges) = enqueued(seen, queue, width, around, count - 1);
        let edge = around[count - 1];
        if seen_at(marks, width, edge.to) {
            (marks, edges)
        } else {
            (marks.update(edge.to.spec_normalise(width), true), edges.push(edge))
        }
    }
}

/// Looking at the open edges around the node being worked on keeps what
/// holds while the search runs, and leaves no more work than there was.
pub proof fn lemma_enqueued(
    l: Lattice,
    from: Node,
    seen: Seq<bool>,
    queue: Seq<Edge>,
    node: Node,
    count: int,
)
    requires
        searching(l, from, seen, queue.push(Edge { from: node, to: node, direction: Direction::North })),
        l.wf(),
        l.contains(node),
        0 <= count <= l.open_neighbours(node).len(),
    ensures
        ({
            let (marks, edges) = enqueued(seen, queue, l.width, l.open_neighbours(node), count);
            &&& searching(
                l,
                from,
                marks,
                edges.push(Edge { from: node, to: node, direction: Direction::North }),
            )
            &&& marks.len() == seen.len()
            &&& work_left(marks, edges) <= work_left(seen, queue)
            &&& forall|k: int|
                0 <= k < count ==> seen_at(marks, l.width, (#[trigger] l.open_neighbours(node)[k]).to)
        }),
    decreases count,
{
    assert(seen.len() == l.width * l.height) by {
        reveal(searching);
    }
    if count > 0 {
        let w = l.width;
        let around = l.open_neighbours(node);
        lemma_enqueued(l, from, seen, queue, node, count - 1);
        let (marks, edges) = enqueued(seen, queue, w, around, count - 1);
        let edge = around[count - 1];
        l.lemma_open_neighbours(node);
        edge.to.lemma_slot_in_bounds(w, l.height);
        let last = enqueued(seen, queue, w, around, count);
        if !seen_at(marks, w, edge.to) {
            lemma_search_enqueue(l, from, marks, edges, node, edge);
            let after = marks.update(edge.to.spec_normalise(w), true);
            assert(last == (after, edges.push(edge)));
            assert forall|k: int| 0 <= k < count implies seen_at(
                last.0,
                w,
                (#[trigger] around[k]).to,
            ) by {
                assert(l.contains(around[k].to));
                if k < count - 1 {
                    assert(seen_at(marks, w, around[k].to));
                }
            }
        } else {
            assert(last == (marks, edges));
            assert forall|k: int| 0 <= k < count implies seen_at(
                last.0,
                w,
                (#[trigger] around[k]).to,
            ) by {
                if k < count - 1 {
                    assert(seen_at(marks, w, around[k].to));
                }
            }
        }
    }
}

/// The node that the search comes to from the given seen nodes and queue:
/// the far end of the first edge of the queue, if that is a dead end; else
/// what the search comes to once the open edges around that node have been
/// looked at; and the node searched from once the queue is empty.
pub open spec fn searched(l: Lattice, from: Node, seen: Seq<bool>, queue: Seq<Edge>) -> Node
    decreases work_left(seen, queue),
    when searching(l, from, seen, queue)
    via searched_decreases
{
    if queue.len() == 0 {
        from
    } else if l.is_dead_end(queue[0].to) {
        queue[0].to
    } else {
        let next = enqueued(
            seen,
            queue.drop_first(),
            l.width,
            l.open_neighbours(queue[0].to),
            l.open_neighbours(queue[0].to).len() as int,
        );
        searched(l, from, next.0, next.1)
    }
}

#[via_fn]
proof fn searched_decreases(l: Lattice, from: Node, seen: Seq<bool>, queue: Seq<Edge>) {
    if queue.len() > 0 && !l.is_dead_end(queue[0].to) {
        lemma_searched_next(l, from, seen, queue);
    }
}

/// Working on the first node of the queue, where it is no dead end, keeps
/// what holds while the search runs, and leaves less work.
pub proof fn lemma_searched_next(l: Lattice, from: Node, seen: Seq<bool>, queue: Seq<Edge>)
    requires
        searching(l, from, seen, queue),
        queue.len() > 0,
        !l.is_dead_end(queue[0].to),
    ensures
        ({
            let next = enqueued(
                seen,
                queue.drop_first(),
                l.width,
                l.open_neighbours(queue[0].to),
                l.open_neighbours(queue[0].to).len() as int,
            );
            &&& searching(l, from, next.0, next.1)
            &&& 0 <= work_left(next.0, next.1) < work_left(seen, queue)
            &&& next.0.len() == seen.len()
        }),
{
    let node = queue[0].to;
    let rest = queue.drop_first();
    let around = l.open_neighbours(node);
    lemma_search_pop(l, from, seen, queue);
    assert(rest =~= queue.subrange(1, queue.len() as int));
    lemma_enqueued(l, from, seen, rest, node, around.len() as int);
    let next = enqueued(seen, rest, l.width, around, around.len() as int);
    lemma_search_finish(l, from, next.0, next.1, node);
    lemma_count_true_bounds(next.0, next.0.len() as int);
}

impl Lattice {
    /// The dead end that a breadth-first search from a node comes to first,
    /// looking at the open edges around each node clockwise from north; the
    /// node itself where open edges lead from it to no dead end.
    pub open spec fn first_dead_end(self, from: Node) -> Node {
        searched(
            self,
            from,
            Seq::new((self.width * self.height) as nat, |i: int| false).update(
                from.spec_normalise(self.width),
                true,
            ),
            seq![Edge { from, to: from, direction: Direction::North }],
        )
    }
}

/// Whether every node linked to the given one is seen, and at most one
/// layer deeper.
pub open spec fn deep_links(l: Lattice, seen: Seq<bool>, depths: Seq<nat>, node: Node) -> bool {
    forall|m: Node| #[trigger]
        l.linked(node, m) ==> seen_at(seen, l.width, m) && depth_at(depths, l.width, m)
            <= depth_at(depths, l.width, node) + 1
}

/// Whether `depths` counts the layers of the search: a walk of as many open
/// edges as a seen node is deep leads to it; the queue is in the order of
/// depth, from the floor up to one above it; the node being worked on, if
/// any, is as deep as the floor, and then the nodes not yet seen count as
/// one deeper; and every other seen node is no deeper than the floor, and
/// linked only to seen nodes at most one deeper.
#[verifier::opaque]
pub open spec fn layered(
    l: Lattice,
    from: Node,
    seen: Seq<bool>,
    queue: Seq<Edge>,
    depths: Seq<nat>,
    floor: nat,
    pending: Option<Node>,
) -> bool {
    let w = l.width;
    &&& depths.len() == l.width * l.height
    &&& seen.len() == l.width * l.height
    &&& forall|n: Node|
        l.contains(n) && #[trigger] seen_at(seen, w, n) ==> {
            &&& l.leads_in(from, n, depth_at(depths, w, n))
            &&& depth_at(depths, w, n) <= floor + 1
            &&& (among(queue, n) || pending == Some(n) || (depth_at(depths, w, n) <= floor
                && deep_links(l, seen, depths, n)))
        }
    &&& forall|i: int|
        0 <= i < queue.len() ==> l.contains((#[trigger] queue[i]).to) && seen_at(
            seen,
            w,
            queue[i].to,
        ) && floor <= depth_at(depths, w, queue[i].to)
    &&& forall|i: int, j: int|
        0 <= i <= j < queue.len() ==> depth_at(depths, w, (#[trigger] queue[i]).to) <= depth_at(
            depths,
            w,
            (#[trigger] queue[j]).to,
        )
    &&& (pending matches Some(node) ==> {
        &&& l.contains(node)
        &&& seen_at(seen, w, node)
        &&& depth_at(depths, w, node) == floor
        &&& forall|n: Node|
            l.contains(n) && !seen_at(seen, w, n) ==> #[trigger] depth_at(depths, w, n) == floor
                + 1
    })
}

/// The depths with every node not yet seen one layer above the floor.
pub open spec fn raised(seen: Seq<bool>, depths: Seq<nat>, floor: nat) -> Seq<nat> {
    Seq::new(
        depths.len(),
        |i: int|
            if seen[i] {
                depths[i]
            } else {
                floor + 1
            },
    )
}

/// The search starts with the node searched from at depth zero.
pub proof fn lemma_layered_start(l: Lattice, from: Node, blank: Seq<bool>)
    requires
        l.wf(),
        l.contains(from),
        blank.len() == l.width * l.height,
        forall|i: int| 0 <= i < blank.len() ==> !#[trigger] blank[i],
    ensures
        layered(
            l,
            from,
            blank.update(from.spec_normalise(l.width), true),
            seq![Edge { from, to: from, direction: Direction::North }],
            Seq::new(blank.len(), |i: int| 0nat),
            0,
            None,
        ),
{
    reveal(layered);
    let w = l.width;
    let h = l.height;
    let seen = blank.update(from.spec_normalise(w), true);
    let queue = seq![Edge { from, to: from, direction: Direction::North }];
    from.lemma_slot_in_bounds(w, h);
    let p = seq![from];
    assert(l.is_walk(p) && p[0] == from && p[p.len() - 1] == from && p.len() == 1);
    assert(queue[0].to == from);
    assert(among(queue, from));
    assert forall|n: Node| l.contains(n) && #[trigger] seen_at(seen, w, n) implies n == from by {
        n.lemma_slot_in_bounds(w, h);
        if n.spec_normalise(w) == from.spec_normalise(w) {
            lemma_node_slots_differ(n, from, w, h);
        }
    }
}

/// Taking the first node from the queue to work on raises the floor to its
/// depth.
pub proof fn lemma_layered_pop(
    l: Lattice,
    from: Node,
    seen: Seq<bool>,
    queue: Seq<Edge>,
    depths: Seq<nat>,
    floor: nat,
)
    requires
        l.wf(),
        layered(l, from, seen, queue, depths, floor, None),
        queue.len() > 0,
    ensures
        layered(
            l,
            from,
            seen,
            queue.drop_first(),
            raised(seen, depths, depth_at(depths, l.width, queue[0].to)),
            depth_at(depths, l.width, queue[0].to),
            Some(queue[0].to),
        ),
        floor <= depth_at(depths, l.width, queue[0].to),
{
    reveal(layered);
    let w = l.width;
    let h = l.height;
    let node = queue[0].to;
    let rest = queue.drop_first();
    let level = depth_at(depths, w, node);
    let marks = raised(seen, depths, level);
    assert forall|n: Node| l.contains(n) implies (#[trigger] depth_at(marks, w, n)) == (if seen_at(
        seen,
        w,
        n,
    ) {
        depth_at(depths, w, n)
    } else {
        level + 1
    }) by {
        n.lemma_slot_in_bounds(w, h);
    }
    assert forall|i: int| 0 <= i < rest.len() implies l.contains((#[trigger] rest[i]).to)
        && seen_at(seen, w, rest[i].to) && level <= depth_at(marks, w, rest[i].to) by {
        assert(rest[i] == queue[i + 1]);
        assert(depth_at(depths, w, queue[0].to) <= depth_at(depths, w, queue[i + 1].to));
    }
    assert forall|i: int, j: int| 0 <= i <= j < rest.len() implies depth_at(
        marks,
        w,
        (#[trigger] rest[i]).to,
    ) <= depth_at(marks, w, (#[trigger] rest[j]).to) by {
        assert(rest[i] == queue[i + 1] && rest[j] == queue[j + 1]);
        assert(depth_at(depths, w, queue[i + 1].to) <= depth_at(depths, w, queue[j + 1].to));
    }
    assert forall|n: Node| l.contains(n) && #[trigger] seen_at(seen, w, n) implies {
        &&& l.leads_in(from, n, depth_at(marks, w, n))
        &&& depth_at(marks, w, n) <= level + 1
        &&& (among(rest, n) || Some(node) == Some(n) || (depth_at(marks, w, n) <= level
            && deep_links(l, seen, marks, n)))
    } by {
        if among(queue, n) {
            let k = choose|k: int| 0 <= k < queue.len() && (#[trigger] queue[k]).to == n;
            if k > 0 {
                assert(rest[k - 1].to == n);
            }
        } else {
            assert(deep_links(l, seen, depths, n));
            assert forall|m: Node| #[trigger] l.linked(n, m) implies seen_at(seen, w, m)
                && depth_at(marks, w, m) <= depth_at(marks, w, n) + 1 by {
                let e = l.lemma_linked_edge(n, m);
            }
        }
    }
}

/// Seeing a node next to the one being worked on, and putting the edge to
/// it in the queue, keeps the layers.
pub proof fn lemma_layered_enqueue(
    l: Lattice,
    from: Node,
    seen: Seq<bool>,
    queue: Seq<Edge>,
    depths: Seq<nat>,
    floor: nat,
    node: Node,
    edge: Edge,
)
    requires
        l.wf(),
        layered(l, from, seen, queue, depths, floor, Some(node)),
        edge.in_maze(l.width, l.height),
        edge.from == node,
        l.is_open(edge),
        !seen_at(seen, l.width, edge.to),
    ensures
        layered(
            l,
            from,
            seen.update(edge.to.spec_normalise(l.width), true),
            queue.push(edge),
            depths,
            floor,
            Some(node),
        ),
{
    reveal(layered);
    let w = l.width;
    let h = l.height;
    let child = edge.to;
    let seen2 = seen.update(child.spec_normalise(w), true);
    let longer = queue.push(edge);
    child.lemma_slot_in_bounds(w, h);
    l.lemma_open_edge_links(edge);
    l.lemma_leads_in_next(from, node, child, floor);
    assert forall|n: Node| l.contains(n) implies (#[trigger] seen_at(seen2, w, n)) == (n == child
        || seen_at(seen, w, n)) by {
        n.lemma_slot_in_bounds(w, h);
        if n != child && n.spec_normalise(w) == child.spec_normalise(w) {
            lemma_node_slots_differ(n, child, w, h);
        }
    }
    assert(depth_at(depths, w, child) == floor + 1);
    assert forall|i: int| 0 <= i < longer.len() implies l.contains((#[trigger] longer[i]).to)
        && seen_at(seen2, w, longer[i].to) && floor <= depth_at(depths, w, longer[i].to) by {
        if i < queue.len() {
            assert(longer[i] == queue[i]);
        }
    }
    assert forall|i: int, j: int| 0 <= i <= j < longer.len() implies depth_at(
        depths,
        w,
        (#[trigger] longer[i]).to,
    ) <= depth_at(depths, w, (#[trigger] longer[j]).to) by {
        if j < queue.len() {
            assert(longer[i] == queue[i] && longer[j] == queue[j]);
        } else if i < queue.len() {
            assert(longer[i] == queue[i]);
            assert(seen_at(seen, w, queue[i].to));
        }
    }
    assert forall|n: Node| l.contains(n) && #[trigger] seen_at(seen2, w, n) implies {
        &&& l.leads_in(from, n, depth_at(depths, w, n))
        &&& depth_at(depths, w, n) <= floor + 1
        &&& (among(longer, n) || Some(node) == Some(n) || (depth_at(depths, w, n) <= floor
            && deep_links(l, seen2, depths, n)))
    } by {
        if n == child {
            assert(longer[queue.len() as int].to == n);
        } else {
            assert(seen_at(seen, w, n));
            if among(queue, n) {
                let k = choose|k: int| 0 <= k < queue.len() && (#[trigger] queue[k]).to == n;
                assert(longer[k].to == n);
            } else if n != node {
                assert(deep_links(l, seen, depths, n));
                assert forall|m: Node| #[trigger] l.linked(n, m) implies seen_at(seen2, w, m)
                    && depth_at(depths, w, m) <= depth_at(depths, w, n) + 1 by {
                    let e = l.lemma_linked_edge(n, m);
                }
            }
        }
    }
}

/// Looking at the open edges around the node being worked on keeps the
/// layers.
pub proof fn lemma_layered_enqueued(
    l: Lattice,
    from: Node,
    seen: Seq<bool>,
    queue: Seq<Edge>,
    depths: Seq<nat>,
    floor: nat,
    node: Node,
    count: int,
)
    requires
        l.wf(),
        l.contains(node),
        layered(l, from, seen, queue, depths, floor, Some(node)),
        0 <= count <= l.open_neighbours(node).len(),
    ensures
        ({
            let (marks, edges) = enqueued(seen, queue, l.width, l.open_neighbours(node), count);
            layered(l, from, marks, edges, depths, floor, Some(node))
        }),
    decreases count,
{
    if count > 0 {
        let w = l.width;
        let around = l.open_neighbours(node);
        lemma_layered_enqueued(l, from, seen, queue, depths, floor, node, count - 1);
        let (marks, edges) = enqueued(seen, queue, w, around, count - 1);
        let edge = around[count - 1];
        l.lemma_open_neighbours(node);
        if !seen_at(marks, w, edge.to) {
            lemma_layered_enqueue(l, from, marks, edges, depths, floor, node, edge);
        }
    }
}

/// Once every node linked to the one being worked on is seen, the work on
/// it is done.
pub proof fn lemma_layered_finish(
    l: Lattice,
    from: Node,
    seen: Seq<bool>,
    queue: Seq<Edge>,
    depths: Seq<nat>,
    floor: nat,
    node: Node,
)
    requires
        l.wf(),
        layered(l, from, seen, queue, depths, floor, Some(node)),
        forall|k: int|
            0 <= k < l.open_neighbours(node).len() ==> seen_at(
                seen,
                l.width,
                (#[trigger] l.open_neighbours(node)[k]).to,
            ),
    ensures
        layered(l, from, seen, queue, depths, floor, None),
{
    reveal(layered);
    let w = l.width;
    l.lemma_open_neighbours(node);
    assert forall|m: Node| #[trigger] l.linked(node, m) implies seen_at(seen, w, m) && depth_at(
        depths,
        w,
        m,
    ) <= depth_at(depths, w, node) + 1 by {
        let d = choose|d: Direction| (#[trigger] l.open_edge(node, d)) matches Some(e) && e.to == m;
        let e = l.open_edge(node, d).unwrap();
        let around = l.open_neighbours(node);
        assert(around.contains(e));
        let k = choose|k: int| 0 <= k < around.len() && around[k] == e;
        assert(seen_at(seen, w, around[k].to));
        let f = l.lemma_linked_edge(node, m);
    }
    assert(deep_links(l, seen, depths, node));
}

/// No walk from the node searched from comes to a seen node in fewer
/// edges than the node is deep, nor to a node not seen in no more edges
/// than the floor.
pub proof fn lemma_layered_walk(
    l: Lattice,
    from: Node,
    seen: Seq<bool>,
    queue: Seq<Edge>,
    depths: Seq<nat>,
    floor: nat,
    pending: Option<Node>,
    p: Seq<Node>,
)
    requires
        l.wf(),
        layered(l, from, seen, queue, depths, floor, pending),
        seen_at(seen, l.width, from),
        depth_at(depths, l.width, from) == 0,
        l.is_walk(p),
        p[0] == from,
    ensures
        seen_at(seen, l.width, p[p.len() - 1]) ==> depth_at(depths, l.width, p[p.len() - 1])
            <= p.len() - 1,
        !seen_at(seen, l.width, p[p.len() - 1]) ==> p.len() - 1 >= floor + 1,
    decreases p.len(),
{
    reveal(layered);
    let w = l.width;
    if p.len() > 1 {
        let q = p.drop_last();
        let x = p[p.len() - 1];
        let y = q[q.len() - 1];
        assert forall|i: int| 0 <= i < q.len() - 1 implies #[trigger] l.steps_at(q, i) by {
            assert(l.steps_at(p, i));
        }
        assert(l.is_walk(q));
        lemma_layered_walk(l, from, seen, queue, depths, floor, pending, q);
        assert(l.steps_at(p, p.len() - 2));
        assert(l.linked(y, x));
        let e = l.lemma_linked_edge(y, x);
        l.lemma_walk_contained(q, q.len() - 1);
        if seen_at(seen, w, y) {
            if among(queue, y) {
                let k = choose|k: int| 0 <= k < queue.len() && (#[trigger] queue[k]).to == y;
            } else if pending == Some(y) {
            } else {
                assert(deep_links(l, seen, depths, y));
            }
        }
    }
}

/// When the search comes to a dead end, the depth of that node is the
/// least number of open edges that lead to it, and no walk leads to any
/// dead end in fewer.
pub proof fn lemma_layered_nearest(
    l: Lattice,
    from: Node,
    seen: Seq<bool>,
    queue: Seq<Edge>,
    depths: Seq<nat>,
    floor: nat,
    node: Node,
)
    requires
        l.wf(),
        layered(l, from, seen, queue, depths, floor, Some(node)),
        searching(l, from, seen, queue.push(Edge { from: node, to: node, direction: Direction::North })),
        depth_at(depths, l.width, from) == 0,
    ensures
        l.is_distance(from, node, floor),
        l.no_dead_end_within(from, floor),
{
    let w = l.width;
    let marked = queue.push(Edge { from: node, to: node, direction: Direction::North });
    assert(seen_at(seen, w, from) && l.contains(from)) by {
        reveal(searching);
    }
    assert(l.leads_in(from, node, floor) && seen_at(seen, w, node)) by {
        reveal(layered);
    }
    assert forall|q: Seq<Node>|
        #[trigger] l.is_walk(q) && q[0] == from && q[q.len() - 1] == node implies q.len() >= floor
        + 1 by {
        lemma_layered_walk(l, from, seen, queue, depths, floor, Some(node), q);
        reveal(layered);
    }
    assert forall|q: Seq<Node>|
        #[trigger] l.is_walk(q) && q[0] == from && l.is_dead_end(
            q[q.len() - 1],
        ) implies q.len() >= floor + 1 by {
        let x = q[q.len() - 1];
        lemma_layered_walk(l, from, seen, queue, depths, floor, Some(node), q);
        l.lemma_walk_contained(q, q.len() - 1);
        if seen_at(seen, w, x) {
            assert(among(marked, x)) by {
                reveal(searching);
            }
            let k = choose|k: int| 0 <= k < marked.len() && (#[trigger] marked[k]).to == x;
            if k < queue.len() {
                assert(marked[k] == queue[k]);
                assert(floor <= depth_at(depths, w, queue[k].to)) by {
                    reveal(layered);
                }
            } else {
                assert(x == node);
                assert(depth_at(depths, w, node) == floor) by {
                    reveal(layered);
                }
            }
        }
    }
}

} // verus!
