//! The parents that a search notes: how they lead every node that has been
//! reached back to the start.

use vstd::prelude::*;
use crate::lattice::Lattice;
use crate::maze::lemma_node_slots_differ;
use crate::maze::Edge;
use crate::maze::MazeIndex;
use crate::maze::Node;
use crate::state::Snapshot;

verus! {

/// The parent noted for a node.
pub open spec fn parent_at(parents: Seq<Option<Node>>, width: usize, node: Node) -> Option<Node> {
    parents[node.spec_normalise(width)]
}

/// The depth given to a node.
pub open spec fn depth_at(depths: Seq<nat>, width: usize, node: Node) -> nat {
    depths[node.spec_normalise(width)]
}

/// Whether the parent of a node, if it has one and is not the start, leads
/// toward the start: the node is linked to it and lies one deeper than it,
/// and the parent is the start or has a parent itself.
pub open spec fn ranked_at(
    l: Lattice,
    parents: Seq<Option<Node>>,
    start: Node,
    depths: Seq<nat>,
    node: Node,
) -> bool {
    node != start && parent_at(parents, l.width, node) is Some ==> {
        let p = parent_at(parents, l.width, node).unwrap();
        &&& l.linked(p, node)
        &&& depth_at(depths, l.width, node) == depth_at(depths, l.width, p) + 1
        &&& (p == start || parent_at(parents, l.width, p) is Some)
    }
}

/// Whether the parents lead toward the start, each node lying one deeper
/// than its parent and the start at depth zero.
pub open spec fn ranked(
    l: Lattice,
    parents: Seq<Option<Node>>,
    start: Node,
    depths: Seq<nat>,
) -> bool {
    &&& depths.len() == l.width * l.height
    &&& depth_at(depths, l.width, start) == 0
    &&& forall|n: Node| l.contains(n) ==> #[trigger] ranked_at(l, parents, start, depths, n)
}

/// The node reached from `node` by following the parents `steps` times, or
/// until the start is reached.
pub open spec fn ancestor(
    parents: Seq<Option<Node>>,
    width: usize,
    start: Node,
    node: Node,
    steps: nat,
) -> Node
    decreases steps,
{
    if steps == 0 || node == start {
        node
    } else {
        match parent_at(parents, width, node) {
            Some(p) => ancestor(parents, width, start, p, (steps - 1) as nat),
            None => node,
        }
    }
}

/// The nodes passed from `node` by following the parents `steps` times, the
/// node itself first.
pub open spec fn lineage(
    parents: Seq<Option<Node>>,
    width: usize,
    start: Node,
    node: Node,
    steps: nat,
) -> Seq<Node>
    decreases steps,
{
    if steps == 0 {
        seq![node]
    } else {
        seq![node] + lineage(
            parents,
            width,
            start,
            ancestor(parents, width, start, node, 1),
            (steps - 1) as nat,
        )
    }
}

/// A node that is the start or has a parent comes to the start after as
/// many steps along the parents as it is deep, and not before; the nodes
/// that it passes on the way form a walk, each one less deep than the one
/// before.
pub proof fn lemma_lineage(
    l: Lattice,
    parents: Seq<Option<Node>>,
    start: Node,
    depths: Seq<nat>,
    node: Node,
)
    requires
        l.wf(),
        ranked(l, parents, start, depths),
        l.contains(node),
        l.contains(start),
        node == start || parent_at(parents, l.width, node) is Some,
    ensures
        ancestor(parents, l.width, start, node, depth_at(depths, l.width, node)) == start,
        forall|j: nat|
            j < depth_at(depths, l.width, node) ==> #[trigger] ancestor(
                parents,
                l.width,
                start,
                node,
                j,
            ) != start,
        ({
            let path = lineage(parents, l.width, start, node, depth_at(depths, l.width, node));
            &&& path.len() == depth_at(depths, l.width, node) + 1
            &&& path[0] == node
            &&& path[path.len() - 1] == start
            &&& l.is_walk(path)
            &&& forall|i: int|
                0 <= i < path.len() ==> l.contains(#[trigger] path[i]) && depth_at(
                    depths,
                    l.width,
                    path[i],
                ) == depth_at(depths, l.width, node) - i
        }),
    decreases depth_at(depths, l.width, node),
{
    let w = l.width;
    let d = depth_at(depths, w, node);
    let path = lineage(parents, w, start, node, d);
    if node == start {
        assert(path =~= seq![node]);
    } else {
        let p = parent_at(parents, w, node).unwrap();
        assert(ranked_at(l, parents, start, depths, node));
        assert(l.linked(p, node));
        let e = l.lemma_linked_edge(p, node);
        l.lemma_linked_symmetric(p, node);
        lemma_lineage(l, parents, start, depths, p);
        let rest = lineage(parents, w, start, p, (d - 1) as nat);
        assert(ancestor(parents, w, start, node, 1) == p) by {
            reveal_with_fuel(ancestor, 2);
        }
        assert(path =~= seq![node] + rest);
        assert forall|j: nat| j < d implies #[trigger] ancestor(parents, w, start, node, j)
            != start by {
            if j > 0 {
                assert(ancestor(parents, w, start, node, j) == ancestor(
                    parents,
                    w,
                    start,
                    p,
                    (j - 1) as nat,
                ));
            }
        }
        assert forall|i: int| 0 <= i < path.len() - 1 implies #[trigger] l.steps_at(path, i) by {
            if i == 0 {
                assert(path[1] == rest[0]);
            } else {
                assert(path[i] == rest[i - 1]);
                assert(path[i + 1] == rest[i]);
                assert(l.steps_at(rest, i - 1));
            }
        }
        assert forall|i: int| 0 <= i < path.len() implies l.contains(#[trigger] path[i])
            && depth_at(depths, w, path[i]) == d - i by {
            if i > 0 {
                assert(path[i] == rest[i - 1]);
            }
        }
    }
}

/// Whether what is noted of a node shows the way toward the start: its
/// parent, if it has one, leads toward the start and is visited; it has
/// a parent if it is visited; and it lies no deeper than the number of
/// nodes visited before it.
pub open spec fn traced_at(
    s: Snapshot,
    parents: Seq<Option<Node>>,
    start: Node,
    depths: Seq<nat>,
    node: Node,
) -> bool {
    let w = s.maze.width;
    let p = parent_at(parents, w, node);
    &&& ranked_at(s.maze, parents, start, depths, node)
    &&& (node != start && p is Some ==> s.is_visited(p.unwrap()))
    &&& (node != start && s.is_visited(node) ==> p is Some)
    &&& (node == start || p is Some ==> depth_at(depths, w, node) + (if s.is_visited(node) {
        1int
    } else {
        0int
    }) <= s.visited_count)
}

/// Whether `depths` shows that the parents lead from every node that has
/// been reached to the start.
pub open spec fn traced(
    s: Snapshot,
    parents: Seq<Option<Node>>,
    start: Node,
    depths: Seq<nat>,
) -> bool {
    &&& depths.len() == s.maze.width * s.maze.height
    &&& depth_at(depths, s.maze.width, start) == 0
    &&& forall|n: Node| s.maze.contains(n) ==> #[trigger] traced_at(s, parents, start, depths, n)
}

/// What is traced is ranked.
pub proof fn lemma_traced_ranked(
    s: Snapshot,
    parents: Seq<Option<Node>>,
    start: Node,
    depths: Seq<nat>,
)
    requires
        traced(s, parents, start, depths),
    ensures
        ranked(s.maze, parents, start, depths),
{
    assert forall|n: Node| s.maze.contains(n) implies #[trigger] ranked_at(
        s.maze,
        parents,
        start,
        depths,
        n,
    ) by {
        assert(traced_at(s, parents, start, depths, n));
    }
}

/// Visiting a node that has been reached keeps what is traced.
pub proof fn lemma_traced_visit(
    s: Snapshot,
    parents: Seq<Option<Node>>,
    start: Node,
    depths: Seq<nat>,
    node: Node,
)
    requires
        s.wf(),
        traced(s, parents, start, depths),
        s.maze.contains(node),
        node == start || parent_at(parents, s.maze.width, node) is Some,
    ensures
        traced(s.visit(node), parents, start, depths),
{
    let after = s.visit(node);
    s.lemma_set_age(node, 0);
    assert(traced_at(s, parents, start, depths, node));
    assert forall|n: Node| after.maze.contains(n) implies #[trigger] traced_at(
        after,
        parents,
        start,
        depths,
        n,
    ) by {
        assert(traced_at(s, parents, start, depths, n));
        let p = parent_at(parents, s.maze.width, n);
        if n != start && p is Some {
            let e = s.maze.lemma_linked_edge(p.unwrap(), n);
        }
    }
}

/// Ageing keeps what is traced.
pub proof fn lemma_traced_aged(
    s: Snapshot,
    parents: Seq<Option<Node>>,
    start: Node,
    depths: Seq<nat>,
)
    requires
        s.wf(),
        traced(s, parents, start, depths),
    ensures
        traced(s.aged(), parents, start, depths),
{
    let after = s.aged();
    s.lemma_aged();
    assert forall|n: Node| after.maze.contains(n) implies #[trigger] traced_at(
        after,
        parents,
        start,
        depths,
        n,
    ) by {
        assert(traced_at(s, parents, start, depths, n));
        let p = parent_at(parents, s.maze.width, n);
        if n != start && p is Some {
            let e = s.maze.lemma_linked_edge(p.unwrap(), n);
        }
    }
}

/// The parents after `child` has been given `parent`, where it had none.
pub open spec fn noted(
    parents: Seq<Option<Node>>,
    width: usize,
    child: Node,
    parent: Node,
) -> Seq<Option<Node>> {
    if parent_at(parents, width, child) is None {
        parents.update(child.spec_normalise(width), Some(parent))
    } else {
        parents
    }
}

/// Giving the far end of an open edge its near end as parent, one deeper,
/// keeps what is traced, where the near end is visited and reached and the
/// far end is the start or not visited.
pub proof fn lemma_traced_note(
    s: Snapshot,
    parents: Seq<Option<Node>>,
    start: Node,
    depths: Seq<nat>,
    edge: Edge,
)
    requires
        s.wf(),
        parents.len() == s.maze.width * s.maze.height,
        traced(s, parents, start, depths),
        s.maze.contains(start),
        edge.in_maze(s.maze.width, s.maze.height),
        s.maze.is_open(edge),
        s.is_visited(edge.from),
        edge.from == start || parent_at(parents, s.maze.width, edge.from) is Some,
        edge.to == start || !s.is_visited(edge.to),
    ensures
        traced(
            s,
            parents.update(edge.to.spec_normalise(s.maze.width), Some(edge.from)),
            start,
            if edge.to == start {
                depths
            } else {
                depths.update(
                    edge.to.spec_normalise(s.maze.width),
                    depth_at(depths, s.maze.width, edge.from) + 1,
                )
            },
        ),
        forall|n: Node|
            s.maze.contains(n) ==> parent_at(
                parents.update(edge.to.spec_normalise(s.maze.width), Some(edge.from)),
                s.maze.width,
                n,
            ) == if n == edge.to {
                Some(edge.from)
            } else {
                parent_at(parents, s.maze.width, n)
            },
{
    let w = s.maze.width;
    let h = s.maze.height;
    let l = s.maze;
    let child = edge.to;
    let noted = parents.update(child.spec_normalise(w), Some(edge.from));
    let deeper = depths.update(child.spec_normalise(w), depth_at(depths, w, edge.from) + 1);
    let marks = if child == start {
        depths
    } else {
        deeper
    };
    child.lemma_slot_in_bounds(w, h);
    l.lemma_open_edge_links(edge);
    assert forall|n: Node| l.contains(n) implies parent_at(noted, w, n) == (if n == child {
        Some(edge.from)
    } else {
        parent_at(parents, w, n)
    }) && depth_at(deeper, w, n) == (if n == child {
        depth_at(depths, w, edge.from) + 1
    } else {
        depth_at(depths, w, n)
    }) by {
        n.lemma_slot_in_bounds(w, h);
        if n != child && n.spec_normalise(w) == child.spec_normalise(w) {
            lemma_node_slots_differ(n, child, w, h);
        }
    }
    assert(traced_at(s, parents, start, depths, edge.from));
    assert forall|n: Node| l.contains(n) implies #[trigger] traced_at(s, noted, start, marks, n) by {
        assert(traced_at(s, parents, start, depths, n));
        if n == child {
        } else {
            let p = parent_at(parents, w, n);
            if n != start && p is Some {
                let e = l.lemma_linked_edge(p.unwrap(), n);
                l.lemma_linked_symmetric(p.unwrap(), n);
                assert(p.unwrap() != child || child == start);
            }
        }
    }
}

/// Giving a visited node another parent at the same depth as the one it
/// had keeps what is traced, and so does giving the start a parent.
pub proof fn lemma_traced_renote(
    s: Snapshot,
    parents: Seq<Option<Node>>,
    start: Node,
    depths: Seq<nat>,
    edge: Edge,
)
    requires
        s.wf(),
        parents.len() == s.maze.width * s.maze.height,
        traced(s, parents, start, depths),
        s.maze.contains(start),
        s.maze.contains(edge.to),
        edge.to == start || {
            &&& edge.in_maze(s.maze.width, s.maze.height)
            &&& s.maze.is_open(edge)
            &&& s.is_visited(edge.from)
            &&& (edge.from == start || parent_at(parents, s.maze.width, edge.from) is Some)
            &&& s.is_visited(edge.to)
            &&& depth_at(depths, s.maze.width, edge.to) == depth_at(
                depths,
                s.maze.width,
                edge.from,
            ) + 1
        },
    ensures
        traced(
            s,
            parents.update(edge.to.spec_normalise(s.maze.width), Some(edge.from)),
            start,
            depths,
        ),
        forall|n: Node|
            s.maze.contains(n) ==> parent_at(
                parents.update(edge.to.spec_normalise(s.maze.width), Some(edge.from)),
                s.maze.width,
                n,
            ) == if n == edge.to {
                Some(edge.from)
            } else {
                parent_at(parents, s.maze.width, n)
            },
{
    let w = s.maze.width;
    let h = s.maze.height;
    let l = s.maze;
    let child = edge.to;
    let noted = parents.update(child.spec_normalise(w), Some(edge.from));
    child.lemma_slot_in_bounds(w, h);
    if child != start {
        l.lemma_open_edge_links(edge);
    }
    assert forall|n: Node| l.contains(n) implies parent_at(noted, w, n) == (if n == child {
        Some(edge.from)
    } else {
        parent_at(parents, w, n)
    }) by {
        n.lemma_slot_in_bounds(w, h);
        if n != child && n.spec_normalise(w) == child.spec_normalise(w) {
            lemma_node_slots_differ(n, child, w, h);
        }
    }
    assert(traced_at(s, parents, start, depths, child));
    assert forall|n: Node| l.contains(n) implies #[trigger] traced_at(s, noted, start, depths, n) by {
        assert(traced_at(s, parents, start, depths, n));
        if n != child {
            let p = parent_at(parents, w, n);
            if n != start && p is Some {
                let e = l.lemma_linked_edge(p.unwrap(), n);
                l.lemma_linked_symmetric(p.unwrap(), n);
            }
        }
    }
}

/// Following the parents one step further from a node that is not the start
/// comes to the parent of that node.
pub proof fn lemma_ancestor_next(
    parents: Seq<Option<Node>>,
    width: usize,
    start: Node,
    node: Node,
    steps: nat,
)
    ensures
        ancestor(parents, width, start, node, steps + 1) == ({
            let here = ancestor(parents, width, start, node, steps);
            if here == start {
                start
            } else {
                match parent_at(parents, width, here) {
                    Some(p) => p,
                    None => here,
                }
            }
        }),
    decreases steps,
{
    reveal_with_fuel(ancestor, 2);
    if steps > 0 && node != start {
        match parent_at(parents, width, node) {
            Some(p) => {
                lemma_ancestor_next(parents, width, start, p, (steps - 1) as nat);
            },
            None => {},
        }
    }
}

/// In a maze without cycles, the way back from a node along the parents is
/// a shortest way to the start: it takes as many steps as the node is deep,
/// and no walk between the node and the start takes fewer.
pub proof fn lemma_way_back_is_shortest(
    s: Snapshot,
    parents: Seq<Option<Node>>,
    start: Node,
    depths: Seq<nat>,
    node: Node,
)
    requires
        s.wf(),
        s.maze.acyclic(),
        traced(s, parents, start, depths),
        s.maze.contains(start),
        s.maze.contains(node),
        node == start || parent_at(parents, s.maze.width, node) is Some,
    ensures
        ancestor(parents, s.maze.width, start, node, depth_at(depths, s.maze.width, node)) == start,
        forall|j: nat|
            j < depth_at(depths, s.maze.width, node) ==> #[trigger] ancestor(
                parents,
                s.maze.width,
                start,
                node,
                j,
            ) != start,
        s.maze.is_distance(node, start, depth_at(depths, s.maze.width, node)),
        s.maze.is_distance(start, node, depth_at(depths, s.maze.width, node)),
{
    let l = s.maze;
    let w = l.width;
    let d = depth_at(depths, w, node);
    lemma_traced_ranked(s, parents, start, depths);
    lemma_lineage(l, parents, start, depths, node);
    let path = lineage(parents, w, start, node, d);
    assert forall|i: int, j: int|
        0 <= i < path.len() && 0 <= j < path.len() && i != j implies path[i] != path[j] by {
        assert(depth_at(depths, w, path[i]) == d - i);
        assert(depth_at(depths, w, path[j]) == d - j);
    }
    l.lemma_path_is_shortest(path);
    l.lemma_distance_symmetric(node, start, d);
}

/// Every node on the way back from a visited node is visited.
pub proof fn lemma_way_back_visited(
    s: Snapshot,
    parents: Seq<Option<Node>>,
    start: Node,
    depths: Seq<nat>,
    node: Node,
)
    requires
        s.wf(),
        traced(s, parents, start, depths),
        s.maze.contains(start),
        s.maze.contains(node),
        s.is_visited(node),
        node == start || parent_at(parents, s.maze.width, node) is Some,
    ensures
        forall|i: int|
            0 <= i <= depth_at(depths, s.maze.width, node) ==> s.is_visited(
                #[trigger] lineage(
                    parents,
                    s.maze.width,
                    start,
                    node,
                    depth_at(depths, s.maze.width, node),
                )[i],
            ),
    decreases depth_at(depths, s.maze.width, node),
{
    let l = s.maze;
    let w = l.width;
    let d = depth_at(depths, w, node);
    let path = lineage(parents, w, start, node, d);
    lemma_traced_ranked(s, parents, start, depths);
    lemma_lineage(l, parents, start, depths, node);
    if node != start {
        let p = parent_at(parents, w, node).unwrap();
        assert(traced_at(s, parents, start, depths, node));
        let e = l.lemma_linked_edge(p, node);
        lemma_way_back_visited(s, parents, start, depths, p);
        lemma_lineage(l, parents, start, depths, p);
        let rest = lineage(parents, w, start, p, (d - 1) as nat);
        assert(ancestor(parents, w, start, node, 1) == p) by {
            reveal_with_fuel(ancestor, 2);
        }
        assert(path =~= seq![node] + rest);
        assert forall|i: int| 0 <= i <= d implies s.is_visited(#[trigger] path[i]) by {
            if i > 0 {
                assert(path[i] == rest[i - 1]);
            }
        }
    } else {
        assert(path =~= seq![node]);
    }
}

/// In a maze without cycles, a node that is not visited is linked to at
/// most one visited node that has been reached.
pub proof fn lemma_one_way_in(
    s: Snapshot,
    parents: Seq<Option<Node>>,
    start: Node,
    depths: Seq<nat>,
    node: Node,
    a: Node,
    b: Node,
)
    requires
        s.wf(),
        s.maze.acyclic(),
        traced(s, parents, start, depths),
        s.maze.contains(start),
        !s.is_visited(node),
        s.maze.linked(a, node),
        s.maze.linked(b, node),
        s.is_visited(a),
        s.is_visited(b),
        a == start || parent_at(parents, s.maze.width, a) is Some,
        b == start || parent_at(parents, s.maze.width, b) is Some,
    ensures
        a == b,
{
    let l = s.maze;
    let w = l.width;
    let ea = l.lemma_linked_edge(a, node);
    let eb = l.lemma_linked_edge(b, node);
    l.lemma_linked_symmetric(a, node);
    l.lemma_linked_symmetric(b, node);
    lemma_traced_ranked(s, parents, start, depths);
    lemma_lineage(l, parents, start, depths, a);
    lemma_lineage(l, parents, start, depths, b);
    lemma_way_back_visited(s, parents, start, depths, a);
    lemma_way_back_visited(s, parents, start, depths, b);
    let ta = lineage(parents, w, start, a, depth_at(depths, w, a));
    let tb = lineage(parents, w, start, b, depth_at(depths, w, b));
    let pa = seq![node] + ta;
    let pb = seq![node] + tb;
    assert forall|i: int| 0 <= i < pa.len() - 1 implies #[trigger] l.steps_at(pa, i) by {
        if i > 0 {
            assert(pa[i] == ta[i - 1] && pa[i + 1] == ta[i]);
            assert(l.steps_at(ta, i - 1));
        } else {
            assert(pa[1] == ta[0]);
        }
    }
    assert forall|i: int| 0 <= i < pb.len() - 1 implies #[trigger] l.steps_at(pb, i) by {
        if i > 0 {
            assert(pb[i] == tb[i - 1] && pb[i + 1] == tb[i]);
            assert(l.steps_at(tb, i - 1));
        } else {
            assert(pb[1] == tb[0]);
        }
    }
    assert forall|i: int, j: int|
        0 <= i < pa.len() && 0 <= j < pa.len() && i != j implies pa[i] != pa[j] by {
        if i > 0 {
            assert(pa[i] == ta[i - 1]);
            assert(s.is_visited(ta[i - 1]));
            assert(depth_at(depths, w, ta[i - 1]) == depth_at(depths, w, a) - (i - 1));
        }
        if j > 0 {
            assert(pa[j] == ta[j - 1]);
            assert(s.is_visited(ta[j - 1]));
            assert(depth_at(depths, w, ta[j - 1]) == depth_at(depths, w, a) - (j - 1));
        }
    }
    assert forall|i: int, j: int|
        0 <= i < pb.len() && 0 <= j < pb.len() && i != j implies pb[i] != pb[j] by {
        if i > 0 {
            assert(pb[i] == tb[i - 1]);
            assert(s.is_visited(tb[i - 1]));
            assert(depth_at(depths, w, tb[i - 1]) == depth_at(depths, w, b) - (i - 1));
        }
        if j > 0 {
            assert(pb[j] == tb[j - 1]);
            assert(s.is_visited(tb[j - 1]));
            assert(depth_at(depths, w, tb[j - 1]) == depth_at(depths, w, b) - (j - 1));
        }
    }
    assert(pa[pa.len() - 1] == ta[ta.len() - 1]);
    assert(pb[pb.len() - 1] == tb[tb.len() - 1]);
    l.lemma_paths_agree(pa, pb);
    assert(pa[1] == ta[0] && pb[1] == tb[0]);
}

} // verus!
