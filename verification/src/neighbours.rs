//! The edges around one node, held in a list of at most four.

use vstd::prelude::*;
use arrayvec::ArrayVec;
use rand::rngs::StdRng;
use crate::lattice::one_or_none;
use crate::maze::Direction;
use crate::maze::Edge;
use crate::maze::Maze;
use crate::maze::MazeIndex;
use crate::maze::Node;
use crate::random::random_edge;

verus! {

/// The fixed-capacity vector `arrayvec::ArrayVec`.
#[verifier::external_type_specification]
#[verifier::external_body]
#[verifier::reject_recursive_types(T)]
pub struct ExArrayVec<T, const CAP: usize>(ArrayVec<T, CAP>);

/// The edges that a list of capacity four holds, first to last.
pub uninterp spec fn listed(list: ArrayVec<Edge, 4>) -> Seq<Edge>;

/// Calls `ArrayVec::new`: the new list holds nothing.
#[verifier::external_body]
fn list_new() -> (r: ArrayVec<Edge, 4>)
    ensures
        listed(r) == Seq::<Edge>::empty(),
{
    ArrayVec::new()
}

/// Calls `ArrayVec::push`, which appends the edge. It panics on a full list,
/// so a list of four is left out.
#[verifier::external_body]
fn list_push(list: &mut ArrayVec<Edge, 4>, edge: Edge)
    requires
        listed(*old(list)).len() < 4,
    ensures
        listed(*final(list)) == listed(*old(list)).push(edge),
{
    list.push(edge)
}

/// Calls `ArrayVec::len`: the number of edges held, never above the capacity.
#[verifier::external_body]
fn list_len(list: &ArrayVec<Edge, 4>) -> (r: usize)
    ensures
        r == listed(*list).len(),
        r <= 4,
{
    list.len()
}

/// Calls `ArrayVec::as_slice`: the edges held, in order.
#[verifier::external_body]
fn list_as_slice(list: &ArrayVec<Edge, 4>) -> (r: &[Edge])
    ensures
        r@ == listed(*list),
{
    list.as_slice()
}

impl Maze {
    /// The edges from a node to its neighbours within the maze, clockwise
    /// from north.
    pub open spec fn spec_neighbours(&self, node: Node) -> Seq<Edge> {
        self@.neighbours(node)
    }

    /// The open edges from a node to its neighbours, clockwise from north.
    pub open spec fn spec_open_neighbours(&self, node: Node) -> Seq<Edge> {
        self@.open_neighbours(node)
    }

    /// Returns a list of all neighbours to a node.
    pub fn neighbours(&self, node: Node) -> (r: Neighbours<true>)
        ensures
            r@ == self.spec_neighbours(node),
    {
        let mut list = list_new();
        let mut i: usize = 0;
        while i < 4
            invariant
                i <= 4,
                listed(list).len() <= i,
                listed(list) == self.neighbours_upto(node, i as int),
            decreases 4 - i,
        {
            let direction = Direction::ALL[i];
            assert(direction == Self::clockwise_from_north(i as int));
            if let Some(edge) = self.edge(node, direction) {
                list_push(&mut list, edge);
            }
            i += 1;
            assert(listed(list) =~= self.neighbours_upto(node, i as int));
        }
        assert(listed(list) =~= self.spec_neighbours(node)) by {
            reveal_with_fuel(Maze::neighbours_upto, 5);
        }
        Neighbours(list)
    }

    /// Returns a list of all accessible neighbours to a node: those behind an open edge.
    pub fn open_neighbours(&self, node: Node) -> (r: Neighbours<false>)
        requires
            self.wf(),
            self.contains(node),
        ensures
            r@ == self.spec_open_neighbours(node),
    {
        let mut list = list_new();
        let mut i: usize = 0;
        while i < 4
            invariant
                self.wf(),
                self.contains(node),
                i <= 4,
                listed(list).len() <= i,
                listed(list) == self.open_neighbours_upto(node, i as int),
            decreases 4 - i,
        {
            let direction = Direction::ALL[i];
            assert(direction == Self::clockwise_from_north(i as int));
            if let Some(edge) = self.edge(node, direction) {
                proof {
                    self.open.lemma_covers(edge, self.width, self.height);
                }
                if *self.open.get(edge) {
                    list_push(&mut list, edge);
                }
            }
            i += 1;
            assert(listed(list) =~= self.open_neighbours_upto(node, i as int));
        }
        assert(listed(list) =~= self.spec_open_neighbours(node)) by {
            reveal_with_fuel(Maze::open_neighbours_upto, 5);
        }
        Neighbours(list)
    }

    /// The direction at a position of [`Direction::ALL`].
    pub open spec fn clockwise_from_north(i: int) -> Direction {
        if i == 0 {
            Direction::North
        } else if i == 1 {
            Direction::East
        } else if i == 2 {
            Direction::South
        } else {
            Direction::West
        }
    }

    /// The neighbour edges in the first `count` directions.
    pub open spec fn neighbours_upto(&self, node: Node, count: int) -> Seq<Edge>
        decreases count,
    {
        if count <= 0 {
            Seq::<Edge>::empty()
        } else {
            self.neighbours_upto(node, count - 1) + one_or_none(
                self.spec_edge(node, Self::clockwise_from_north(count - 1)),
            )
        }
    }

    /// The open neighbour edges in the first `count` directions.
    pub open spec fn open_neighbours_upto(&self, node: Node, count: int) -> Seq<Edge>
        decreases count,
    {
        if count <= 0 {
            Seq::<Edge>::empty()
        } else {
            self.open_neighbours_upto(node, count - 1) + one_or_none(
                self@.open_edge(node, Self::clockwise_from_north(count - 1)),
            )
        }
    }
}

/// Filtering by two predicates that agree on every element gives the same.
pub proof fn lemma_filter_agree(
    s: Seq<Edge>,
    p: spec_fn(Edge) -> bool,
    q: spec_fn(Edge) -> bool,
)
    requires
        forall|i: int| 0 <= i < s.len() ==> p(#[trigger] s[i]) == q(s[i]),
    ensures
        s.filter(p) == s.filter(q),
    decreases s.len(),
{
    reveal(Seq::filter);
    if s.len() > 0 {
        lemma_filter_agree(s.drop_last(), p, q);
    }
}

/// Filtering edges of which no two lead to the same node leaves edges of
/// which no two do.
pub proof fn lemma_filter_distinct_ends(s: Seq<Edge>, p: spec_fn(Edge) -> bool)
    requires
        forall|i: int, j: int|
            0 <= i < j < s.len() ==> (#[trigger] s[i]).to != (#[trigger] s[j]).to,
    ensures
        forall|i: int, j: int|
            0 <= i < j < s.filter(p).len() ==> (#[trigger] s.filter(p)[i]).to != (
            #[trigger] s.filter(p)[j]).to,
    decreases s.len(),
{
    reveal(Seq::filter);
    if s.len() > 0 {
        let rest = s.drop_last();
        let last = s[s.len() - 1];
        assert forall|i: int, j: int| 0 <= i < j < rest.len() implies (#[trigger] rest[i]).to != (
        #[trigger] rest[j]).to by {
            assert(rest[i] == s[i] && rest[j] == s[j]);
        }
        lemma_filter_distinct_ends(rest, p);
        let kept = rest.filter(p);
        assert forall|i: int, j: int| 0 <= i < j < s.filter(p).len() implies (
        #[trigger] s.filter(p)[i]).to != (#[trigger] s.filter(p)[j]).to by {
            if j == kept.len() {
                let e = kept[i];
                assert(kept.contains(e));
                rest.lemma_filter_contains_rev(p, e);
                let k = choose|k: int| 0 <= k < rest.len() && rest[k] == e;
                assert(s[k] == e);
            } else {
                assert(s.filter(p)[i] == kept[i] && s.filter(p)[j] == kept[j]);
            }
        }
    }
}

/// List of neighbours to a [`Node`].
///
/// The type state `NON_EMPTY` marks a list that came unfiltered from
/// [`Maze::neighbours`]; in a maze of two or more nodes such a list is never empty.
pub struct Neighbours<const NON_EMPTY: bool>(ArrayVec<Edge, 4>);

impl<const NON_EMPTY: bool> Neighbours<NON_EMPTY> {
    /// The edges of the list, in order.
    pub closed spec fn view(&self) -> Seq<Edge> {
        listed(self.0)
    }

    /// Removes all neighbours not meeting the predicate.
    ///
    /// The predicate is asked about the far end of each edge, and its
    /// contract must settle the answer for each.
    pub fn filter<F: Fn(Node) -> bool>(self, predicate: F) -> (r: Neighbours<false>)
        requires
            forall|i: int|
                0 <= i < self@.len() ==> call_requires(predicate, ((#[trigger] self@[i]).to,)),
            forall|i: int|
                0 <= i < self@.len() ==> !(call_ensures(predicate, ((#[trigger] self@[i]).to,), true)
                    && call_ensures(predicate, (self@[i].to,), false)),
        ensures
            r@ == self@.filter(|e: Edge| call_ensures(predicate, (e.to,), true)),
            forall|i: int|
                0 <= i < self@.len() ==> call_ensures(
                    predicate,
                    ((#[trigger] self@[i]).to,),
                    r@.contains(self@[i]),
                ),
    {
        let ghost keep = |e: Edge| call_ensures(predicate, (e.to,), true);
        let mut list = list_new();
        let count = list_len(&self.0);
        let mut i: usize = 0;
        while i < count
            invariant
                count == self@.len(),
                count <= 4,
                i <= count,
                listed(list).len() <= i,
                keep == |e: Edge| call_ensures(predicate, (e.to,), true),
                listed(list) == self@.take(i as int).filter(keep),
                forall|j: int|
                    0 <= j < i ==> call_ensures(predicate, ((#[trigger] self@[j]).to,), true)
                        || call_ensures(predicate, (self@[j].to,), false),
                forall|i: int|
                    0 <= i < self@.len() ==> call_requires(predicate, ((#[trigger] self@[i]).to,)),
                forall|i: int|
                    0 <= i < self@.len() ==> !(call_ensures(
                        predicate,
                        ((#[trigger] self@[i]).to,),
                        true,
                    ) && call_ensures(predicate, (self@[i].to,), false)),
            decreases count - i,
        {
            let edge = list_as_slice(&self.0)[i];
            assert(edge == self@[i as int]);
            proof {
                self@.lemma_take_succ_push(i as int);
                self@.take(i as int).lemma_filter_push(edge, keep);
            }
            if predicate(edge.to) {
                list_push(&mut list, edge);
            }
            i += 1;
        }
        assert(self@.take(count as int) =~= self@);
        proof {
            assert forall|i: int| 0 <= i < self@.len() implies call_ensures(
                predicate,
                ((#[trigger] self@[i]).to,),
                listed(list).contains(self@[i]),
            ) by {
                if keep(self@[i]) {
                    self@.lemma_filter_contains(keep, i);
                } else if listed(list).contains(self@[i]) {
                    let j = choose|j: int| 0 <= j < listed(list).len() && listed(list)[j] == self@[i];
                    self@.lemma_filter_pred(keep, j);
                }
            }
        }
        Neighbours(list)
    }

    /// Gets the number of neighbours.
    pub fn len(&self) -> (r: usize)
        ensures
            r == self@.len(),
            r <= 4,
    {
        list_len(&self.0)
    }

    /// Gets the neighbour at a position of the list.
    pub fn get(&self, index: usize) -> (r: Edge)
        requires
            index < self@.len(),
        ensures
            r == self@[index as int],
    {
        list_as_slice(&self.0)[index]
    }
}

impl Neighbours<true> {
    /// Chooses a random neighbour from the non-empty list.
    pub fn pick(&self, rng: &mut StdRng) -> (r: Edge)
        requires
            self@.len() > 0,
        ensures
            self@.contains(r),
    {
        random_edge(list_as_slice(&self.0), rng).unwrap()
    }
}

impl Neighbours<false> {
    /// Chooses a random (possibly filtered) neighbour, if one exists.
    pub fn pick(&self, rng: &mut StdRng) -> (r: Option<Edge>)
        ensures
            r is None <==> self@.len() == 0,
            r matches Some(e) ==> self@.contains(e),
    {
        random_edge(list_as_slice(&self.0), rng)
    }
}

} // verus!
