//! The random choices that the algorithms make, drawn from a generator that
//! the caller hands in.

use vstd::prelude::*;
use rand::rngs::StdRng;
use rand::seq::IteratorRandom;
use rand::seq::SliceRandom;
use rand::Rng;
use crate::maze::lemma_cell_slot;
use crate::maze::lemma_slot_cell;
use crate::maze::Edge;
use crate::maze::Maze;
use crate::maze::MazeIndex;
use crate::maze::Node;

verus! {

/// The random number generator `rand::rngs::StdRng`. Nothing is known of the
/// numbers it yields.
#[verifier::external_type_specification]
#[verifier::external_body]
pub struct ExStdRng(StdRng);

/// Calls `rand::Rng::gen_range` on the range from zero up to, not including,
/// `bound`. The contract claims only that the number drawn lies in that
/// range; an empty range, on which `gen_range` panics, is left out.
#[verifier::external_body]
pub(crate) fn random_below(rng: &mut StdRng, bound: usize) -> (r: usize)
    requires
        bound > 0,
    ensures
        r < bound,
{
    rng.gen_range(0..bound)
}

/// Calls `rand::seq::SliceRandom::choose` on a slice of edges. The contract
/// claims that an empty slice gives nothing and that any other gives one of
/// its elements.
#[verifier::external_body]
pub(crate) fn random_edge(edges: &[Edge], rng: &mut StdRng) -> (r: Option<Edge>)
    ensures
        r is None <==> edges@.len() == 0,
        r matches Some(e) ==> exists|i: int| 0 <= i < edges@.len() && edges@[i] == e,
{
    edges.choose(rng).copied()
}

/// Calls `rand::seq::IteratorRandom::choose` on the nodes of a vector, in
/// order. The contract claims that an empty vector gives nothing and that any
/// other gives one of its elements.
#[verifier::external_body]
pub(crate) fn random_node_of(nodes: &Vec<Node>, rng: &mut StdRng) -> (r: Option<Node>)
    ensures
        r is None <==> nodes@.len() == 0,
        r matches Some(n) ==> exists|i: int| 0 <= i < nodes@.len() && nodes@[i] == n,
{
    nodes.iter().copied().choose(rng)
}

/// Calls `rand::seq::SliceRandom::shuffle` on a vector of edges. The contract
/// claims that the vector holds the same edges afterward, each as often as
/// before; nothing is claimed of their order.
#[verifier::external_body]
pub(crate) fn shuffle_edges(edges: &mut Vec<Edge>, rng: &mut StdRng)
    ensures
        final(edges)@.to_multiset() == old(edges)@.to_multiset(),
{
    edges.shuffle(rng)
}

impl Maze {
    /// Chooses a random node in the maze.
    pub fn random_node(&self, rng: &mut StdRng) -> (r: Node)
        requires
            self.width >= 1,
            self.height >= 1,
        ensures
            self.contains(r),
    {
        let x = random_below(rng, self.width);
        let y = random_below(rng, self.height);
        Node(x, y)
    }

    /// Chooses a random node meeting some predicate, if there is one.
    pub fn random_node_where<F: Fn(Node) -> bool>(&self, predicate: F, rng: &mut StdRng) -> (r:
        Option<Node>)
        requires
            self.width >= 1,
            forall|n: Node| self.contains(n) ==> call_requires(predicate, (n,)),
        ensures
            r matches Some(n) ==> self.contains(n) && call_ensures(predicate, (n,), true),
            r is None ==> forall|n: Node|
                self.contains(n) ==> call_ensures(predicate, (n,), false),
    {
        let nodes = self.nodes_iter();
        let mut candidates: Vec<Node> = Vec::new();
        let mut i: usize = 0;
        while i < nodes.len()
            invariant
                self.width >= 1,
                i <= nodes.len(),
                nodes@ == Node::spec_iter(self.width, self.height),
                forall|n: Node| self.contains(n) ==> call_requires(predicate, (n,)),
                forall|j: int|
                    0 <= j < candidates@.len() ==> self.contains(#[trigger] candidates@[j])
                        && call_ensures(predicate, (candidates@[j],), true),
                candidates@.len() == 0 ==> forall|j: int|
                    0 <= j < i ==> call_ensures(predicate, (#[trigger] nodes@[j],), false),
            decreases nodes.len() - i,
        {
            let node = nodes[i];
            proof {
                assert(nodes@.len() == self.width * self.height);
                lemma_slot_cell(i as int, self.width as int, self.height as int);
                assert(node == Node(
                    (i as int % self.width as int) as usize,
                    (i as int / self.width as int) as usize,
                ));
                assert(self.contains(node));
            }
            if predicate(node) {
                candidates.push(node);
            }
            i += 1;
        }
        let chosen = random_node_of(&candidates, rng);
        proof {
            if chosen is None {
                assert forall|n: Node| self.contains(n) implies call_ensures(
                    predicate,
                    (n,),
                    false,
                ) by {
                    lemma_cell_slot(
                        n.0 as int,
                        n.1 as int,
                        self.width as int,
                        self.height as int,
                    );
                    assert(nodes@[n.0 + n.1 * self.width] == n);
                }
            }
        }
        chosen
    }
}

} // verus!
