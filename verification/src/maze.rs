//! The lattice: nodes, directions, edges, and dense buffers indexed by them.

use vstd::prelude::*;
use vstd::std_specs::cmp::PartialEqSpec;
use vstd::std_specs::cmp::PartialEqSpecImpl;
use std::marker::PhantomData;
use crate::lattice::Lattice;

verus! {

/// Direction relative to a [`Node`].
#[derive(Clone, Copy, Debug, Hash, PartialEq, Eq, Structural)]
pub enum Direction {
    North,
    South,
    East,
    West,
}

impl Direction {
    /// The four directions, clockwise from north.
    pub const ALL: [Direction; 4] = [
        Direction::North,
        Direction::East,
        Direction::South,
        Direction::West,
    ];

    /// The direction a quarter turn to the right.
    pub open spec fn spec_clockwise(self) -> Direction {
        match self {
            Direction::North => Direction::East,
            Direction::South => Direction::West,
            Direction::East => Direction::South,
            Direction::West => Direction::North,
        }
    }

    /// The opposite direction.
    pub open spec fn spec_reverse(self) -> Direction {
        match self {
            Direction::North => Direction::South,
            Direction::South => Direction::North,
            Direction::East => Direction::West,
            Direction::West => Direction::East,
        }
    }

    /// The direction a quarter turn to the left.
    pub open spec fn spec_anti_clockwise(self) -> Direction {
        self.spec_clockwise().spec_reverse()
    }

    /// The direction a quarter turn to the right.
    #[verifier::when_used_as_spec(spec_clockwise)]
    pub fn clockwise(self) -> (r: Direction)
        ensures
            r == self.spec_clockwise(),
    {
        match self {
            Direction::North => Direction::East,
            Direction::South => Direction::West,
            Direction::East => Direction::South,
            Direction::West => Direction::North,
        }
    }

    /// The direction a quarter turn to the left.
    #[verifier::when_used_as_spec(spec_anti_clockwise)]
    pub fn anti_clockwise(self) -> (r: Direction)
        ensures
            r == self.spec_anti_clockwise(),
    {
        self.clockwise().reverse()
    }

    /// The opposite direction.
    #[verifier::when_used_as_spec(spec_reverse)]
    pub fn reverse(self) -> (r: Direction)
        ensures
            r == self.spec_reverse(),
    {
        match self {
            Direction::North => Direction::South,
            Direction::South => Direction::North,
            Direction::East => Direction::West,
            Direction::West => Direction::East,
        }
    }

    /// Turning is a group of order four: four quarter turns, or two half
    /// turns, come back to the start, and a left turn undoes a right turn.
    pub proof fn lemma_turns(self)
        ensures
            self.reverse().reverse() == self,
            self.clockwise().clockwise() == self.reverse(),
            self.clockwise().anti_clockwise() == self,
            self.anti_clockwise().clockwise() == self,
            self.clockwise() != self,
            self.reverse() != self,
            self.anti_clockwise() != self,
    {
    }
}

/// A node of the maze lattice, by its column and row. May be used to index a
/// [`NodeBuffer`].
///
/// Nodes handed out by a [`Maze`] lie within it; the fields are public all the
/// same, so any pair of coordinates can be written down.
#[derive(Clone, Copy, Debug, Hash, PartialEq, Eq, Structural, PartialOrd, Ord)]
pub struct Node(pub usize, pub usize);

impl Default for Node {
    fn default() -> (r: Node)
        ensures
            r == Node(0, 0),
    {
        Node(0, 0)
    }
}

impl Node {
    /// The coordinates one step away in the given direction. North is toward
    /// row zero, west toward column zero.
    pub open spec fn toward(self, direction: Direction) -> (int, int) {
        match direction {
            Direction::North => (self.0 as int, self.1 - 1),
            Direction::South => (self.0 as int, self.1 + 1),
            Direction::East => (self.0 + 1, self.1 as int),
            Direction::West => (self.0 - 1, self.1 as int),
        }
    }

    /// Whether `other` is the node one step from `self` in `direction`.
    pub open spec fn steps_to(self, direction: Direction, other: Node) -> bool {
        self.toward(direction) == (other.0 as int, other.1 as int)
    }

    /// The sum of the differences in column and in row.
    pub open spec fn spec_manhattan(self, other: Node) -> int {
        (if self.0 >= other.0 { self.0 - other.0 } else { other.0 - self.0 })
            + (if self.1 >= other.1 { self.1 - other.1 } else { other.1 - self.1 })
    }

    /// The manhattan distance between two nodes.
    pub fn manhattan(self, other: Node) -> (r: usize)
        requires
            self.spec_manhattan(other) <= usize::MAX,
        ensures
            r == self.spec_manhattan(other),
    {
        let dx: usize = if self.0 >= other.0 { self.0 - other.0 } else { other.0 - self.0 };
        let dy: usize = if self.1 >= other.1 { self.1 - other.1 } else { other.1 - self.1 };
        dx + dy
    }
}

/// An edge of the maze lattice. May be used to index an [`EdgeBuffer`].
///
/// Two edges are equal when they join the same two nodes, whichever way they
/// point. An edge from a node to itself stands for "no edge".
#[derive(Clone, Copy, Debug, Eq)]
pub struct Edge {
    pub from: Node,
    pub to: Node,
    pub direction: Direction,
}

impl Edge {
    /// Returns an edge pointing from the given node to itself.
    pub fn identity(node: Node) -> (r: Edge)
        ensures
            r == (Edge { from: node, to: node, direction: Direction::North }),
    {
        Edge { from: node, to: node, direction: Direction::North }
    }

    /// The same edge, pointing the other way.
    pub open spec fn spec_reverse(self) -> Edge {
        Edge { from: self.to, to: self.from, direction: self.direction.reverse() }
    }

    /// The same edge, pointing the other way.
    #[verifier::when_used_as_spec(spec_reverse)]
    pub fn reverse(self) -> (r: Edge)
        ensures
            r == self.spec_reverse(),
    {
        Edge { from: self.to, to: self.from, direction: self.direction.reverse() }
    }

    /// Whether the edge leads one step from `from` in its direction.
    pub open spec fn is_step(self) -> bool {
        self.from.steps_to(self.direction, self.to)
    }

    /// Undirected equality: the same two end points, in either order.
    pub open spec fn same_as(self, other: Edge) -> bool {
        (self.from == other.from && self.to == other.to)
            || (self.from == other.to && self.to == other.from)
    }

    /// The end point that owns the edge's slot: the one from which the edge
    /// points south or east.
    pub open spec fn owner(self) -> (int, int) {
        match self.direction {
            Direction::North => (self.from.0 as int, self.from.1 - 1),
            Direction::South => (self.from.0 as int, self.from.1 as int),
            Direction::East => (self.from.0 as int, self.from.1 as int),
            Direction::West => (self.from.0 - 1, self.from.1 as int),
        }
    }

    /// Zero for an edge that runs north-south, one for east-west.
    pub open spec fn orientation(self) -> int {
        match self.direction {
            Direction::North | Direction::South => 0,
            Direction::East | Direction::West => 1,
        }
    }

    /// An edge equals its own reverse.
    pub proof fn lemma_symmetry(a: Node, b: Node, d: Direction)
        ensures
            PartialEqSpec::eq_spec(
                &(Edge { from: a, to: b, direction: d }),
                &(Edge { from: b, to: a, direction: d.reverse() }),
            ),
            (Edge { from: a, to: b, direction: d }).spec_reverse() == (Edge {
                from: b,
                to: a,
                direction: d.reverse(),
            }),
    {
    }

    /// Undirected equality is an equivalence on edges that join two distinct
    /// nodes.
    pub proof fn lemma_same_as_equivalence(e: Edge, f: Edge, g: Edge)
        ensures
            e.same_as(e),
            e.same_as(f) ==> f.same_as(e),
            e.same_as(f) && f.same_as(g) && f.from != f.to ==> e.same_as(g),
    {
    }
}

impl Edge {
    /// The two ends of the edge, the lesser first: the same for an edge
    /// and its reverse.
    pub open spec fn spec_ends(self) -> (Node, Node) {
        if self.from.0 < self.to.0 || (self.from.0 == self.to.0 && self.from.1 <= self.to.1) {
            (self.from, self.to)
        } else {
            (self.to, self.from)
        }
    }

    /// The two ends of the edge, the lesser first. Edges are equal exactly
    /// when their ends are.
    pub fn ends(&self) -> (r: (Node, Node))
        ensures
            r == self.spec_ends(),
    {
        if self.from.0 < self.to.0 || (self.from.0 == self.to.0 && self.from.1 <= self.to.1) {
            (self.from, self.to)
        } else {
            (self.to, self.from)
        }
    }

    /// Edges are equal exactly when their ends, the lesser first, are the
    /// same.
    pub proof fn lemma_ends(e: Edge, f: Edge)
        ensures
            e.same_as(f) <==> e.spec_ends() == f.spec_ends(),
    {
    }
}

/// Calls `std::hash::Hash::hash` on a pair of nodes. Nothing is claimed of
/// what it does to the hasher.
#[verifier::external_body]
fn hash_nodes<H: std::hash::Hasher>(nodes: &(Node, Node), state: &mut H) {
    std::hash::Hash::hash(nodes, state)
}

impl std::hash::Hash for Edge {
    /// Hashes the two ends, the lesser first, so that equal edges hash
    /// alike.
    fn hash<H: std::hash::Hasher>(&self, state: &mut H) {
        hash_nodes(&self.ends(), state)
    }
}

impl PartialEq for Edge {
    fn eq(&self, other: &Self) -> (r: bool) {
        (self.from == other.from && self.to == other.to)
            || (self.from == other.to && self.to == other.from)
    }
}

impl PartialEqSpecImpl for Edge {
    open spec fn obeys_eq_spec() -> bool {
        true
    }

    open spec fn eq_spec(&self, other: &Self) -> bool {
        self.same_as(*other)
    }
}

/// Generalisation over ways to index into a maze (e.g., nodes or edges).
pub trait MazeIndex: Sized {
    /// Whether the index names an element of a maze of the given size.
    spec fn in_maze(&self, maze_width: usize, maze_height: usize) -> bool;

    /// Whether [`MazeIndex::normalise`] can compute the slot within `usize`.
    spec fn normalisable(&self, maze_width: usize) -> bool;

    spec fn spec_bound(maze_width: usize, maze_height: usize) -> int;

    spec fn spec_normalise(&self, maze_width: usize) -> int;

    /// The indices that [`MazeIndex::iter`] yields, in order.
    spec fn spec_iter(maze_width: usize, maze_height: usize) -> Seq<Self>;

    /// Every index of a maze has a slot below the bound.
    proof fn lemma_slot_in_bounds(&self, maze_width: usize, maze_height: usize)
        requires
            self.in_maze(maze_width, maze_height),
            Self::spec_bound(maze_width, maze_height) <= usize::MAX,
        ensures
            self.normalisable(maze_width),
            0 <= self.spec_normalise(maze_width) < Self::spec_bound(maze_width, maze_height),
    ;

    /// The number of elements that can be indexed.
    fn bound(maze_width: usize, maze_height: usize) -> (r: usize)
        requires
            Self::spec_bound(maze_width, maze_height) <= usize::MAX,
        ensures
            r == Self::spec_bound(maze_width, maze_height),
    ;

    /// All indices of the maze.
    fn iter(maze: &Maze) -> (r: Vec<Self>)
        ensures
            r@ == Self::spec_iter(maze.width, maze.height),
    ;

    /// Normalises the index to a linear integer, which may be used to index an array.
    fn normalise(&self, maze_width: usize) -> (r: usize)
        requires
            self.normalisable(maze_width),
        ensures
            r == self.spec_normalise(maze_width),
    ;
}

impl MazeIndex for Node {
    open spec fn in_maze(&self, maze_width: usize, maze_height: usize) -> bool {
        self.0 < maze_width && self.1 < maze_height
    }

    open spec fn normalisable(&self, maze_width: usize) -> bool {
        self.0 + self.1 * maze_width <= usize::MAX
    }

    open spec fn spec_bound(maze_width: usize, maze_height: usize) -> int {
        maze_width * maze_height
    }

    open spec fn spec_normalise(&self, maze_width: usize) -> int {
        self.0 + self.1 * maze_width
    }

    open spec fn spec_iter(maze_width: usize, maze_height: usize) -> Seq<Node> {
        Seq::new((maze_width * maze_height) as nat, |i: int| node_at(i, maze_width))
    }

    proof fn lemma_slot_in_bounds(&self, maze_width: usize, maze_height: usize) {
        lemma_cell_slot(self.0 as int, self.1 as int, maze_width as int, maze_height as int);
    }

    fn bound(maze_width: usize, maze_height: usize) -> (r: usize) {
        maze_width * maze_height
    }

    fn iter(maze: &Maze) -> (r: Vec<Node>) {
        maze.nodes_iter()
    }

    fn normalise(&self, maze_width: usize) -> (r: usize) {
        assert(self.1 * maze_width >= 0) by (nonlinear_arith);
        self.0 + self.1 * maze_width
    }
}

/// The node that owns a slot of a node buffer.
pub open spec fn node_at(slot: int, width: usize) -> Node {
    Node((slot % width as int) as usize, (slot / width as int) as usize)
}

/// In a grid `w` wide and `h` high, the cell in column `x` of row `y` has the
/// slot `x + y * w`, below `w * h`.
pub proof fn lemma_cell_slot(x: int, y: int, w: int, h: int)
    requires
        0 <= x < w,
        0 <= y < h,
    ensures
        0 <= y * w,
        0 <= x + y * w < w * h,
        (x + y * w) % w == x,
        (x + y * w) / w == y,
{
    assert(y * w >= 0) by (nonlinear_arith)
        requires
            0 <= y,
            0 <= w,
    ;
    assert(y * w + w <= h * w) by (nonlinear_arith)
        requires
            0 <= y < h,
            0 <= w,
    ;
    assert(h * w == w * h) by (nonlinear_arith);
    vstd::arithmetic::div_mod::lemma_fundamental_div_mod_converse(x + y * w, w, y, x);
}

/// Every slot below `w * h` is that of the cell in column `slot % w` of
/// row `slot / w`.
pub proof fn lemma_slot_cell(slot: int, w: int, h: int)
    requires
        0 <= slot < w * h,
        0 < w,
    ensures
        0 <= slot % w < w,
        0 <= slot / w < h,
        slot % w + (slot / w) * w == slot,
{
    vstd::arithmetic::div_mod::lemma_fundamental_div_mod(slot, w);
    vstd::arithmetic::div_mod::lemma_mod_bound(slot, w);
    let q = slot / w;
    assert(w * q == q * w) by (nonlinear_arith);
    assert(q < h) by (nonlinear_arith)
        requires
            q * w <= slot,
            slot < w * h,
            0 < w,
    ;
    assert(0 <= q) by (nonlinear_arith)
        requires
            q * w + w > slot,
            0 <= slot,
            0 < w,
    ;
}

/// Two cells of a grid with the same slot are the same cell.
pub proof fn lemma_cell_slot_injective(x1: int, y1: int, x2: int, y2: int, w: int)
    requires
        0 <= x1 < w,
        0 <= x2 < w,
        0 <= y1,
        0 <= y2,
        x1 + y1 * w == x2 + y2 * w,
    ensures
        x1 == x2,
        y1 == y2,
{
    vstd::arithmetic::div_mod::lemma_fundamental_div_mod_converse(x1 + y1 * w, w, y1, x1);
    vstd::arithmetic::div_mod::lemma_fundamental_div_mod_converse(x2 + y2 * w, w, y2, x2);
}

impl MazeIndex for Edge {
    /// A lattice edge: both ends lie in the maze, one step apart.
    open spec fn in_maze(&self, maze_width: usize, maze_height: usize) -> bool {
        &&& self.from.in_maze(maze_width, maze_height)
        &&& self.to.in_maze(maze_width, maze_height)
        &&& self.is_step()
    }

    open spec fn normalisable(&self, maze_width: usize) -> bool {
        &&& self.owner().0 >= 0
        &&& self.owner().1 >= 0
        &&& 2 * (self.owner().0 + self.owner().1 * maze_width) + self.orientation() <= usize::MAX
    }

    open spec fn spec_bound(maze_width: usize, maze_height: usize) -> int {
        2 * maze_width * maze_height
    }

    open spec fn spec_normalise(&self, maze_width: usize) -> int {
        2 * (self.owner().0 + self.owner().1 * maze_width) + self.orientation()
    }

    open spec fn spec_iter(maze_width: usize, maze_height: usize) -> Seq<Edge> {
        edges_below(maze_width, maze_height, (maze_width * maze_height) as nat)
    }

    proof fn lemma_slot_in_bounds(&self, maze_width: usize, maze_height: usize) {
        let (x, y) = self.owner();
        lemma_cell_slot(x, y, maze_width as int, maze_height as int);
        assert(2 * (maze_width * maze_height) == 2 * maze_width * maze_height) by (nonlinear_arith);
    }

    fn bound(maze_width: usize, maze_height: usize) -> (r: usize) {
        assert(2 * (maze_width * maze_height) == 2 * maze_width * maze_height)
            by (nonlinear_arith);
        2 * (maze_width * maze_height)
    }

    fn iter(maze: &Maze) -> (r: Vec<Edge>) {
        maze.edges_iter()
    }

    fn normalise(&self, maze_width: usize) -> (r: usize) {
        let Node(x, y) = self.from;
        let (x, y, z): (usize, usize, usize) = match self.direction {
            Direction::North => (x, y - 1, 0),
            Direction::South => (x, y, 0),
            Direction::East => (x, y, 1),
            Direction::West => (x - 1, y, 1),
        };
        let owner = Node(x, y);
        assert(y * maze_width >= 0) by (nonlinear_arith);
        2 * owner.normalise(maze_width) + z
    }
}

/// The east edge, if it exists, then the south edge, if it exists, of the
/// node with the given slot.
pub open spec fn edges_at(maze_width: usize, maze_height: usize, slot: int) -> Seq<Edge> {
    let x = (slot % maze_width as int) as usize;
    let y = (slot / maze_width as int) as usize;
    let east = if x + 1 < maze_width {
        seq![Edge { from: Node(x, y), to: Node((x + 1) as usize, y), direction: Direction::East }]
    } else {
        Seq::<Edge>::empty()
    };
    let south = if y + 1 < maze_height {
        seq![Edge { from: Node(x, y), to: Node(x, (y + 1) as usize), direction: Direction::South }]
    } else {
        Seq::<Edge>::empty()
    };
    east + south
}

/// The edges owned by the first `count` nodes, in row-major order.
pub open spec fn edges_below(maze_width: usize, maze_height: usize, count: nat) -> Seq<Edge>
    decreases count,
{
    if count == 0 {
        Seq::<Edge>::empty()
    } else {
        edges_below(maze_width, maze_height, (count - 1) as nat) + edges_at(
            maze_width,
            maze_height,
            count - 1,
        )
    }
}

/// A buffer indexable by any [`MazeIndex`] storing arbitrary data.
///
/// Internally, this uses [`MazeIndex::normalise`] to index a linear array, ensuring efficient data layout.
pub struct Buffer<T, U> {
    /// Data being stored.
    data: Vec<U>,
    /// Maze width, used by [`MazeIndex::normalise`].
    width: usize,
    /// Phantom data for the index type.
    _phantom: PhantomData<T>,
}

impl<T, U> Buffer<T, U> {
    /// The stored values, by slot.
    pub closed spec fn view(&self) -> Seq<U> {
        self.data@
    }

    /// The maze width that slots are computed with.
    pub closed spec fn spec_width(&self) -> usize {
        self.width
    }
}

impl<T: MazeIndex, U> Buffer<T, U> {

    /// Whether the buffer has one slot for each index of a maze of this size.
    pub open spec fn fits(&self, maze_width: usize, maze_height: usize) -> bool {
        &&& self.spec_width() == maze_width
        &&& self@.len() == T::spec_bound(maze_width, maze_height)
    }

    /// Whether the index has a slot in this buffer.
    pub open spec fn covers(&self, index: T) -> bool {
        &&& index.normalisable(self.spec_width())
        &&& 0 <= index.spec_normalise(self.spec_width()) < self@.len()
    }

    /// The slot of an index in this buffer.
    pub open spec fn slot(&self, index: T) -> int {
        index.spec_normalise(self.spec_width())
    }

    /// The value stored for an index.
    pub open spec fn at(&self, index: T) -> U {
        self@[self.slot(index)]
    }

    /// A buffer that fits a maze covers every index of that maze.
    pub proof fn lemma_covers(&self, index: T, maze_width: usize, maze_height: usize)
        requires
            self.fits(maze_width, maze_height),
            index.in_maze(maze_width, maze_height),
        ensures
            self.covers(index),
    {
        assert(self.data@.len() == self.data.len());
        index.lemma_slot_in_bounds(maze_width, maze_height);
    }

    /// Constructs a buffer with default values for each element.
    pub fn new(maze: &Maze) -> (r: Self) where U: Copy + Default
        requires
            T::spec_bound(maze.width, maze.height) <= usize::MAX,
        ensures
            r.fits(maze.width, maze.height),
            exists|d: U|
                call_ensures(U::default, (), d) && forall|i: int|
                    0 <= i < r@.len() ==> #[trigger] r@[i] == d,
    {
        Self::new_with_values(maze, U::default())
    }

    /// Constructs a buffer with given value copied for each element.
    pub fn new_with_values(maze: &Maze, value: U) -> (r: Self) where U: Copy
        requires
            T::spec_bound(maze.width, maze.height) <= usize::MAX,
        ensures
            r.fits(maze.width, maze.height),
            forall|i: int| 0 <= i < r@.len() ==> #[trigger] r@[i] == value,
    {
        let size = T::bound(maze.width, maze.height);
        Self { data: filled(value, size), width: maze.width, _phantom: PhantomData }
    }

    /// Constructs a buffer with a value given by a function over the index for each element.
    ///
    /// The values are stored in the order in which [`MazeIndex::iter`] yields the indices.
    pub fn new_from_function<F: Fn(T) -> U>(maze: &Maze, op: F) -> (r: Self) where T: Copy
        requires
            forall|i: int|
                0 <= i < T::spec_iter(maze.width, maze.height).len() ==> call_requires(
                    op,
                    (#[trigger] T::spec_iter(maze.width, maze.height)[i],),
                ),
        ensures
            r.spec_width() == maze.width,
            r@.len() == T::spec_iter(maze.width, maze.height).len(),
            forall|i: int|
                0 <= i < r@.len() ==> call_ensures(
                    op,
                    (T::spec_iter(maze.width, maze.height)[i],),
                    #[trigger] r@[i],
                ),
    {
        let indices = T::iter(maze);
        let mut data: Vec<U> = Vec::new();
        let mut i: usize = 0;
        while i < indices.len()
            invariant
                i <= indices.len(),
                indices@ == T::spec_iter(maze.width, maze.height),
                data@.len() == i,
                forall|j: int|
                    0 <= j < indices@.len() ==> call_requires(op, (#[trigger] indices@[j],)),
                forall|j: int| 0 <= j < i ==> call_ensures(op, (indices@[j],), #[trigger] data@[j]),
            decreases indices.len() - i,
        {
            let value = op(indices[i]);
            data.push(value);
            i += 1;
        }
        Self { data, width: maze.width, _phantom: PhantomData }
    }

    /// Constructs a buffer with given maze dimensions. This is only used by [`Maze::new`] since we don't
    /// have a [`Maze`] instance yet.
    fn new_with_size(width: usize, height: usize) -> (r: Self) where U: Copy + Default
        requires
            T::spec_bound(width, height) <= usize::MAX,
        ensures
            r.fits(width, height),
            exists|d: U|
                call_ensures(U::default, (), d) && forall|i: int|
                    0 <= i < r@.len() ==> #[trigger] r@[i] == d,
    {
        let size = T::bound(width, height);
        Self { data: filled(U::default(), size), width, _phantom: PhantomData }
    }

    /// The values of all elements, in slot order.
    pub fn iter(&self) -> (r: &[U])
        ensures
            r@ == self@,
    {
        self.data.as_slice()
    }

    /// The values of all elements, in slot order, open to change.
    pub fn iter_mut(&mut self) -> (r: &mut [U])
        ensures
            r@ == old(self)@,
            final(self)@ == final(r)@,
            final(self).spec_width() == old(self).spec_width(),
    {
        self.data.as_mut_slice()
    }

    /// Copies given value into each element.
    pub fn fill(&mut self, value: U) where U: Copy
        ensures
            final(self).spec_width() == old(self).spec_width(),
            final(self)@.len() == old(self)@.len(),
            forall|i: int| 0 <= i < final(self)@.len() ==> #[trigger] final(self)@[i] == value,
    {
        let mut i: usize = 0;
        while i < self.data.len()
            invariant
                self.width == old(self).width,
                self.data@.len() == old(self).data@.len(),
                i <= self.data@.len(),
                forall|j: int| 0 <= j < i ==> #[trigger] self.data@[j] == value,
            decreases self.data.len() - i,
        {
            self.data[i] = value;
            i += 1;
        }
    }

    /// The value stored for an index.
    pub fn get(&self, index: T) -> (r: &U)
        requires
            self.covers(index),
        ensures
            *r == self.at(index),
    {
        let slot = index.normalise(self.width);
        &self.data[slot]
    }

    /// Stores a value for an index, leaving all other slots as they are.
    pub fn set(&mut self, index: T, value: U)
        requires
            old(self).covers(index),
        ensures
            final(self).spec_width() == old(self).spec_width(),
            final(self)@ == old(self)@.update(old(self).slot(index), value),
    {
        let slot = index.normalise(self.width);
        self.data[slot] = value;
    }
}

/// A vector of `size` copies of `value`.
fn filled<U: Copy>(value: U, size: usize) -> (r: Vec<U>)
    ensures
        r@.len() == size,
        forall|i: int| 0 <= i < size ==> #[trigger] r@[i] == value,
{
    let mut data: Vec<U> = Vec::new();
    let mut i: usize = 0;
    while i < size
        invariant
            i <= size,
            data@.len() == i,
            forall|j: int| 0 <= j < i ==> #[trigger] data@[j] == value,
        decreases size - i,
    {
        data.push(value);
        i += 1;
    }
    data
}

/// Buffer indexable by [`Node`].
pub type NodeBuffer<T> = Buffer<Node, T>;

/// Buffer indexable by [`Edge`].
pub type EdgeBuffer<T> = Buffer<Edge, T>;

/// Maze being constructed by generators and solved by solvers.
///
/// A maze consists of a lattice of nodes connected by edges. Nodes are always considered open (traversable)
/// whereas edges can be either open or closed.
pub struct Maze {
    /// Whether each edge in the maze is open. Every node owns two slots, one
    /// for its south edge and one for its east edge, whether or not the edge exists.
    pub open: EdgeBuffer<bool>,
    /// Width in nodes.
    pub width: usize,
    /// Height in nodes.
    pub height: usize,
}

impl Maze {
    /// A maze has at least one node, and its edge flags fit its size.
    pub open spec fn wf(&self) -> bool {
        &&& self.width >= 1
        &&& self.height >= 1
        &&& self.width * self.height <= usize::MAX
        &&& 2 * self.width * self.height <= usize::MAX
        &&& self.open.fits(self.width, self.height)
    }

    /// The maze as a graph.
    pub open spec fn view(&self) -> Lattice {
        Lattice { width: self.width, height: self.height, open: self.open@ }
    }

    /// Whether the node lies within the maze.
    pub open spec fn contains(&self, node: Node) -> bool {
        node.in_maze(self.width, self.height)
    }

    /// The node at the coordinates, if they lie within the maze.
    pub open spec fn spec_node(&self, x: usize, y: usize) -> Option<Node> {
        if x < self.width && y < self.height {
            Some(Node(x, y))
        } else {
            None
        }
    }

    /// The edge from a node to its neighbour in a direction, if that
    /// neighbour lies within the maze.
    pub open spec fn spec_edge(&self, node: Node, direction: Direction) -> Option<Edge> {
        self@.edge(node, direction)
    }

    /// Whether the edge's flag is set.
    pub open spec fn is_open(&self, edge: Edge) -> bool {
        self@.is_open(edge)
    }

    /// Constructs a maze from its dimensions, with every edge closed.
    pub fn new(width: u16, height: u16) -> (r: Maze)
        requires
            width != 0,
            height != 0,
            2 * width * height <= usize::MAX,
        ensures
            r.wf(),
            r.width == width,
            r.height == height,
            forall|i: int| 0 <= i < r.open@.len() ==> !#[trigger] r.open@[i],
    {
        let width = width as usize;
        let height = height as usize;
        assert(width * height <= 2 * width * height) by (nonlinear_arith);
        Maze { width, height, open: EdgeBuffer::new_with_size(width, height) }
    }

    /// Gets the node at given coordinates.
    pub fn node(&self, x: usize, y: usize) -> (r: Option<Node>)
        ensures
            r == self.spec_node(x, y),
    {
        if x < self.width && y < self.height {
            Some(Node(x, y))
        } else {
            None
        }
    }

    /// Gets the edge relative to a node: the edge to the node's neighbour in
    /// the given direction, if that neighbour lies within the maze.
    pub fn edge(&self, node: Node, direction: Direction) -> (r: Option<Edge>)
        ensures
            r == self.spec_edge(node, direction),
    {
        let Node(x, y) = node;
        let neighbour = match direction {
            Direction::North => if y == 0 {
                None
            } else {
                self.node(x, y - 1)
            },
            Direction::South => if y == usize::MAX {
                None
            } else {
                self.node(x, y + 1)
            },
            Direction::East => if x == usize::MAX {
                None
            } else {
                self.node(x + 1, y)
            },
            Direction::West => if x == 0 {
                None
            } else {
                self.node(x - 1, y)
            },
        };
        match neighbour {
            Some(to) => Some(Edge { from: node, to, direction }),
            None => None,
        }
    }

    /// Returns the top-left and bottom-right nodes.
    pub fn bounds(&self) -> (r: (Node, Node))
        requires
            self.width >= 1,
            self.height >= 1,
        ensures
            r == (Node(0, 0), Node((self.width - 1) as usize, (self.height - 1) as usize)),
    {
        (Node(0, 0), Node(self.width - 1, self.height - 1))
    }

    /// Returns all nodes, row by row.
    pub fn nodes_iter(&self) -> (r: Vec<Node>)
        ensures
            r@ == Node::spec_iter(self.width, self.height),
    {
        let width = self.width;
        let height = self.height;
        let mut nodes: Vec<Node> = Vec::new();
        let mut y: usize = 0;
        while y < height
            invariant
                y <= height,
                nodes@.len() == y * width,
                forall|i: int|
                    0 <= i < nodes@.len() ==> #[trigger] nodes@[i] == Node(
                        (i % width as int) as usize,
                        (i / width as int) as usize,
                    ),
            decreases height - y,
        {
            let mut x: usize = 0;
            while x < width
                invariant
                    y < height,
                    x <= width,
                    nodes@.len() == y * width + x,
                    forall|i: int|
                        0 <= i < nodes@.len() ==> #[trigger] nodes@[i] == Node(
                            (i % width as int) as usize,
                            (i / width as int) as usize,
                        ),
                decreases width - x,
            {
                proof {
                    lemma_cell_slot(x as int, y as int, width as int, height as int);
                }
                nodes.push(Node(x, y));
                x += 1;
            }
            assert((y + 1) * width == y * width + width) by (nonlinear_arith);
            y += 1;
        }
        assert(height * width == width * height) by (nonlinear_arith);
        assert(nodes@ =~= Node::spec_iter(self.width, self.height));
        nodes
    }

    /// Returns all edges, each once: for every node in row-major order, its
    /// east edge and then its south edge, where they exist.
    pub fn edges_iter(&self) -> (r: Vec<Edge>)
        ensures
            r@ == Edge::spec_iter(self.width, self.height),
    {
        let width = self.width;
        let height = self.height;
        let mut edges: Vec<Edge> = Vec::new();
        let mut y: usize = 0;
        while y < height
            invariant
                y <= height,
                width == self.width,
                height == self.height,
                edges@ == edges_below(width, height, (y * width) as nat),
            decreases height - y,
        {
            let mut x: usize = 0;
            while x < width
                invariant
                    y < height,
                    x <= width,
                    width == self.width,
                    height == self.height,
                    edges@ == edges_below(width, height, (y * width + x) as nat),
                decreases width - x,
            {
                proof {
                    lemma_cell_slot(x as int, y as int, width as int, height as int);
                }
                let ghost before = edges@;
                let node = Node(x, y);
                if let Some(east) = self.edge(node, Direction::East) {
                    edges.push(east);
                }
                if let Some(south) = self.edge(node, Direction::South) {
                    edges.push(south);
                }
                assert(edges@ =~= before + edges_at(width, height, y * width + x));
                x += 1;
            }
            assert((y + 1) * width == y * width + width) by (nonlinear_arith);
            y += 1;
        }
        assert(height * width == width * height) by (nonlinear_arith);
        edges
    }
}

/// Distinct nodes of a maze have distinct slots.
pub proof fn lemma_node_slots_differ(a: Node, b: Node, maze_width: usize, maze_height: usize)
    requires
        a.in_maze(maze_width, maze_height),
        b.in_maze(maze_width, maze_height),
        a.spec_normalise(maze_width) == b.spec_normalise(maze_width),
    ensures
        a == b,
{
    lemma_cell_slot_injective(a.0 as int, a.1 as int, b.0 as int, b.1 as int, maze_width as int);
}

/// An edge and its reverse are both edges of the maze, with the same slot.
pub proof fn lemma_edge_slot_reverse(e: Edge, maze_width: usize, maze_height: usize)
    requires
        e.in_maze(maze_width, maze_height),
    ensures
        e.reverse().in_maze(maze_width, maze_height),
        e.reverse().spec_normalise(maze_width) == e.spec_normalise(maze_width),
        e.from != e.to,
{
}

/// Two edges of a maze have the same slot exactly when they join the same
/// two nodes.
pub proof fn lemma_edge_slots_differ(e: Edge, f: Edge, maze_width: usize, maze_height: usize)
    requires
        e.in_maze(maze_width, maze_height),
        f.in_maze(maze_width, maze_height),
    ensures
        e.spec_normalise(maze_width) == f.spec_normalise(maze_width) <==> e.same_as(f),
        e.same_as(f) ==> f == e || f == e.reverse(),
{
    let w = maze_width as int;
    let (ex, ey) = e.owner();
    let (fx, fy) = f.owner();
    lemma_cell_slot(ex, ey, w, maze_height as int);
    lemma_cell_slot(fx, fy, w, maze_height as int);
    if e.spec_normalise(maze_width) == f.spec_normalise(maze_width) {
        assert(e.orientation() == f.orientation());
        lemma_cell_slot_injective(ex, ey, fx, fy, w);
    }
}

/// Every edge among those owned by the first `count` nodes is an edge of the
/// maze that points east or south.
pub proof fn lemma_edges_below_in_maze(maze_width: usize, maze_height: usize, count: nat, i: int)
    requires
        maze_width >= 1,
        count <= maze_width * maze_height,
        0 <= i < edges_below(maze_width, maze_height, count).len(),
    ensures
        edges_below(maze_width, maze_height, count)[i].in_maze(maze_width, maze_height),
        edges_below(maze_width, maze_height, count)[i].direction == Direction::East
            || edges_below(maze_width, maze_height, count)[i].direction == Direction::South,
    decreases count,
{
    if count > 0 {
        let before = edges_below(maze_width, maze_height, (count - 1) as nat);
        if i < before.len() {
            lemma_edges_below_in_maze(maze_width, maze_height, (count - 1) as nat, i);
        } else {
            lemma_slot_cell(count - 1, maze_width as int, maze_height as int);
        }
    }
}

/// Every edge of the maze that points east or south is among the edges
/// owned by the nodes up to its start.
pub proof fn lemma_edges_below_complete(
    maze_width: usize,
    maze_height: usize,
    count: nat,
    e: Edge,
)
    requires
        e.in_maze(maze_width, maze_height),
        e.direction == Direction::East || e.direction == Direction::South,
        e.from.spec_normalise(maze_width) < count,
    ensures
        edges_below(maze_width, maze_height, count).contains(e),
    decreases count,
{
    let slot = e.from.spec_normalise(maze_width);
    let before = edges_below(maze_width, maze_height, (count - 1) as nat);
    let here = edges_at(maze_width, maze_height, count - 1);
    let all = edges_below(maze_width, maze_height, count);
    if slot == count - 1 {
        lemma_cell_slot(e.from.0 as int, e.from.1 as int, maze_width as int, maze_height as int);
        if e.direction == Direction::East {
            assert(here[0] == e);
            assert(all[before.len() as int] == e);
        } else {
            assert(here[here.len() - 1] == e);
            assert(all[before.len() + here.len() - 1] == e);
        }
    } else {
        lemma_edges_below_complete(maze_width, maze_height, (count - 1) as nat, e);
        let k = choose|k: int| 0 <= k < before.len() && before[k] == e;
        assert(all[k] == e);
    }
}

} // verus!
