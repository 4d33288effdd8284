//! What every phase shares: the maze, the age of each visited node, and the
//! count of visited nodes.

use vstd::prelude::*;
use crate::lattice::Lattice;
use crate::maze::lemma_cell_slot;
use crate::maze::lemma_node_slots_differ;
use crate::maze::lemma_slot_cell;
use crate::maze::Direction;
use crate::maze::Edge;
use crate::maze::Maze;
use crate::maze::MazeIndex;
use crate::maze::Node;
use crate::maze::NodeBuffer;

verus! {

/// The number of visited nodes among the first `count` slots.
pub open spec fn count_visited(age: Seq<Option<u8>>, count: int) -> int
    decreases count,
{
    if count <= 0 {
        0
    } else {
        count_visited(age, count - 1) + if age[count - 1] is Some {
            1int
        } else {
            0int
        }
    }
}

/// The count of visited slots lies between zero and the number of slots
/// counted.
pub proof fn lemma_count_visited_bounds(age: Seq<Option<u8>>, count: int)
    requires
        0 <= count,
    ensures
        0 <= count_visited(age, count) <= count,
    decreases count,
{
    if count > 0 {
        lemma_count_visited_bounds(age, count - 1);
    }
}

/// Where no slot counted is visited, the count is zero.
pub proof fn lemma_count_visited_none(age: Seq<Option<u8>>, count: int)
    requires
        0 <= count,
        forall|i: int| 0 <= i < count ==> (#[trigger] age[i]) is None,
    ensures
        count_visited(age, count) == 0,
    decreases count,
{
    if count > 0 {
        lemma_count_visited_none(age, count - 1);
    }
}

/// Every slot counted is visited exactly when the count is full.
pub proof fn lemma_count_visited_full(age: Seq<Option<u8>>, count: int)
    requires
        0 <= count,
    ensures
        count_visited(age, count) == count <==> forall|i: int|
            0 <= i < count ==> (#[trigger] age[i]) is Some,
    decreases count,
{
    if count > 0 {
        lemma_count_visited_full(age, count - 1);
        lemma_count_visited_bounds(age, count - 1);
        if count_visited(age, count) == count {
            assert forall|i: int| 0 <= i < count implies (#[trigger] age[i]) is Some by {
                if i < count - 1 {
                }
            }
        } else {
            if forall|i: int| 0 <= i < count ==> (#[trigger] age[i]) is Some {
                assert(age[count - 1] is Some);
            }
        }
    }
}

/// Changing one slot changes the count by whether the slot became, or
/// ceased to be, visited.
pub proof fn lemma_count_visited_update(
    age: Seq<Option<u8>>,
    slot: int,
    value: Option<u8>,
    count: int,
)
    requires
        0 <= slot < age.len(),
        0 <= count <= age.len(),
    ensures
        count_visited(age.update(slot, value), count) == count_visited(age, count) + if slot
            < count {
            (if value is Some {
                1int
            } else {
                0int
            }) - (if age[slot] is Some {
                1int
            } else {
                0int
            })
        } else {
            0int
        },
    decreases count,
{
    if count > 0 {
        lemma_count_visited_update(age, slot, value, count - 1);
    }
}

/// The age that follows `age`: one more, but never past 255.
pub open spec fn next_age(age: Option<u8>) -> Option<u8> {
    match age {
        Some(a) => Some(
            if a == 255 {
                255u8
            } else {
                (a + 1) as u8
            },
        ),
        None => None,
    }
}

/// What a state holds, apart from how it is stored and from the payload of
/// its phase.
pub struct Snapshot {
    pub maze: Lattice,
    pub age: Seq<Option<u8>>,
    pub visited_count: int,
}

impl Snapshot {
    /// The ages cover the nodes, and the count is that of the visited nodes.
    pub open spec fn wf(self) -> bool {
        &&& self.maze.wf()
        &&& self.age.len() == self.maze.width * self.maze.height
        &&& self.visited_count == count_visited(self.age, self.age.len() as int)
    }

    /// The slot of a node in the ages.
    pub open spec fn slot(self, node: Node) -> int {
        node.spec_normalise(self.maze.width)
    }

    /// Whether the node has an age.
    pub open spec fn is_visited(self, node: Node) -> bool {
        self.age[self.slot(node)] is Some
    }

    /// The visited nodes of the maze.
    pub open spec fn visited(self) -> Set<Node> {
        Set::new(|n: Node| self.maze.contains(n) && self.is_visited(n))
    }

    /// Whether every node of the maze is visited.
    pub open spec fn all_visited(self) -> bool {
        forall|n: Node| self.maze.contains(n) ==> self.is_visited(n)
    }

    /// Whether nothing has been visited and no edge is open.
    pub open spec fn is_blank(self) -> bool {
        &&& self.visited_count == 0
        &&& forall|i: int| 0 <= i < self.age.len() ==> (#[trigger] self.age[i]) is None
        &&& forall|i: int| 0 <= i < self.maze.open.len() ==> !#[trigger] self.maze.open[i]
    }

    /// The snapshot with the node visited at the given age, and counted if it
    /// was not visited before.
    pub open spec fn set_age(self, node: Node, age: u8) -> Snapshot {
        Snapshot {
            age: self.age.update(self.slot(node), Some(age)),
            visited_count: self.visited_count + if self.is_visited(node) {
                0int
            } else {
                1int
            },
            ..self
        }
    }

    /// The snapshot with the node visited at age zero.
    pub open spec fn visit(self, node: Node) -> Snapshot {
        self.set_age(node, 0)
    }

    /// The snapshot with the node unvisited, and no longer counted if it was
    /// visited before.
    pub open spec fn unvisit(self, node: Node) -> Snapshot {
        Snapshot {
            age: self.age.update(self.slot(node), None),
            visited_count: self.visited_count - if self.is_visited(node) {
                1int
            } else {
                0int
            },
            ..self
        }
    }

    /// The snapshot with the flag of one edge set.
    pub open spec fn set_edge(self, edge: Edge, open: bool) -> Snapshot {
        Snapshot { maze: self.maze.set_open(edge, open), ..self }
    }

    /// The snapshot with every visited node one tick older.
    pub open spec fn aged(self) -> Snapshot {
        Snapshot { age: Seq::new(self.age.len(), |i: int| next_age(self.age[i])), ..self }
    }

    /// Visiting keeps a snapshot well formed and adds the node to the
    /// visited ones.
    pub proof fn lemma_set_age(self, node: Node, age: u8)
        requires
            self.wf(),
            self.maze.contains(node),
        ensures
            self.set_age(node, age).wf(),
            self.set_age(node, age).visited() == self.visited().insert(node),
            forall|n: Node|
                self.maze.contains(n) ==> self.set_age(node, age).is_visited(n) == (n == node
                    || self.is_visited(n)),
    {
        let after = self.set_age(node, age);
        node.lemma_slot_in_bounds(self.maze.width, self.maze.height);
        lemma_count_visited_update(self.age, self.slot(node), Some(age), self.age.len() as int);
        assert forall|n: Node| self.maze.contains(n) implies after.is_visited(n) == (n == node
            || self.is_visited(n)) by {
            n.lemma_slot_in_bounds(self.maze.width, self.maze.height);
            if self.slot(n) == self.slot(node) {
                lemma_node_slots_differ(n, node, self.maze.width, self.maze.height);
            }
        }
        assert(after.visited() =~= self.visited().insert(node));
    }

    /// Unvisiting keeps a snapshot well formed and takes the node from the
    /// visited ones.
    pub proof fn lemma_unvisit(self, node: Node)
        requires
            self.wf(),
            self.maze.contains(node),
        ensures
            self.unvisit(node).wf(),
            self.unvisit(node).visited() == self.visited().remove(node),
            forall|n: Node|
                self.maze.contains(n) ==> self.unvisit(node).is_visited(n) == (n != node
                    && self.is_visited(n)),
    {
        let after = self.unvisit(node);
        node.lemma_slot_in_bounds(self.maze.width, self.maze.height);
        lemma_count_visited_update(self.age, self.slot(node), None, self.age.len() as int);
        assert forall|n: Node| self.maze.contains(n) implies after.is_visited(n) == (n != node
            && self.is_visited(n)) by {
            n.lemma_slot_in_bounds(self.maze.width, self.maze.height);
            if self.slot(n) == self.slot(node) {
                lemma_node_slots_differ(n, node, self.maze.width, self.maze.height);
            }
        }
        assert(after.visited() =~= self.visited().remove(node));
    }

    /// Ageing keeps a snapshot well formed and the visited nodes visited.
    pub proof fn lemma_aged(self)
        requires
            self.wf(),
        ensures
            self.aged().wf(),
            self.aged().visited() == self.visited(),
            forall|n: Node|
                self.maze.contains(n) ==> self.aged().is_visited(n) == self.is_visited(n),
    {
        self.lemma_aged_count(self.age.len() as int);
        assert forall|n: Node| self.maze.contains(n) implies self.aged().is_visited(n)
            == self.is_visited(n) by {
            n.lemma_slot_in_bounds(self.maze.width, self.maze.height);
        }
        assert(self.aged().visited() =~= self.visited());
    }

    proof fn lemma_aged_count(self, count: int)
        requires
            0 <= count <= self.age.len(),
        ensures
            count_visited(self.aged().age, count) == count_visited(self.age, count),
        decreases count,
    {
        if count > 0 {
            self.lemma_aged_count(count - 1);
        }
    }

    /// The count of visited nodes is that of all nodes exactly when every
    /// node is visited, and never more.
    pub proof fn lemma_all_visited(self)
        requires
            self.wf(),
        ensures
            0 <= self.visited_count <= self.maze.width * self.maze.height,
            self.visited_count == self.maze.width * self.maze.height <==> self.all_visited(),
    {
        let w = self.maze.width as int;
        let h = self.maze.height as int;
        lemma_count_visited_bounds(self.age, self.age.len() as int);
        lemma_count_visited_full(self.age, self.age.len() as int);
        if self.all_visited() {
            assert forall|i: int| 0 <= i < self.age.len() implies (#[trigger] self.age[i]) is Some by {
                lemma_slot_cell(i, w, h);
                let n = Node((i % w) as usize, (i / w) as usize);
                assert(self.is_visited(n));
            }
        }
        if self.visited_count == w * h {
            assert forall|n: Node| self.maze.contains(n) implies self.is_visited(n) by {
                lemma_cell_slot(n.0 as int, n.1 as int, w, h);
            }
        }
    }

    /// Where a node is visited, the count of visited nodes is not zero.
    pub proof fn lemma_visited_counts(self, node: Node)
        requires
            self.wf(),
            self.maze.contains(node),
            self.is_visited(node),
        ensures
            self.visited_count >= 1,
    {
        node.lemma_slot_in_bounds(self.maze.width, self.maze.height);
        lemma_count_visited_update(self.age, self.slot(node), None, self.age.len() as int);
        lemma_count_visited_bounds(self.age.update(self.slot(node), None), self.age.len() as int);
    }

    /// A blank snapshot has no visited node and no linked nodes.
    pub proof fn lemma_blank(self)
        requires
            self.wf(),
            self.is_blank(),
        ensures
            forall|n: Node| self.maze.contains(n) ==> !self.is_visited(n),
            self.visited() == Set::<Node>::empty(),
    {
        assert forall|n: Node| self.maze.contains(n) implies !self.is_visited(n) by {
            n.lemma_slot_in_bounds(self.maze.width, self.maze.height);
        }
        assert(self.visited() =~= Set::<Node>::empty());
    }
}

/// Generalisation over different application phases.
pub trait Phase {
    /// Whether [`Phase::special`] can be asked about the node.
    spec fn knows(&self, node: Node) -> bool;

    spec fn spec_special(&self, node: Node) -> bool;

    /// Whether a node should be drawn as "special".
    fn special(&self, node: Node) -> (r: bool)
        requires
            self.knows(node),
        ensures
            r == self.spec_special(node),
    ;
}

/// Global state of the program.
pub struct State<T> {
    /// The maze being operated upon.
    pub maze: Maze,
    /// The age of each visited [`Node`]. This is set by [`State::visit`] and incremented by [`State::step`].
    pub age: NodeBuffer<Option<u8>>,
    /// Current number of visited nodes.
    pub visited_count: usize,
    /// State specific to each [`Phase`].
    pub phase: T,
}

impl<T> State<T> {
    /// What the state holds, apart from the payload of its phase.
    pub open spec fn view(&self) -> Snapshot {
        Snapshot { maze: self.maze@, age: self.age@, visited_count: self.visited_count as int }
    }

    /// The maze is well formed, the ages cover its nodes, and the count is
    /// that of the visited nodes.
    pub open spec fn wf(&self) -> bool {
        &&& self.maze.wf()
        &&& self.age.spec_width() == self.maze.width
        &&& self@.wf()
    }
}

impl<T: Phase> State<T> {
    /// Marks the given node as visited, with custom age.
    pub fn set_age(&mut self, node: Node, age: u8)
        requires
            old(self).wf(),
            old(self).maze.contains(node),
        ensures
            final(self).wf(),
            final(self)@ == old(self)@.set_age(node, age),
            final(self).maze == old(self).maze,
            final(self).phase == old(self).phase,
    {
        proof {
            self.age.lemma_covers(node, self.maze.width, self.maze.height);
            self@.lemma_set_age(node, age);
            self@.lemma_all_visited();
            node.lemma_slot_in_bounds(self.maze.width, self.maze.height);
        }
        let before = *self.age.get(node);
        self.age.set(node, Some(age));
        if before.is_none() {
            self.visited_count += 1;
        }
    }

    /// Marks the given node as visited, with age zero.
    pub fn visit(&mut self, node: Node)
        requires
            old(self).wf(),
            old(self).maze.contains(node),
        ensures
            final(self).wf(),
            final(self)@ == old(self)@.visit(node),
            final(self).maze == old(self).maze,
            final(self).phase == old(self).phase,
    {
        self.set_age(node, 0);
    }

    /// Unmarks the given node as visited.
    pub fn unvisit(&mut self, node: Node)
        requires
            old(self).wf(),
            old(self).maze.contains(node),
        ensures
            final(self).wf(),
            final(self)@ == old(self)@.unvisit(node),
            final(self).maze == old(self).maze,
            final(self).phase == old(self).phase,
    {
        proof {
            self.age.lemma_covers(node, self.maze.width, self.maze.height);
            self@.lemma_unvisit(node);
            self@.lemma_all_visited();
            node.lemma_slot_in_bounds(self.maze.width, self.maze.height);
            lemma_count_visited_bounds(self@.unvisit(node).age, self.age@.len() as int);
        }
        let before = *self.age.get(node);
        self.age.set(node, None);
        if before.is_some() {
            self.visited_count -= 1;
        }
    }

    /// Returns whether the given node is visited.
    pub fn is_visited(&self, node: Node) -> (r: bool)
        requires
            self.wf(),
            self.maze.contains(node),
        ensures
            r == self@.is_visited(node),
    {
        proof {
            self.age.lemma_covers(node, self.maze.width, self.maze.height);
        }
        self.age.get(node).is_some()
    }

    /// Whether all nodes of the maze have been visited.
    pub fn all_visited(&self) -> (r: bool)
        requires
            self.wf(),
        ensures
            r == self@.all_visited(),
    {
        proof {
            self@.lemma_all_visited();
        }
        self.visited_count == self.maze.width * self.maze.height
    }

    /// Increments the ages of all visited nodes, stopping at 255.
    pub fn step(&mut self)
        requires
            old(self).wf(),
        ensures
            final(self).wf(),
            final(self)@ == old(self)@.aged(),
            final(self).maze == old(self).maze,
            final(self).phase == old(self).phase,
    {
        proof {
            self@.lemma_aged();
        }
        let ghost before = self.age@;
        let ages = self.age.iter_mut();
        let mut i: usize = 0;
        while i < ages.len()
            invariant
                i <= ages@.len(),
                ages@.len() == before.len(),
                forall|j: int| 0 <= j < i ==> #[trigger] ages@[j] == next_age(before[j]),
                forall|j: int| i <= j < ages@.len() ==> #[trigger] ages@[j] == before[j],
            decreases ages.len() - i,
        {
            if let Some(age) = ages[i] {
                ages[i] = Some(age.saturating_add(1));
            }
            i += 1;
        }
        assert(ages@ =~= old(self)@.aged().age);
    }
}

/// What is drawn at one place of a frame.
#[derive(Clone, Copy, Debug, PartialEq, Eq, Structural)]
pub enum Cell {
    /// A node, or an open edge, with the age to colour it by.
    Painted { age: Option<u8>, special: bool },
    /// A closed edge, or the gap between two edges.
    Blank,
}

/// The older of two ages; none where either is none.
pub open spec fn older(a: Option<u8>, b: Option<u8>) -> Option<u8> {
    match (a, b) {
        (Some(x), Some(y)) => Some(
            if x >= y {
                x
            } else {
                y
            },
        ),
        _ => None,
    }
}

impl<T: Phase> State<T> {
    /// The cell of a node.
    pub open spec fn node_cell(&self, node: Node) -> Cell {
        Cell::Painted { age: self.age.at(node), special: self.phase.spec_special(node) }
    }

    /// The cell of an edge: blank where it is closed; else as old as the
    /// older of its ends, unvisited if either is, and special if both are.
    pub open spec fn edge_cell(&self, edge: Edge) -> Cell {
        if self.maze.is_open(edge) {
            Cell::Painted {
                age: older(self.age.at(edge.from), self.age.at(edge.to)),
                special: self.phase.spec_special(edge.from) && self.phase.spec_special(edge.to),
            }
        } else {
            Cell::Blank
        }
    }

    /// A row of nodes: each node, and after each but the last its east
    /// edge.
    pub open spec fn node_row(&self, y: int) -> Seq<Cell> {
        Seq::new(
            (2 * self.maze.width - 1) as nat,
            |i: int|
                if i % 2 == 0 {
                    self.node_cell(Node((i / 2) as usize, y as usize))
                } else {
                    self.edge_cell(
                        Edge {
                            from: Node((i / 2) as usize, y as usize),
                            to: Node((i / 2 + 1) as usize, y as usize),
                            direction: Direction::East,
                        },
                    )
                },
        )
    }

    /// A row of edges: the south edge of each node of the row above, and
    /// after each a blank.
    pub open spec fn edge_row(&self, y: int) -> Seq<Cell> {
        Seq::new(
            (2 * self.maze.width) as nat,
            |i: int|
                if i % 2 == 0 {
                    self.edge_cell(
                        Edge {
                            from: Node((i / 2) as usize, y as usize),
                            to: Node((i / 2) as usize, (y + 1) as usize),
                            direction: Direction::South,
                        },
                    )
                } else {
                    Cell::Blank
                },
        )
    }

    /// The frame: a row of nodes for each row of the maze, and between any
    /// two of them a row of edges.
    pub open spec fn spec_frame(&self) -> Seq<Seq<Cell>> {
        Seq::new(
            (2 * self.maze.height - 1) as nat,
            |j: int|
                if j % 2 == 0 {
                    self.node_row(j / 2)
                } else {
                    self.edge_row(j / 2)
                },
        )
    }

    /// The cell of the edge from a node in a direction.
    fn draw_edge(&self, edge: Edge) -> (r: Cell)
        requires
            self.wf(),
            edge.in_maze(self.maze.width, self.maze.height),
            self.phase.knows(edge.from),
            self.phase.knows(edge.to),
        ensures
            r == self.edge_cell(edge),
    {
        proof {
            self.maze.open.lemma_covers(edge, self.maze.width, self.maze.height);
            self.age.lemma_covers(edge.from, self.maze.width, self.maze.height);
            self.age.lemma_covers(edge.to, self.maze.width, self.maze.height);
        }
        if *self.maze.open.get(edge) {
            let age = match (*self.age.get(edge.from), *self.age.get(edge.to)) {
                (Some(a), Some(b)) => Some(
                    if a >= b {
                        a
                    } else {
                        b
                    },
                ),
                _ => None,
            };
            Cell::Painted {
                age,
                special: self.phase.special(edge.from) && self.phase.special(edge.to),
            }
        } else {
            Cell::Blank
        }
    }

    /// What is to be drawn of the state: every node and every edge between
    /// two nodes, row by row.
    pub fn frame(&self) -> (r: Vec<Vec<Cell>>)
        requires
            self.wf(),
            forall|n: Node| self.maze.contains(n) ==> self.phase.knows(n),
        ensures
            r@.len() == self.spec_frame().len(),
            forall|j: int| 0 <= j < r@.len() ==> (#[trigger] r@[j])@ == self.spec_frame()[j],
    {
        let width = self.maze.width;
        let height = self.maze.height;
        let mut rows: Vec<Vec<Cell>> = Vec::new();
        let mut y: usize = 0;
        while y < height
            invariant
                self.wf(),
                forall|n: Node| self.maze.contains(n) ==> self.phase.knows(n),
                width == self.maze.width,
                height == self.maze.height,
                y <= height,
                rows@.len() == if y == height {
                    2 * height - 1
                } else {
                    2 * y
                },
                forall|j: int| 0 <= j < rows@.len() ==> (#[trigger] rows@[j])@ == self.spec_frame()[j],
            decreases height - y,
        {
            let mut row: Vec<Cell> = Vec::new();
            let mut x: usize = 0;
            while x < width
                invariant
                    self.wf(),
                    forall|n: Node| self.maze.contains(n) ==> self.phase.knows(n),
                    width == self.maze.width,
                    height == self.maze.height,
                    y < height,
                    x <= width,
                    row@.len() == if x == width {
                        2 * width - 1
                    } else {
                        2 * x
                    },
                    forall|i: int| 0 <= i < row@.len() ==> #[trigger] row@[i] == self.node_row(y as int)[i],
                decreases width - x,
            {
                let node = Node(x, y);
                proof {
                    self.age.lemma_covers(node, width, height);
                    assert(self.maze.contains(node));
                }
                row.push(Cell::Painted { age: *self.age.get(node), special: self.phase.special(node) });
                if let Some(east) = self.maze.edge(node, Direction::East) {
                    proof {
                        assert(self.maze.contains(east.to));
                    }
                    row.push(self.draw_edge(east));
                }
                x += 1;
            }
            assert(row@ =~= self.node_row(y as int));
            rows.push(row);
            if y + 1 < height {
                let mut below: Vec<Cell> = Vec::new();
                let mut x: usize = 0;
                while x < width
                    invariant
                        self.wf(),
                        forall|n: Node| self.maze.contains(n) ==> self.phase.knows(n),
                        width == self.maze.width,
                        height == self.maze.height,
                        y + 1 < height,
                        x <= width,
                        below@.len() == 2 * x,
                        forall|i: int|
                            0 <= i < below@.len() ==> #[trigger] below@[i] == self.edge_row(y as int)[i],
                    decreases width - x,
                {
                    let node = Node(x, y);
                    proof {
                        assert(self.maze.contains(node));
                    }
                    match self.maze.edge(node, Direction::South) {
                        Some(south) => {
                            proof {
                                assert(self.maze.contains(south.to));
                            }
                            below.push(self.draw_edge(south));
                        },
                        None => {
                            below.push(Cell::Blank);
                        },
                    }
                    below.push(Cell::Blank);
                    x += 1;
                }
                assert(below@ =~= self.edge_row(y as int));
                rows.push(below);
            }
            y += 1;
        }
        rows
    }

    /// Marks every node as visited, with age zero.
    pub fn light_up(&mut self)
        requires
            old(self).wf(),
        ensures
            final(self).wf(),
            final(self).maze == old(self).maze,
            final(self).phase == old(self).phase,
            final(self).visited_count == old(self).maze.width * old(self).maze.height,
            forall|i: int|
                0 <= i < final(self).age@.len() ==> #[trigger] final(self).age@[i] == Some(0u8),
    {
        self.age.fill(Some(0));
        self.visited_count = self.maze.width * self.maze.height;
        proof {
            lemma_count_visited_full(self.age@, self.age@.len() as int);
        }
    }

    /// Unmarks every node.
    pub fn black_out(&mut self)
        requires
            old(self).wf(),
        ensures
            final(self).wf(),
            final(self).maze == old(self).maze,
            final(self).phase == old(self).phase,
            final(self).visited_count == 0,
            forall|i: int| 0 <= i < final(self).age@.len() ==> (#[trigger] final(self).age@[i]) is None,
    {
        self.age.fill(None);
        self.visited_count = 0;
        proof {
            lemma_count_visited_none(self.age@, self.age@.len() as int);
        }
    }
}

} // verus!
