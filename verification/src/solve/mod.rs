//! The solving phase: searching the maze for a way from start to goal, and
//! noting for each node reached the node it was reached from.

use vstd::prelude::*;
use std::collections::VecDeque;
use crate::counting::lemma_count_true_bounds;
use crate::generate;
use crate::maze::Direction;
use crate::maze::Edge;
use crate::maze::Maze;
use crate::maze::MazeIndex;
use crate::maze::Node;
use crate::maze::NodeBuffer;
use crate::state;
use crate::state::lemma_count_visited_none;
use self::search::enqueued;
use self::search::layered;
use self::search::lemma_enqueued;
use self::search::lemma_layered_enqueued;
use self::search::lemma_layered_finish;
use self::search::lemma_layered_nearest;
use self::search::lemma_layered_pop;
use self::search::lemma_layered_start;
use self::search::raised;
use self::search::seen_at;
use self::search::lemma_search_exhausted;
use self::search::lemma_search_pop;
use self::search::lemma_search_start;
use self::search::lemma_searched_next;
use self::search::searched;
use self::search::searching;
use self::search::work_left;
use self::trace::depth_at;
use self::trace::lemma_traced_aged;
use self::trace::lemma_traced_note;
use self::trace::lemma_traced_visit;
use self::trace::lemma_way_back_is_shortest;
use self::trace::ancestor;
use self::trace::noted;
use self::trace::parent_at;
use self::trace::traced;
use self::trace::traced_at;

pub mod a_star;
pub mod flood;
pub mod mouse;
pub mod right_hand;
pub mod search;
pub mod trace;

verus! {

/// State for the solve phase.
pub struct Phase {
    /// Node being searched from.
    pub start: Node,
    /// Node being searched to.
    pub goal: Node,
    /// The parent of each visited node.
    pub parents: NodeBuffer<Option<Node>>,
}

impl state::Phase for Phase {
    open spec fn knows(&self, node: Node) -> bool {
        true
    }

    open spec fn spec_special(&self, node: Node) -> bool {
        node == self.start || node == self.goal
    }

    /// The start and the goal are special.
    fn special(&self, node: Node) -> (r: bool) {
        node == self.start || node == self.goal
    }
}

/// Global state in the solve phase.
pub type State = state::State<Phase>;

/// The algorithms that solve a maze.
#[derive(Clone, Copy, Debug, PartialEq, Eq, Structural)]
pub enum Solver {
    AStar,
    Flood,
    Mouse,
    RightHand,
}

/// The payload of the solve phase, apart from how it is stored.
pub struct Search {
    pub start: Node,
    pub goal: Node,
    pub parents: Seq<Option<Node>>,
}

impl Phase {
    /// The payload as values.
    pub open spec fn view(&self) -> Search {
        Search { start: self.start, goal: self.goal, parents: self.parents@ }
    }
}

/// Whether one of the edges leads to the node.
pub open spec fn among(edges: Seq<Edge>, node: Node) -> bool {
    exists|i: int| 0 <= i < edges.len() && (#[trigger] edges[i]).to == node
}

/// Searches breadth-first from a node for a node with exactly one open
/// edge; gives the node searched from where there is none.
pub fn find_dead_end(from: Node, maze: &Maze) -> (r: Node)
    requires
        maze.wf(),
        maze.contains(from),
    ensures
        r == maze@.first_dead_end(from),
        maze@.dead_end_from(from, r),
{
    let ghost l = maze@;
    let ghost w = maze.width;
    let ghost h = maze.height;
    let mut seen: NodeBuffer<bool> = NodeBuffer::new(maze);
    proof {
        seen.lemma_covers(from, w, h);
        from.lemma_slot_in_bounds(w, h);
        l.lemma_connected_reflexive(from);
    }
    let ghost blank = seen@;
    seen.set(from, true);
    let mut queue: VecDeque<Edge> = VecDeque::new();
    queue.push_back(Edge::identity(from));
    let ghost mut depths = Seq::new(blank.len(), |i: int| 0nat);
    let ghost mut floor = 0nat;
    proof {
        lemma_search_start(l, from, blank);
        lemma_layered_start(l, from, blank);
        assert(queue@ =~= seq![Edge { from, to: from, direction: Direction::North }]);
        assert(blank =~= Seq::new((w * h) as nat, |i: int| false));
    }
    loop
        invariant
            maze.wf(),
            l == maze@,
            w == maze.width,
            h == maze.height,
            l.contains(from),
            seen.fits(w, h),
            searching(l, from, seen@, queue@),
            layered(l, from, seen@, queue@, depths, floor, None),
            seen_at(seen@, w, from),
            depths.len() == w * h,
            depth_at(depths, w, from) == 0,
            l.is_dead_end(from) ==> queue@.len() > 0 && queue@[0].to == from,
            searched(l, from, seen@, queue@) == l.first_dead_end(from),
        decreases work_left(seen@, queue@),
    {
        let ghost entered = queue@;
        proof {
            lemma_count_true_bounds(seen@, seen@.len() as int);
        }
        let head = match queue.pop_front() {
            Some(head) => head,
            None => {
                proof {
                    assert(queue@ =~= Seq::<Edge>::empty());
                    assert forall|n: Node| l.connected(from, n) implies !l.is_dead_end(n) by {
                        lemma_search_exhausted(l, from, seen@, n);
                    }
                    l.lemma_connected_reflexive(from);
                }
                return from;
            },
        };
        let node = head.to;
        proof {
            assert(head == entered[0]);
            assert(queue@ =~= entered.drop_first());
            assert(queue@ =~= entered.subrange(1, entered.len() as int));
            lemma_search_pop(l, from, seen@, entered);
            lemma_layered_pop(l, from, seen@, entered, depths, floor);
            from.lemma_slot_in_bounds(w, h);
            floor = depth_at(depths, w, node);
            depths = raised(seen@, depths, floor);
        }
        let neighbours = maze.open_neighbours(node);
        if neighbours.len() == 1 {
            proof {
                lemma_layered_nearest(l, from, seen@, queue@, depths, floor, node);
            }
            return node;
        }
        proof {
            lemma_searched_next(l, from, seen@, entered);
            lemma_enqueued(l, from, seen@, queue@, node, neighbours@.len() as int);
            lemma_layered_enqueued(
                l,
                from,
                seen@,
                queue@,
                depths,
                floor,
                node,
                neighbours@.len() as int,
            );
        }
        enqueue_unseen(maze, node, &neighbours, &mut seen, &mut queue);
        proof {
            lemma_layered_finish(l, from, seen@, queue@, depths, floor, node);
            if l.is_dead_end(from) {
                assert(node == from);
            }
            assert(seen_at(seen@, w, from)) by {
                reveal(searching);
            }
        }
    }
}

/// Puts the edges to the unseen nodes around a node in the queue, and marks
/// those nodes as seen.
fn enqueue_unseen(
    maze: &Maze,
    node: Node,
    neighbours: &crate::neighbours::Neighbours<false>,
    seen: &mut NodeBuffer<bool>,
    queue: &mut VecDeque<Edge>,
)
    requires
        maze.wf(),
        maze.contains(node),
        neighbours@ == maze@.open_neighbours(node),
        old(seen).fits(maze.width, maze.height),
    ensures
        final(seen).fits(maze.width, maze.height),
        (final(seen)@, final(queue)@) == enqueued(
            old(seen)@,
            old(queue)@,
            maze.width,
            neighbours@,
            neighbours@.len() as int,
        ),
{
    let ghost l = maze@;
    let ghost w = maze.width;
    let ghost h = maze.height;
    let ghost seen_before = seen@;
    let ghost queue_before = queue@;
    proof {
        l.lemma_open_neighbours(node);
    }
    let mut i: usize = 0;
    while i < neighbours.len()
        invariant
            maze.wf(),
            l == maze@,
            w == maze.width,
            h == maze.height,
            seen.fits(w, h),
            i <= neighbours@.len(),
            forall|k: int|
                0 <= k < neighbours@.len() ==> (#[trigger] neighbours@[k]).in_maze(w, h),
            (seen@, queue@) == enqueued(seen_before, queue_before, w, neighbours@, i as int),
        decreases neighbours@.len() - i,
    {
        let edge = neighbours.get(i);
        proof {
            seen.lemma_covers(edge.to, w, h);
        }
        if !*seen.get(edge.to) {
            seen.set(edge.to, true);
            queue.push_back(edge);
        }
        i += 1;
    }
}

impl state::State<Phase> {
    /// The parent noted for a node.
    pub open spec fn parent_of(&self, node: Node) -> Option<Node> {
        parent_at(self.phase.parents@, self.maze.width, node)
    }

    /// Whether the node has been reached: it is the start or has a parent.
    pub open spec fn reached(&self, node: Node) -> bool {
        node == self.phase.start || self.parent_of(node) is Some
    }

    /// The state is well formed, the parents cover the nodes of the maze,
    /// and start and goal lie within it.
    pub open spec fn sized(&self) -> bool {
        &&& self.wf()
        &&& self.phase.parents.fits(self.maze.width, self.maze.height)
        &&& self.maze.contains(self.phase.start)
        &&& self.maze.contains(self.phase.goal)
    }

    /// Whether the search has not begun: no node is visited, none has a
    /// parent.
    pub open spec fn is_fresh(&self) -> bool {
        &&& self.sized()
        &&& self.visited_count == 0
        &&& forall|i: int| 0 <= i < self.age@.len() ==> (#[trigger] self.age@[i]) is None
        &&& forall|i: int|
            0 <= i < self.phase.parents@.len() ==> (#[trigger] self.phase.parents@[i]) is None
    }

    /// Whether the parents noted so far lead from every node that has been
    /// reached to the start.
    pub open spec fn sound(&self) -> bool {
        &&& self.sized()
        &&& exists|depths: Seq<nat>| #[trigger]
            traced(self@, self.phase.parents@, self.phase.start, depths)
    }

    /// Whether the search has reached the goal.
    pub open spec fn solved(&self) -> bool {
        &&& self.sound()
        &&& self@.is_visited(self.phase.goal)
        &&& (self.phase.goal == self.phase.start ==> self.parent_of(self.phase.start) is None
            || self.parent_of(self.phase.start) == Some(self.phase.start))
    }

    /// A fresh state is sound.
    pub proof fn lemma_fresh_sound(&self)
        requires
            self.is_fresh(),
        ensures
            self.sound(),
            forall|n: Node| self.maze.contains(n) ==> self.parent_of(n) is None,
            forall|n: Node| self.maze.contains(n) ==> !self@.is_visited(n),
    {
        let w = self.maze.width;
        let h = self.maze.height;
        let depths = Seq::new((w * h) as nat, |i: int| 0nat);
        assert forall|n: Node| self.maze.contains(n) implies self.parent_of(n) is None
            && !self@.is_visited(n) && depth_at(depths, w, n) == 0 by {
            n.lemma_slot_in_bounds(w, h);
        }
        self.phase.start.lemma_slot_in_bounds(w, h);
        assert forall|n: Node| self@.maze.contains(n) implies #[trigger] traced_at(
            self@,
            self.phase.parents@,
            self.phase.start,
            depths,
            n,
        ) by {
            assert(self.maze.contains(n));
            assert(self.parent_of(n) is None);
        }
        assert(traced(self@, self.phase.parents@, self.phase.start, depths));
    }

    /// What is sound stays sound as the visited nodes grow older.
    pub proof fn lemma_sound_outlives_ageing(&self, after: &state::State<Phase>)
        requires
            self.sound(),
            after.wf(),
            after@ == self@.aged(),
            after.maze == self.maze,
            after.phase == self.phase,
        ensures
            after.sound(),
            forall|n: Node| self.maze.contains(n) ==> after@.is_visited(n) == self@.is_visited(n),
    {
        self@.lemma_aged();
        let depths = choose|depths: Seq<nat>| #[trigger]
            traced(self@, self.phase.parents@, self.phase.start, depths);
        lemma_traced_aged(self@, self.phase.parents@, self.phase.start, depths);
    }

    /// Visits a node that has been reached.
    pub fn reach(&mut self, node: Node)
        requires
            old(self).sound(),
            old(self).maze.contains(node),
            old(self).reached(node),
        ensures
            final(self).sound(),
            final(self)@ == old(self)@.visit(node),
            final(self).maze == old(self).maze,
            final(self).phase == old(self).phase,
    {
        proof {
            let depths = choose|depths: Seq<nat>| #[trigger]
                traced(self@, self.phase.parents@, self.phase.start, depths);
            lemma_traced_visit(self@, self.phase.parents@, self.phase.start, depths, node);
        }
        self.visit(node);
    }

    /// Notes the near end of an open edge as the parent of its far end,
    /// unless the far end has a parent already.
    pub fn note_parent(&mut self, edge: Edge)
        requires
            old(self).sound(),
            edge.in_maze(old(self).maze.width, old(self).maze.height),
            old(self).maze.is_open(edge),
            old(self)@.is_visited(edge.from),
            old(self).reached(edge.from),
        ensures
            final(self).sound(),
            final(self)@ == old(self)@,
            final(self).maze == old(self).maze,
            final(self).phase.start == old(self).phase.start,
            final(self).phase.goal == old(self).phase.goal,
            final(self).phase.parents@ == noted(
                old(self).phase.parents@,
                old(self).maze.width,
                edge.to,
                edge.from,
            ),
            final(self).reached(edge.to),
            forall|n: Node|
                old(self).maze.contains(n) && n != edge.to ==> final(self).parent_of(n) == old(self).parent_of(n),
    {
        let ghost w = self.maze.width;
        let ghost h = self.maze.height;
        proof {
            self.phase.parents.lemma_covers(edge.to, w, h);
            edge.to.lemma_slot_in_bounds(w, h);
        }
        if self.phase.parents.get(edge.to).is_none() {
            let ghost before = *self;
            let ghost depths = choose|depths: Seq<nat>| #[trigger]
                traced(self@, self.phase.parents@, self.phase.start, depths);
            proof {
                assert(traced_at(self@, self.phase.parents@, self.phase.start, depths, edge.to));
                lemma_traced_note(self@, self.phase.parents@, self.phase.start, depths, edge);
            }
            self.phase.parents.set(edge.to, Some(edge.from));
            proof {
                let marks = if edge.to == self.phase.start {
                    depths
                } else {
                    depths.update(edge.to.spec_normalise(w), depth_at(depths, w, edge.from) + 1)
                };
                assert(self.phase.parents@ == before.phase.parents@.update(
                    edge.to.spec_normalise(w),
                    Some(edge.from),
                ));
                assert(traced(self@, self.phase.parents@, self.phase.start, marks));
                assert forall|n: Node| before.maze.contains(n) && n != edge.to implies self.parent_of(
                    n,
                ) == before.parent_of(n) by {
                    assert(before@.maze.contains(n));
                }
                assert(self.parent_of(edge.to) == Some(edge.from)) by {
                    assert(before@.maze.contains(edge.to));
                }
            }
        }
    }
}

/// Constructs the global state for the solve phase from that of the
/// generate phase: start and goal are the dead ends found from the top-left
/// and the bottom-right corner, and nothing is visited.
pub fn state(previous: generate::State) -> (r: State)
    requires
        previous.wf(),
    ensures
        r.is_fresh(),
        r.maze == previous.maze,
        r.phase.start == r.maze@.first_dead_end(Node(0, 0)),
        r.phase.goal == r.maze@.first_dead_end(
            Node((r.maze.width - 1) as usize, (r.maze.height - 1) as usize),
        ),
        r.maze@.dead_end_from(
            Node(0, 0),
            r.phase.start,
        ),
        r.maze@.dead_end_from(
            Node((r.maze.width - 1) as usize, (r.maze.height - 1) as usize),
            r.phase.goal,
        ),
{
    let age = NodeBuffer::new(&previous.maze);
    let parents = NodeBuffer::new(&previous.maze);
    let (top_left, bottom_right) = previous.maze.bounds();
    let start = find_dead_end(top_left, &previous.maze);
    let goal = find_dead_end(bottom_right, &previous.maze);
    proof {
        lemma_count_visited_none(age@, age@.len() as int);
    }
    State { maze: previous.maze, age, visited_count: 0, phase: Phase { start, goal, parents } }
}


impl state::State<Phase> {
    /// In a maze without cycles, the way back along the parents from a node
    /// that has been reached comes to the start after the least number of
    /// steps that any walk between the two takes, and that is less than the
    /// number of nodes visited where the node is visited.
    pub proof fn lemma_shortest_way_back(&self, node: Node) -> (steps: nat)
        requires
            self.sound(),
            self@.maze.acyclic(),
            self.maze.contains(node),
            self.reached(node),
        ensures
            ancestor(self.phase.parents@, self.maze.width, self.phase.start, node, steps)
                == self.phase.start,
            forall|j: nat|
                j < steps ==> #[trigger] ancestor(
                    self.phase.parents@,
                    self.maze.width,
                    self.phase.start,
                    node,
                    j,
                ) != self.phase.start,
            self@.maze.is_distance(self.phase.start, node, steps),
            self@.is_visited(node) ==> steps < self.visited_count,
    {
        let depths = choose|depths: Seq<nat>| #[trigger]
            traced(self@, self.phase.parents@, self.phase.start, depths);
        lemma_way_back_is_shortest(self@, self.phase.parents@, self.phase.start, depths, node);
        assert(traced_at(self@, self.phase.parents@, self.phase.start, depths, node));
        depth_at(depths, self.maze.width, node)
    }
}

} // verus!
