use lattice_maze::maze::Buffer;
use lattice_maze::maze::Direction;
use lattice_maze::maze::Edge;
use lattice_maze::maze::EdgeBuffer;
use lattice_maze::maze::Maze;
use lattice_maze::maze::MazeIndex;
use lattice_maze::maze::Node;
use lattice_maze::maze::NodeBuffer;
use rand::rngs::StdRng;
use rand::SeedableRng;
use std::collections::HashSet;

#[test]
fn directions_turn() {
    assert_eq!(Direction::North.clockwise(), Direction::East);
    assert_eq!(Direction::East.clockwise(), Direction::South);
    assert_eq!(Direction::South.clockwise(), Direction::West);
    assert_eq!(Direction::West.clockwise(), Direction::North);
    assert_eq!(Direction::North.anti_clockwise(), Direction::West);
    assert_eq!(Direction::West.anti_clockwise(), Direction::South);
    assert_eq!(Direction::South.anti_clockwise(), Direction::East);
    assert_eq!(Direction::East.anti_clockwise(), Direction::North);
    assert_eq!(Direction::North.reverse(), Direction::South);
    assert_eq!(Direction::South.reverse(), Direction::North);
    assert_eq!(Direction::East.reverse(), Direction::West);
    assert_eq!(Direction::West.reverse(), Direction::East);
}

#[test]
fn all_directions_go_clockwise_from_north() {
    assert_eq!(
        Direction::ALL,
        [Direction::North, Direction::East, Direction::South, Direction::West]
    );
    for d in Direction::ALL {
        assert_eq!(d.clockwise().clockwise(), d.reverse());
        assert_eq!(d.clockwise().anti_clockwise(), d);
        assert_eq!(d.reverse().reverse(), d);
    }
}

#[test]
fn new_maze_has_every_edge_closed() {
    let maze = Maze::new(4, 3);
    assert_eq!(maze.width, 4);
    assert_eq!(maze.height, 3);
    assert_eq!(maze.open.iter().len(), 24);
    assert!(maze.open.iter().iter().all(|open| !open));
}

#[test]
fn node_is_checked_against_the_bounds() {
    let maze = Maze::new(4, 3);
    assert_eq!(maze.node(0, 0), Some(Node(0, 0)));
    assert_eq!(maze.node(3, 2), Some(Node(3, 2)));
    assert_eq!(maze.node(4, 2), None);
    assert_eq!(maze.node(3, 3), None);
    assert_eq!(maze.node(usize::MAX, 0), None);
}

#[test]
fn edge_is_none_at_the_boundary() {
    let maze = Maze::new(4, 3);
    assert_eq!(maze.edge(Node(0, 0), Direction::North), None);
    assert_eq!(maze.edge(Node(0, 0), Direction::West), None);
    assert_eq!(maze.edge(Node(3, 2), Direction::East), None);
    assert_eq!(maze.edge(Node(3, 2), Direction::South), None);
    let east = maze.edge(Node(0, 0), Direction::East).unwrap();
    assert_eq!(east.from, Node(0, 0));
    assert_eq!(east.to, Node(1, 0));
    assert_eq!(east.direction, Direction::East);
    let north = maze.edge(Node(2, 2), Direction::North).unwrap();
    assert_eq!(north.from, Node(2, 2));
    assert_eq!(north.to, Node(2, 1));
    assert_eq!(north.direction, Direction::North);
    assert_eq!(maze.edge(Node(usize::MAX, 0), Direction::East), None);
    assert_eq!(maze.edge(Node(0, usize::MAX), Direction::South), None);
}

#[test]
fn bounds_are_the_two_corners() {
    let maze = Maze::new(4, 3);
    assert_eq!(maze.bounds(), (Node(0, 0), Node(3, 2)));
    assert_eq!(Maze::new(1, 1).bounds(), (Node(0, 0), Node(0, 0)));
}

#[test]
fn nodes_come_row_by_row() {
    let maze = Maze::new(3, 2);
    assert_eq!(
        maze.nodes_iter(),
        vec![Node(0, 0), Node(1, 0), Node(2, 0), Node(0, 1), Node(1, 1), Node(2, 1)]
    );
    let nodes = Node::iter(&maze);
    for (slot, node) in nodes.iter().enumerate() {
        assert_eq!(node.normalise(3), slot);
    }
}

#[test]
fn edges_come_once_each() {
    let maze = Maze::new(3, 2);
    let edges = maze.edges_iter();
    assert_eq!(edges.len(), 2 * 2 + 3 * 1);
    let east = |x, y| Edge { from: Node(x, y), to: Node(x + 1, y), direction: Direction::East };
    let south = |x, y| Edge { from: Node(x, y), to: Node(x, y + 1), direction: Direction::South };
    let expected = vec![
        east(0, 0),
        south(0, 0),
        east(1, 0),
        south(1, 0),
        south(2, 0),
        east(0, 1),
        east(1, 1),
    ];
    assert_eq!(edges.len(), expected.len());
    for (found, wanted) in edges.iter().zip(expected.iter()) {
        assert_eq!(found.from, wanted.from);
        assert_eq!(found.to, wanted.to);
        assert_eq!(found.direction, wanted.direction);
    }
    let mut slots: Vec<usize> = edges.iter().map(|e| e.normalise(3)).collect();
    slots.sort();
    slots.dedup();
    assert_eq!(slots.len(), edges.len());
    assert!(slots.iter().all(|slot| *slot < Edge::bound(3, 2)));
    assert_eq!(Edge::iter(&maze).len(), edges.len());
}

#[test]
fn node_slots_are_row_major() {
    assert_eq!(Node(0, 0).normalise(4), 0);
    assert_eq!(Node(3, 0).normalise(4), 3);
    assert_eq!(Node(1, 2).normalise(4), 9);
    assert_eq!(Node::bound(4, 3), 12);
}

#[test]
fn node_slots_are_a_bijection() {
    let maze = Maze::new(5, 4);
    let mut seen = vec![false; Node::bound(5, 4)];
    for node in maze.nodes_iter() {
        let slot = node.normalise(5);
        assert!(slot < 20);
        assert!(!seen[slot]);
        seen[slot] = true;
    }
    assert!(seen.iter().all(|s| *s));
}

#[test]
fn edge_slots_ignore_direction() {
    let maze = Maze::new(4, 3);
    let east = maze.edge(Node(1, 1), Direction::East).unwrap();
    let west = maze.edge(Node(2, 1), Direction::West).unwrap();
    assert_eq!(east.normalise(4), 2 * 5 + 1);
    assert_eq!(west.normalise(4), east.normalise(4));
    let south = maze.edge(Node(1, 1), Direction::South).unwrap();
    let north = maze.edge(Node(1, 2), Direction::North).unwrap();
    assert_eq!(south.normalise(4), 2 * 5);
    assert_eq!(north.normalise(4), south.normalise(4));
    assert_eq!(Edge::bound(4, 3), 24);
    for edge in maze.edges_iter() {
        assert_eq!(edge.reverse().normalise(4), edge.normalise(4));
    }
}

#[test]
fn edges_are_equal_in_either_direction() {
    let a = Node(1, 1);
    let b = Node(2, 1);
    let there = Edge { from: a, to: b, direction: Direction::East };
    let back = Edge { from: b, to: a, direction: Direction::West };
    assert!(there == back);
    assert!(back == there);
    assert!(there == there.reverse());
    assert!(there == there);
    let other = Edge { from: a, to: Node(1, 2), direction: Direction::South };
    assert!(there != other);
    assert!(other != back);
}

#[test]
fn reverse_swaps_the_ends() {
    let edge = Edge { from: Node(1, 1), to: Node(1, 0), direction: Direction::North };
    let back = edge.reverse();
    assert_eq!(back.from, Node(1, 0));
    assert_eq!(back.to, Node(1, 1));
    assert_eq!(back.direction, Direction::South);
}

#[test]
fn identity_edge_joins_a_node_to_itself() {
    let edge = Edge::identity(Node(2, 3));
    assert_eq!(edge.from, Node(2, 3));
    assert_eq!(edge.to, Node(2, 3));
    assert_eq!(edge.direction, Direction::North);
}

#[test]
fn manhattan_distance_adds_the_two_differences() {
    assert_eq!(Node(1, 5).manhattan(Node(4, 1)), 7);
    assert_eq!(Node(4, 1).manhattan(Node(1, 5)), 7);
    assert_eq!(Node(2, 2).manhattan(Node(2, 2)), 0);
    assert_eq!(Node(0, 0).manhattan(Node(3, 3)), 6);
}

#[test]
fn default_node_is_the_origin() {
    assert_eq!(Node::default(), Node(0, 0));
}

#[test]
fn nodes_are_ordered_by_column_then_row() {
    assert!(Node(0, 5) < Node(1, 0));
    assert!(Node(1, 0) < Node(1, 1));
    assert!(Node(2, 2) == Node(2, 2));
}

#[test]
fn neighbours_come_clockwise_from_north() {
    let maze = Maze::new(3, 3);
    let around = maze.neighbours(Node(1, 1));
    assert_eq!(around.len(), 4);
    assert_eq!(around.get(0).to, Node(1, 0));
    assert_eq!(around.get(1).to, Node(2, 1));
    assert_eq!(around.get(2).to, Node(1, 2));
    assert_eq!(around.get(3).to, Node(0, 1));
    for i in 0..4 {
        assert_eq!(around.get(i).from, Node(1, 1));
        assert_eq!(around.get(i).direction, Direction::ALL[i]);
    }
    let corner = maze.neighbours(Node(0, 0));
    assert_eq!(corner.len(), 2);
    assert_eq!(corner.get(0).to, Node(1, 0));
    assert_eq!(corner.get(1).to, Node(0, 1));
    assert_eq!(Maze::new(1, 1).neighbours(Node(0, 0)).len(), 0);
}

#[test]
fn open_neighbours_are_those_behind_open_edges() {
    let mut maze = Maze::new(3, 3);
    assert_eq!(maze.open_neighbours(Node(1, 1)).len(), 0);
    let east = maze.edge(Node(1, 1), Direction::East).unwrap();
    let north = maze.edge(Node(1, 1), Direction::North).unwrap();
    maze.open.set(east, true);
    maze.open.set(north.reverse(), true);
    let around = maze.open_neighbours(Node(1, 1));
    assert_eq!(around.len(), 2);
    assert_eq!(around.get(0).to, Node(1, 0));
    assert_eq!(around.get(1).to, Node(2, 1));
    let from_east = maze.open_neighbours(Node(2, 1));
    assert_eq!(from_east.len(), 1);
    assert_eq!(from_east.get(0).to, Node(1, 1));
    assert_eq!(from_east.get(0).direction, Direction::West);
}

#[test]
fn filter_keeps_the_neighbours_that_meet_the_predicate() {
    let maze = Maze::new(3, 3);
    let kept = maze.neighbours(Node(1, 1)).filter(|n| n.0 == 1);
    assert_eq!(kept.len(), 2);
    assert_eq!(kept.get(0).to, Node(1, 0));
    assert_eq!(kept.get(1).to, Node(1, 2));
    let none = maze.neighbours(Node(1, 1)).filter(|_| false);
    assert_eq!(none.len(), 0);
    let all = maze.neighbours(Node(1, 1)).filter(|_| true);
    assert_eq!(all.len(), 4);
}

#[test]
fn pick_gives_one_of_the_neighbours() {
    let maze = Maze::new(3, 3);
    let mut rng = StdRng::seed_from_u64(7);
    let mut seen = [false; 4];
    for _ in 0..200 {
        let around = maze.neighbours(Node(1, 1));
        let edge = around.pick(&mut rng);
        let at = (0..4).find(|i| around.get(*i).to == edge.to).unwrap();
        assert_eq!(edge.from, Node(1, 1));
        assert_eq!(edge.direction, Direction::ALL[at]);
        seen[at] = true;
    }
    assert!(seen.iter().all(|s| *s));
}

#[test]
fn pick_from_a_filtered_list_gives_none_when_it_is_empty() {
    let maze = Maze::new(3, 3);
    let mut rng = StdRng::seed_from_u64(7);
    assert!(maze.neighbours(Node(1, 1)).filter(|_| false).pick(&mut rng).is_none());
    assert!(maze.open_neighbours(Node(1, 1)).pick(&mut rng).is_none());
    let one = maze.neighbours(Node(1, 1)).filter(|n| n == Node(0, 1));
    let edge = one.pick(&mut rng).unwrap();
    assert_eq!(edge.to, Node(0, 1));
    assert_eq!(edge.direction, Direction::West);
}

#[test]
fn random_node_lies_within_the_maze() {
    let maze = Maze::new(5, 2);
    let mut rng = StdRng::seed_from_u64(11);
    let mut seen = vec![false; 10];
    for _ in 0..500 {
        let node = maze.random_node(&mut rng);
        assert!(node.0 < 5);
        assert!(node.1 < 2);
        seen[node.normalise(5)] = true;
    }
    assert!(seen.iter().all(|s| *s));
}

#[test]
fn random_node_where_meets_the_predicate() {
    let maze = Maze::new(5, 2);
    let mut rng = StdRng::seed_from_u64(13);
    for _ in 0..100 {
        let node = maze.random_node_where(|n| n.0 >= 3, &mut rng).unwrap();
        assert!(node.0 >= 3 && node.0 < 5 && node.1 < 2);
    }
    assert_eq!(maze.random_node_where(|n| n.0 > 4, &mut rng), None);
    assert_eq!(maze.random_node_where(|n| n == Node(2, 1), &mut rng), Some(Node(2, 1)));
}

#[test]
fn buffer_of_defaults() {
    let maze = Maze::new(3, 2);
    let flags: NodeBuffer<bool> = NodeBuffer::new(&maze);
    assert_eq!(flags.iter(), &[false; 6]);
    let ages: NodeBuffer<Option<u8>> = Buffer::new(&maze);
    assert_eq!(ages.iter(), &[None; 6]);
    let opens: EdgeBuffer<bool> = EdgeBuffer::new(&maze);
    assert_eq!(opens.iter().len(), 12);
}

#[test]
fn buffer_of_one_value() {
    let maze = Maze::new(3, 2);
    let scores: NodeBuffer<usize> = NodeBuffer::new_with_values(&maze, usize::MAX);
    assert_eq!(scores.iter(), &[usize::MAX; 6]);
    assert_eq!(*scores.get(Node(2, 1)), usize::MAX);
}

#[test]
fn buffer_from_a_function_of_the_index() {
    let maze = Maze::new(3, 2);
    let own: NodeBuffer<Node> = NodeBuffer::new_from_function(&maze, |n| n);
    for node in maze.nodes_iter() {
        assert_eq!(*own.get(node), node);
    }
    let sums: NodeBuffer<usize> = NodeBuffer::new_from_function(&maze, |n: Node| 10 * n.1 + n.0);
    assert_eq!(sums.iter(), &[0, 1, 2, 10, 11, 12]);
}

#[test]
fn buffer_set_changes_one_slot() {
    let maze = Maze::new(3, 2);
    let mut buffer: NodeBuffer<u8> = NodeBuffer::new(&maze);
    buffer.set(Node(1, 1), 9);
    assert_eq!(buffer.iter(), &[0, 0, 0, 0, 9, 0]);
    assert_eq!(*buffer.get(Node(1, 1)), 9);
    assert_eq!(*buffer.get(Node(1, 0)), 0);
}

#[test]
fn buffer_fill_changes_every_slot() {
    let maze = Maze::new(3, 2);
    let mut buffer: NodeBuffer<u8> = NodeBuffer::new(&maze);
    buffer.set(Node(1, 1), 9);
    buffer.fill(4);
    assert_eq!(buffer.iter(), &[4; 6]);
}

#[test]
fn buffer_iter_mut_gives_the_slots_to_change() {
    let maze = Maze::new(3, 2);
    let mut buffer: NodeBuffer<u8> = NodeBuffer::new(&maze);
    for (i, slot) in buffer.iter_mut().iter_mut().enumerate() {
        *slot = i as u8;
    }
    assert_eq!(buffer.iter(), &[0, 1, 2, 3, 4, 5]);
    assert_eq!(*buffer.get(Node(2, 1)), 5);
}

#[test]
fn edge_buffer_is_indexed_by_either_direction() {
    let maze = Maze::new(3, 2);
    let mut buffer: EdgeBuffer<u8> = EdgeBuffer::new(&maze);
    let east = maze.edge(Node(0, 1), Direction::East).unwrap();
    buffer.set(east, 3);
    assert_eq!(*buffer.get(east.reverse()), 3);
    assert_eq!(*buffer.get(maze.edge(Node(1, 1), Direction::West).unwrap()), 3);
    assert_eq!(*buffer.get(maze.edge(Node(0, 0), Direction::South).unwrap()), 0);
}

#[test]
fn equal_edges_hash_alike() {
    let maze = Maze::new(3, 3);
    let mut set = HashSet::new();
    for edge in maze.edges_iter() {
        assert!(set.insert(edge));
        assert!(!set.insert(edge.reverse()));
        assert!(set.contains(&edge.reverse()));
    }
    assert_eq!(set.len(), 12);
    let east = maze.edge(Node(0, 0), Direction::East).unwrap();
    assert_eq!(east.ends(), (Node(0, 0), Node(1, 0)));
    assert_eq!(east.reverse().ends(), (Node(0, 0), Node(1, 0)));
    let north = maze.edge(Node(2, 2), Direction::North).unwrap();
    assert_eq!(north.ends(), (Node(2, 1), Node(2, 2)));
}
