use lattice_maze::generate;
use lattice_maze::generate::aldous_broder::AldousBroder;
use lattice_maze::generate::dfs::Dfs;
use lattice_maze::generate::kruskal::Kruskal;
use lattice_maze::generate::prim::Prim;
use lattice_maze::generate::wilson::Wilson;
use lattice_maze::generate::Generator;
use lattice_maze::maze::Direction;
use lattice_maze::maze::Maze;
use lattice_maze::maze::Node;
use lattice_maze::Animation;
use lattice_maze::Signal;
use rand::rngs::StdRng;
use rand::SeedableRng;
use std::collections::VecDeque;

fn open_edges(maze: &Maze) -> usize {
    maze.edges_iter().iter().filter(|e| *maze.open.get(**e)).count()
}

/// The number of nodes that open edges lead to from the first node.
fn reachable(maze: &Maze) -> usize {
    let mut seen = vec![false; maze.width * maze.height];
    let mut queue = VecDeque::from([Node(0, 0)]);
    seen[0] = true;
    let mut count = 0;
    while let Some(node) = queue.pop_front() {
        count += 1;
        let around = maze.open_neighbours(node);
        for i in 0..around.len() {
            let to = around.get(i).to;
            let slot = to.0 + to.1 * maze.width;
            if !seen[slot] {
                seen[slot] = true;
                queue.push_back(to);
            }
        }
    }
    count
}

fn is_spanning_tree(maze: &Maze) -> bool {
    let nodes = maze.width * maze.height;
    open_edges(maze) == nodes - 1 && reachable(maze) == nodes
}

fn generate<A: Animation<Phase = generate::Phase>>(width: u16, height: u16, seed: u64) -> (
    generate::State,
    usize,
) {
    let mut rng = StdRng::seed_from_u64(seed);
    let mut state = generate::state(Maze::new(width, height));
    let mut algorithm = A::new(&mut state, &mut rng);
    let mut steps = 0;
    while algorithm.step(&mut state, &mut rng) == Signal::Continue {
        state.step();
        steps += 1;
        assert!(steps < 1_000_000);
    }
    assert_eq!(algorithm.step(&mut state, &mut rng), Signal::Done);
    (state, steps)
}

const SIZES: [(u16, u16); 7] = [(2, 2), (4, 4), (5, 3), (3, 7), (1, 6), (6, 1), (9, 8)];

#[test]
fn aldous_broder_makes_a_spanning_tree() {
    for (width, height) in SIZES {
        for seed in 0..5 {
            let (state, _) = generate::<AldousBroder>(width, height, seed);
            assert!(is_spanning_tree(&state.maze));
            assert!(state.all_visited());
        }
    }
}

#[test]
fn dfs_makes_a_spanning_tree() {
    for (width, height) in SIZES {
        for seed in 0..5 {
            let (state, steps) = generate::<Dfs>(width, height, seed);
            assert!(is_spanning_tree(&state.maze));
            assert!(state.all_visited());
            let nodes = width as usize * height as usize;
            assert_eq!(steps, 2 * nodes - 1);
        }
    }
}

#[test]
fn dfs_on_a_single_node() {
    let (state, steps) = generate::<Dfs>(1, 1, 3);
    assert_eq!(steps, 1);
    assert!(state.all_visited());
    assert_eq!(open_edges(&state.maze), 0);
}

#[test]
fn kruskal_makes_a_spanning_tree() {
    for (width, height) in SIZES {
        for seed in 0..5 {
            let (state, steps) = generate::<Kruskal>(width, height, seed);
            assert!(is_spanning_tree(&state.maze));
            assert!(state.all_visited());
            let nodes = width as usize * height as usize;
            assert_eq!(steps, nodes - 1);
        }
    }
}

#[test]
fn prim_makes_a_spanning_tree() {
    for (width, height) in SIZES {
        for seed in 0..5 {
            let (state, _) = generate::<Prim>(width, height, seed);
            assert!(is_spanning_tree(&state.maze));
            assert!(state.all_visited());
        }
    }
}

#[test]
fn wilson_makes_a_spanning_tree() {
    for (width, height) in SIZES {
        for seed in 0..5 {
            let (state, _) = generate::<Wilson>(width, height, seed);
            assert!(is_spanning_tree(&state.maze));
            assert!(state.all_visited());
        }
    }
}

#[test]
fn timescales() {
    let mut rng = StdRng::seed_from_u64(0);
    let mut state = generate::state(Maze::new(3, 3));
    assert_eq!(AldousBroder::new(&mut state, &mut rng).timescale(), 100);
    let mut state = generate::state(Maze::new(3, 3));
    assert_eq!(Dfs::new(&mut state, &mut rng).timescale(), 100);
    let mut state = generate::state(Maze::new(3, 3));
    assert_eq!(Kruskal::new(&mut state, &mut rng).timescale(), 150);
    let mut state = generate::state(Maze::new(3, 3));
    assert_eq!(Prim::new(&mut state, &mut rng).timescale(), 100);
    let mut state = generate::state(Maze::new(3, 3));
    assert_eq!(Wilson::new(&mut state, &mut rng).timescale(), 125);
}

#[test]
fn generators_are_five() {
    let all = [
        Generator::AldousBroder,
        Generator::Dfs,
        Generator::Kruskal,
        Generator::Prim,
        Generator::Wilson,
    ];
    for (i, a) in all.iter().enumerate() {
        for (j, b) in all.iter().enumerate() {
            assert_eq!(a == b, i == j);
        }
    }
}

#[test]
fn aldous_broder_opens_the_edge_to_an_unvisited_node_only() {
    let mut rng = StdRng::seed_from_u64(5);
    let mut state = generate::state(Maze::new(3, 1));
    let mut walk = AldousBroder::new(&mut state, &mut rng);
    assert_eq!(state.visited_count, 0);
    // Wherever the walk starts, its first step visits the head and opens an edge.
    assert_eq!(walk.step(&mut state, &mut rng), Signal::Continue);
    assert_eq!(state.visited_count, 1);
    assert_eq!(open_edges(&state.maze), 1);
    let mut steps = 1;
    while walk.step(&mut state, &mut rng) == Signal::Continue {
        steps += 1;
        assert!(open_edges(&state.maze) <= 2);
        assert!(open_edges(&state.maze) + 1 >= state.visited_count);
        assert!(steps < 10_000);
    }
    assert_eq!(open_edges(&state.maze), 2);
}

#[test]
fn aldous_broder_crosses_the_edge_it_is_given() {
    let mut rng = StdRng::seed_from_u64(5);
    let mut state = generate::state(Maze::new(2, 2));
    let mut walk = AldousBroder::new(&mut state, &mut rng);
    // Find the head by the first step: it is the one visited node.
    assert_eq!(walk.step(&mut state, &mut rng), Signal::Continue);
    let first = state.maze.nodes_iter().into_iter().find(|n| state.is_visited(*n)).unwrap();
    let around = state.maze.open_neighbours(first);
    assert_eq!(around.len(), 1);
    let head = around.get(0).to;
    // Go back along the same edge: nothing new opens.
    let back = around.get(0).reverse();
    walk.cross(&mut state, back);
    assert!(state.is_visited(head));
    assert_eq!(state.visited_count, 2);
    assert_eq!(open_edges(&state.maze), 1);
    // Go on to the other neighbour of the first node: one more edge opens.
    let all = state.maze.neighbours(first);
    let other = (0..all.len()).map(|i| all.get(i)).find(|e| e.to != head).unwrap();
    walk.cross(&mut state, other);
    assert_eq!(state.visited_count, 2);
    assert_eq!(open_edges(&state.maze), 2);
    assert!(*state.maze.open.get(other));
}

#[test]
fn dfs_descends_and_backs_up() {
    let mut rng = StdRng::seed_from_u64(2);
    let mut state = generate::state(Maze::new(2, 1));
    let mut dfs = Dfs::new(&mut state, &mut rng);
    // The first step visits the first node and opens the only edge.
    assert_eq!(dfs.step(&mut state, &mut rng), Signal::Continue);
    assert_eq!(state.visited_count, 1);
    assert_eq!(open_edges(&state.maze), 1);
    // The second visits the other node, which has no unvisited neighbour.
    assert_eq!(dfs.step(&mut state, &mut rng), Signal::Continue);
    assert_eq!(state.visited_count, 2);
    // The third backs up from the first node, and the stack is empty.
    assert_eq!(dfs.step(&mut state, &mut rng), Signal::Continue);
    assert_eq!(dfs.step(&mut state, &mut rng), Signal::Done);
    assert_eq!(open_edges(&state.maze), 1);
}

#[test]
fn dfs_unvisited_neighbours_leave_out_the_visited() {
    let mut state = generate::state(Maze::new(3, 3));
    state.visit(Node(1, 0));
    state.visit(Node(0, 1));
    let around = Dfs::unvisited_neighbours(&state, Node(1, 1));
    assert_eq!(around.len(), 2);
    assert_eq!(around.get(0).to, Node(2, 1));
    assert_eq!(around.get(1).to, Node(1, 2));
}

#[test]
fn prim_takes_the_edge_at_the_index() {
    let mut rng = StdRng::seed_from_u64(9);
    let mut state = generate::state(Maze::new(3, 1));
    let mut prim = Prim::new(&mut state, &mut rng);
    assert_eq!(state.visited_count, 1);
    prim.grow(&mut state, 0);
    assert_eq!(state.visited_count, 2);
    assert_eq!(open_edges(&state.maze), 1);
    let mut steps = 0;
    while prim.step(&mut state, &mut rng) == Signal::Continue {
        steps += 1;
        assert!(steps < 100);
    }
    assert_eq!(open_edges(&state.maze), 2);
    assert!(state.all_visited());
}

#[test]
fn kruskal_roots_are_their_own_roots() {
    let mut rng = StdRng::seed_from_u64(4);
    let mut state = generate::state(Maze::new(4, 4));
    let mut kruskal = Kruskal::new(&mut state, &mut rng);
    for node in state.maze.nodes_iter() {
        assert_eq!(kruskal.find_root(&state.maze, node), node);
    }
    let mut opened = 0;
    while kruskal.step(&mut state, &mut rng) == Signal::Continue {
        opened += 1;
        let roots: Vec<Node> =
            state.maze.nodes_iter().iter().map(|n| kruskal.find_root(&state.maze, *n)).collect();
        for (node, root) in state.maze.nodes_iter().iter().zip(roots.iter()) {
            assert_eq!(kruskal.find_root(&state.maze, *root), *root);
            assert_eq!(kruskal.find_root(&state.maze, *node), *root);
        }
        let mut trees = roots.clone();
        trees.sort();
        trees.dedup();
        assert_eq!(trees.len(), 16 - opened);
        assert_eq!(open_edges(&state.maze), opened);
    }
    assert_eq!(opened, 15);
    let root = kruskal.find_root(&state.maze, Node(0, 0));
    for node in state.maze.nodes_iter() {
        assert_eq!(kruskal.find_root(&state.maze, node), root);
    }
}

#[test]
fn kruskal_joins_the_ends_of_an_open_edge() {
    let mut rng = StdRng::seed_from_u64(8);
    let mut state = generate::state(Maze::new(3, 3));
    let mut kruskal = Kruskal::new(&mut state, &mut rng);
    while kruskal.step(&mut state, &mut rng) == Signal::Continue {
        for edge in state.maze.edges_iter() {
            let same = kruskal.find_root(&state.maze, edge.from)
                == kruskal.find_root(&state.maze, edge.to);
            if *state.maze.open.get(edge) {
                assert!(same);
                assert!(state.is_visited(edge.from) && state.is_visited(edge.to));
            }
        }
    }
}

#[test]
fn wilson_starts_from_one_visited_node() {
    let mut rng = StdRng::seed_from_u64(6);
    let mut state = generate::state(Maze::new(3, 3));
    let _wilson = Wilson::new(&mut state, &mut rng);
    assert_eq!(state.visited_count, 1);
    assert_eq!(open_edges(&state.maze), 0);
}

#[test]
fn wilson_erases_a_loop() {
    let mut rng = StdRng::seed_from_u64(6);
    let mut state = generate::state(Maze::new(3, 3));
    let mut wilson = Wilson::new(&mut state, &mut rng);
    let goal = state.maze.nodes_iter().into_iter().find(|n| state.is_visited(*n)).unwrap();
    // Walk round a square that the goal is no corner of.
    let x = if goal.0 == 0 { 1 } else { 0 };
    let y = if goal.1 == 0 { 1 } else { 0 };
    let first = Node(x, y);
    let step = |maze: &Maze, from: Node, direction: Direction| maze.edge(from, direction).unwrap();
    wilson.begin(&state, first);
    let east = step(&state.maze, first, Direction::East);
    wilson.advance(&mut state, east);
    assert!(state.is_visited(first));
    assert!(*state.maze.open.get(east));
    let south = step(&state.maze, east.to, Direction::South);
    wilson.advance(&mut state, south);
    let west = step(&state.maze, south.to, Direction::West);
    wilson.advance(&mut state, west);
    assert_eq!(state.visited_count, 4);
    assert_eq!(open_edges(&state.maze), 3);
    // The step back to the first node closes the loop: all of it but the first node is erased.
    let north = step(&state.maze, west.to, Direction::North);
    assert_eq!(north.to, first);
    wilson.advance(&mut state, north);
    assert_eq!(state.visited_count, 2);
    assert_eq!(open_edges(&state.maze), 0);
    assert!(state.is_visited(first));
    assert!(state.is_visited(goal));
    assert!(!state.is_visited(east.to));
    assert!(!state.is_visited(south.to));
    assert!(!state.is_visited(west.to));
    assert!(!*state.maze.open.get(north));
    // The walk goes on from the first node, and the rest of the run makes a spanning tree.
    let mut steps = 0;
    while wilson.step(&mut state, &mut rng) == Signal::Continue {
        steps += 1;
        assert!(steps < 100_000);
    }
    assert!(is_spanning_tree(&state.maze));
}

#[test]
fn wilson_settles_a_walk_that_meets_the_maze() {
    let mut rng = StdRng::seed_from_u64(1);
    let mut state = generate::state(Maze::new(3, 1));
    let mut wilson = Wilson::new(&mut state, &mut rng);
    let goal = state.maze.nodes_iter().into_iter().find(|n| state.is_visited(*n)).unwrap();
    let first = if goal.0 == 0 { Node(2, 0) } else { Node(0, 0) };
    let toward = if goal.0 == 0 { Direction::West } else { Direction::East };
    wilson.begin(&state, first);
    let mut head = first;
    while head != goal {
        let edge = state.maze.edge(head, toward).unwrap();
        wilson.advance(&mut state, edge);
        head = edge.to;
    }
    let between = first.0.abs_diff(goal.0);
    assert_eq!(open_edges(&state.maze), between);
    assert_eq!(state.visited_count, between + 1);
}

#[test]
fn kruskal_takes_the_edges_in_random_order() {
    // The first edge that opens is, over a number of seeds, not always the same.
    let mut firsts = Vec::new();
    for seed in 0..20 {
        let mut rng = StdRng::seed_from_u64(seed);
        let mut state = generate::state(Maze::new(4, 4));
        let mut kruskal = Kruskal::new(&mut state, &mut rng);
        assert_eq!(kruskal.step(&mut state, &mut rng), Signal::Continue);
        let edges = state.maze.edges_iter();
        let first = edges.iter().position(|e| *state.maze.open.get(*e)).unwrap();
        assert_eq!(open_edges(&state.maze), 1);
        firsts.push(first);
    }
    firsts.sort();
    firsts.dedup();
    assert!(firsts.len() > 5);
}
