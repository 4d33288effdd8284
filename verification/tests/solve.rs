use lattice_maze::generate;
use lattice_maze::generate::kruskal::Kruskal;
use lattice_maze::generate::wilson::Wilson;
use lattice_maze::maze::Direction;
use lattice_maze::maze::Maze;
use lattice_maze::maze::Node;
use lattice_maze::solve;
use lattice_maze::solve::a_star::AStar;
use lattice_maze::solve::find_dead_end;
use lattice_maze::solve::flood::Flood;
use lattice_maze::solve::mouse::Mouse;
use lattice_maze::solve::right_hand::RightHand;
use lattice_maze::solve::Solver;
use lattice_maze::state::Phase;
use lattice_maze::walk;
use lattice_maze::walk::Walker;
use lattice_maze::Animation;
use lattice_maze::Signal;
use rand::rngs::StdRng;
use rand::SeedableRng;
use std::collections::VecDeque;

fn generated<A: Animation<Phase = generate::Phase>>(width: u16, height: u16, seed: u64) -> Maze {
    let mut rng = StdRng::seed_from_u64(seed);
    let mut state = generate::state(Maze::new(width, height));
    let mut algorithm = A::new(&mut state, &mut rng);
    while algorithm.step(&mut state, &mut rng) == Signal::Continue {}
    state.maze
}

/// The number of open edges from one node to each node that they lead to.
fn distances(maze: &Maze, from: Node) -> Vec<Option<usize>> {
    let mut found = vec![None; maze.width * maze.height];
    let mut queue = VecDeque::from([from]);
    found[from.0 + from.1 * maze.width] = Some(0);
    while let Some(node) = queue.pop_front() {
        let here = found[node.0 + node.1 * maze.width].unwrap();
        let around = maze.open_neighbours(node);
        for i in 0..around.len() {
            let to = around.get(i).to;
            let slot = to.0 + to.1 * maze.width;
            if found[slot].is_none() {
                found[slot] = Some(here + 1);
                queue.push_back(to);
            }
        }
    }
    found
}

/// The nodes from the goal back to the start, along the parents.
fn way_back(state: &solve::State) -> Vec<Node> {
    let mut path = vec![state.phase.goal];
    let mut head = state.phase.goal;
    while head != state.phase.start {
        let parent = state.phase.parents.get(head).unwrap();
        let around = state.maze.open_neighbours(head);
        assert!((0..around.len()).any(|i| around.get(i).to == parent));
        head = parent;
        path.push(head);
        assert!(path.len() <= state.maze.width * state.maze.height);
    }
    path
}

fn solve<A: Animation<Phase = solve::Phase>>(maze: Maze, seed: u64) -> (solve::State, usize) {
    let mut rng = StdRng::seed_from_u64(seed);
    let mut state = solve::state(generate::state(maze));
    let mut algorithm = A::new(&mut state, &mut rng);
    let mut steps = 0;
    while algorithm.step(&mut state, &mut rng) == Signal::Continue {
        state.step();
        steps += 1;
        assert!(steps < 1_000_000);
    }
    (state, steps)
}

fn check_solved(state: &solve::State) {
    assert!(state.is_visited(state.phase.goal));
    assert!(state.is_visited(state.phase.start));
    let path = way_back(state);
    let wanted = distances(&state.maze, state.phase.start);
    let goal = state.phase.goal;
    assert_eq!(path.len() - 1, wanted[goal.0 + goal.1 * state.maze.width].unwrap());
    for node in path {
        assert!(state.is_visited(node));
    }
}

const SIZES: [(u16, u16); 5] = [(2, 2), (4, 4), (5, 3), (1, 6), (9, 8)];

#[test]
fn dead_end_search_gives_the_corner_if_it_is_one() {
    let mut maze = Maze::new(3, 3);
    let east = maze.edge(Node(0, 0), Direction::East).unwrap();
    maze.open.set(east, true);
    assert_eq!(find_dead_end(Node(0, 0), &maze), Node(0, 0));
    assert_eq!(find_dead_end(Node(1, 0), &maze), Node(1, 0));
}

#[test]
fn dead_end_search_gives_the_node_itself_if_nothing_is_open() {
    let maze = Maze::new(3, 3);
    assert_eq!(find_dead_end(Node(2, 2), &maze), Node(2, 2));
}

#[test]
fn dead_end_search_finds_the_nearest() {
    // A maze of one long row and a short stub down from the corner:
    //   (0,0) - (1,0) - (2,0) - (3,0)
    //     |
    //   (0,1)
    let mut maze = Maze::new(4, 2);
    for x in 0..3 {
        let east = maze.edge(Node(x, 0), Direction::East).unwrap();
        maze.open.set(east, true);
    }
    let south = maze.edge(Node(0, 0), Direction::South).unwrap();
    maze.open.set(south, true);
    assert_eq!(find_dead_end(Node(0, 0), &maze), Node(0, 1));
    // Two steps either way from (1,0): the east is looked at before the west.
    assert_eq!(find_dead_end(Node(1, 0), &maze), Node(3, 0));
    assert_eq!(find_dead_end(Node(2, 0), &maze), Node(3, 0));
    assert_eq!(find_dead_end(Node(3, 0), &maze), Node(3, 0));
}

#[test]
fn dead_end_search_looks_clockwise_from_north() {
    // A cross: the four arms are equally near to the middle; north comes first.
    let mut maze = Maze::new(3, 3);
    for direction in Direction::ALL {
        let edge = maze.edge(Node(1, 1), direction).unwrap();
        maze.open.set(edge, true);
    }
    assert_eq!(find_dead_end(Node(1, 1), &maze), Node(1, 0));
}

#[test]
fn solve_state_starts_fresh_between_two_dead_ends() {
    for seed in 0..10 {
        let maze = generated::<Kruskal>(5, 4, seed);
        let state = solve::state(generate::state(maze));
        assert_eq!(state.visited_count, 0);
        assert!(state.age.iter().iter().all(|age| age.is_none()));
        assert!(state.phase.parents.iter().iter().all(|parent| parent.is_none()));
        assert_eq!(state.maze.open_neighbours(state.phase.start).len(), 1);
        assert_eq!(state.maze.open_neighbours(state.phase.goal).len(), 1);
        assert_eq!(state.phase.start, find_dead_end(Node(0, 0), &state.maze));
        assert_eq!(state.phase.goal, find_dead_end(Node(4, 3), &state.maze));
        for node in state.maze.nodes_iter() {
            let special = node == state.phase.start || node == state.phase.goal;
            assert_eq!(state.phase.special(node), special);
        }
    }
}

#[test]
fn a_star_finds_the_way() {
    for (width, height) in SIZES {
        for seed in 0..5 {
            let (state, _) = solve::<AStar>(generated::<Kruskal>(width, height, seed), seed);
            check_solved(&state);
            assert!(state.visited_count <= width as usize * height as usize);
        }
    }
}

#[test]
fn flood_finds_the_way() {
    for (width, height) in SIZES {
        for seed in 0..5 {
            let (state, steps) = solve::<Flood>(generated::<Wilson>(width, height, seed), seed);
            check_solved(&state);
            let wanted = distances(&state.maze, state.phase.start);
            let goal = state.phase.goal;
            assert_eq!(steps, wanted[goal.0 + goal.1 * state.maze.width].unwrap());
        }
    }
}

#[test]
fn mouse_finds_the_way() {
    for (width, height) in SIZES {
        for seed in 0..5 {
            let (state, _) = solve::<Mouse>(generated::<Kruskal>(width, height, seed), seed);
            check_solved(&state);
        }
    }
}

#[test]
fn right_hand_finds_the_way() {
    for (width, height) in SIZES {
        for seed in 0..5 {
            let (state, steps) = solve::<RightHand>(generated::<Wilson>(width, height, seed), seed);
            check_solved(&state);
            assert!(steps <= 2 * (width as usize * height as usize));
        }
    }
}

#[test]
fn flood_visits_the_nodes_layer_by_layer() {
    for seed in 0..5 {
        let maze = generated::<Kruskal>(6, 5, seed);
        let mut rng = StdRng::seed_from_u64(seed);
        let mut state = solve::state(generate::state(maze));
        let wanted = distances(&state.maze, state.phase.start);
        let mut flood = Flood::new(&mut state, &mut rng);
        assert_eq!(flood.timescale(), 75);
        let mut layer = 0;
        let mut seen = vec![false; 30];
        loop {
            let signal = flood.step(&mut state, &mut rng);
            for node in state.maze.nodes_iter() {
                let slot = node.0 + node.1 * 6;
                if state.is_visited(node) && !seen[slot] {
                    seen[slot] = true;
                    assert_eq!(wanted[slot], Some(layer));
                    let parent = state.phase.parents.get(node).unwrap();
                    if node == state.phase.start {
                        assert_eq!(parent, node);
                    } else {
                        assert_eq!(wanted[parent.0 + parent.1 * 6], Some(layer - 1));
                    }
                }
            }
            if signal == Signal::Done {
                break;
            }
            layer += 1;
        }
        assert!(state.is_visited(state.phase.goal));
    }
}

#[test]
fn a_star_expands_the_node_that_seems_nearest() {
    // A maze of one row: the goal is at the far end, so every node is expanded in turn.
    let mut maze = Maze::new(4, 1);
    for x in 0..3 {
        let east = maze.edge(Node(x, 0), Direction::East).unwrap();
        maze.open.set(east, true);
    }
    let mut rng = StdRng::seed_from_u64(0);
    let mut state = solve::state(generate::state(maze));
    assert_eq!(state.phase.start, Node(0, 0));
    assert_eq!(state.phase.goal, Node(3, 0));
    let mut a_star = AStar::new(&mut state, &mut rng);
    for x in 0..3 {
        assert_eq!(a_star.step(&mut state, &mut rng), Signal::Continue);
        assert_eq!(state.visited_count, x + 1);
        assert!(state.is_visited(Node(x, 0)));
        assert_eq!(*state.phase.parents.get(Node(x + 1, 0)), Some(Node(x, 0)));
    }
    assert_eq!(a_star.step(&mut state, &mut rng), Signal::Done);
    assert_eq!(state.visited_count, 4);
    assert_eq!(a_star.step(&mut state, &mut rng), Signal::Done);
    assert_eq!(*state.phase.parents.get(Node(0, 0)), None);
}

#[test]
fn a_star_takes_the_lowest_score_and_then_the_greatest_node() {
    // A cross with the start in the middle; the goal is the end of the south arm.
    //           (1,0)
    //   (0,1) - (1,1) - (2,1)
    //           (1,2)
    //           (1,3)
    let mut maze = Maze::new(3, 4);
    for direction in Direction::ALL {
        let edge = maze.edge(Node(1, 1), direction).unwrap();
        maze.open.set(edge, true);
    }
    let south = maze.edge(Node(1, 2), Direction::South).unwrap();
    maze.open.set(south, true);
    let mut rng = StdRng::seed_from_u64(0);
    let mut state = solve::state(generate::state(maze));
    state.phase.start = Node(1, 1);
    state.phase.goal = Node(1, 3);
    let mut a_star = AStar::new(&mut state, &mut rng);
    assert_eq!(a_star.step(&mut state, &mut rng), Signal::Continue);
    assert!(state.is_visited(Node(1, 1)));
    // Of the four arms, the south one has the lowest score.
    assert_eq!(a_star.step(&mut state, &mut rng), Signal::Continue);
    assert!(state.is_visited(Node(1, 2)));
    assert_eq!(a_star.step(&mut state, &mut rng), Signal::Done);
    assert!(state.is_visited(Node(1, 3)));
    assert_eq!(state.visited_count, 3);
    assert!(!state.is_visited(Node(1, 0)));
    assert!(!state.is_visited(Node(0, 1)));
    assert!(!state.is_visited(Node(2, 1)));
}

#[test]
fn a_star_pops_equal_scores_by_node() {
    // The goal lies north; east and west seem equally near, and east is the greater node.
    let mut maze = Maze::new(3, 3);
    for direction in [Direction::East, Direction::West] {
        let edge = maze.edge(Node(1, 2), direction).unwrap();
        maze.open.set(edge, true);
    }
    for x in [0, 2] {
        for y in [1, 0] {
            let south = maze.edge(Node(x, y), Direction::South).unwrap();
            maze.open.set(south, true);
        }
    }
    let top = maze.edge(Node(0, 0), Direction::East).unwrap();
    maze.open.set(top, true);
    let mut rng = StdRng::seed_from_u64(0);
    let mut state = solve::state(generate::state(maze));
    state.phase.start = Node(1, 2);
    state.phase.goal = Node(1, 0);
    let mut a_star = AStar::new(&mut state, &mut rng);
    assert_eq!(a_star.step(&mut state, &mut rng), Signal::Continue);
    assert_eq!(a_star.step(&mut state, &mut rng), Signal::Continue);
    assert!(state.is_visited(Node(2, 2)));
    assert!(!state.is_visited(Node(0, 2)));
    let taken = a_star.pop_best().unwrap();
    assert_eq!(taken.1, Node(2, 1));
    assert_eq!(taken.0, 2 + 2);
    let next = a_star.pop_best().unwrap();
    assert_eq!(next, (1 + 3, Node(0, 2)));
    assert_eq!(a_star.pop_best(), None);
}

#[test]
fn mouse_notes_a_parent_only_once() {
    let mut maze = Maze::new(3, 1);
    for x in 0..2 {
        let east = maze.edge(Node(x, 0), Direction::East).unwrap();
        maze.open.set(east, true);
    }
    let mut rng = StdRng::seed_from_u64(0);
    let mut state = solve::state(generate::state(maze));
    state.phase.start = Node(1, 0);
    state.phase.goal = Node(2, 0);
    let mut mouse = Mouse::new(&mut state, &mut rng);
    let west = state.maze.edge(Node(1, 0), Direction::West).unwrap();
    mouse.follow(&mut state, west);
    assert_eq!(*state.phase.parents.get(Node(0, 0)), Some(Node(1, 0)));
    assert!(state.is_visited(Node(1, 0)));
    assert!(!state.is_visited(Node(0, 0)));
    mouse.follow(&mut state, west.reverse());
    assert!(state.is_visited(Node(0, 0)));
    // The start gets a parent when the mouse comes back to it.
    assert_eq!(*state.phase.parents.get(Node(1, 0)), Some(Node(0, 0)));
    mouse.follow(&mut state, west);
    assert_eq!(*state.phase.parents.get(Node(0, 0)), Some(Node(1, 0)));
    mouse.follow(&mut state, west.reverse());
    let east = state.maze.edge(Node(1, 0), Direction::East).unwrap();
    mouse.follow(&mut state, east);
    assert_eq!(*state.phase.parents.get(Node(2, 0)), Some(Node(1, 0)));
    assert_eq!(mouse.step(&mut state, &mut rng), Signal::Done);
    assert!(state.is_visited(Node(2, 0)));
    assert_eq!(state.visited_count, 3);
}

#[test]
fn right_hand_follows_the_wall() {
    //   (0,0) - (1,0)
    //     |
    //   (0,1) - (1,1)
    let mut maze = Maze::new(2, 2);
    for (node, direction) in [
        (Node(0, 0), Direction::East),
        (Node(0, 0), Direction::South),
        (Node(0, 1), Direction::East),
    ] {
        let edge = maze.edge(node, direction).unwrap();
        maze.open.set(edge, true);
    }
    let mut rng = StdRng::seed_from_u64(0);
    let mut state = solve::state(generate::state(maze));
    state.phase.start = Node(1, 0);
    state.phase.goal = Node(1, 1);
    let mut walker = RightHand::new(&mut state, &mut rng);
    // Facing north at (1,0): north and then west by turning left; west is open.
    assert_eq!(walker.step(&mut state, &mut rng), Signal::Continue);
    assert_eq!(*state.phase.parents.get(Node(0, 0)), Some(Node(1, 0)));
    // At (0,0), having come west, the walker faces north, then turns left to west and south.
    assert_eq!(walker.step(&mut state, &mut rng), Signal::Continue);
    assert_eq!(*state.phase.parents.get(Node(0, 1)), Some(Node(0, 0)));
    // At (0,1), having come south, it faces west, then south, then east.
    assert_eq!(walker.step(&mut state, &mut rng), Signal::Continue);
    assert_eq!(*state.phase.parents.get(Node(1, 1)), Some(Node(0, 1)));
    assert_eq!(walker.step(&mut state, &mut rng), Signal::Done);
    assert_eq!(state.visited_count, 4);
    assert_eq!(way_back(&state), vec![Node(1, 1), Node(0, 1), Node(0, 0), Node(1, 0)]);
}

#[test]
fn solvers_end_at_once_where_the_start_is_the_goal() {
    let mut rng = StdRng::seed_from_u64(0);
    let mut state = solve::state(generate::state(Maze::new(1, 1)));
    assert_eq!(state.phase.start, Node(0, 0));
    assert_eq!(state.phase.goal, Node(0, 0));
    let mut mouse = Mouse::new(&mut state, &mut rng);
    assert_eq!(mouse.step(&mut state, &mut rng), Signal::Done);
    assert_eq!(state.visited_count, 1);
    let mut state = solve::state(generate::state(Maze::new(1, 1)));
    let mut walker = RightHand::new(&mut state, &mut rng);
    assert_eq!(walker.step(&mut state, &mut rng), Signal::Done);
    let mut state = solve::state(generate::state(Maze::new(1, 1)));
    let mut a_star = AStar::new(&mut state, &mut rng);
    assert_eq!(a_star.step(&mut state, &mut rng), Signal::Done);
    assert_eq!(*state.phase.parents.get(Node(0, 0)), None);
    let mut state = solve::state(generate::state(Maze::new(1, 1)));
    let mut flood = Flood::new(&mut state, &mut rng);
    assert_eq!(flood.step(&mut state, &mut rng), Signal::Done);
    assert_eq!(*state.phase.parents.get(Node(0, 0)), Some(Node(0, 0)));
}

#[test]
fn solvers_are_four() {
    let all = [Solver::AStar, Solver::Flood, Solver::Mouse, Solver::RightHand];
    for (i, a) in all.iter().enumerate() {
        for (j, b) in all.iter().enumerate() {
            assert_eq!(a == b, i == j);
        }
    }
}

#[test]
fn walker_marks_the_way_back() {
    for (width, height) in SIZES {
        for seed in 0..5 {
            let (solved, _) = solve::<AStar>(generated::<Kruskal>(width, height, seed), seed);
            let path = way_back(&solved);
            let start = solved.phase.start;
            let goal = solved.phase.goal;
            let visited = solved.visited_count;
            let mut rng = StdRng::seed_from_u64(seed);
            let mut state = walk::state(solved);
            assert_eq!(state.visited_count, visited);
            for node in state.maze.nodes_iter() {
                assert_eq!(state.phase.special(node), node == start || node == goal);
            }
            let mut walker = Walker::new(&mut state, &mut rng);
            assert_eq!(walker.timescale(), 100);
            let mut steps = 0;
            while walker.step(&mut state, &mut rng) == Signal::Continue {
                state.step();
                steps += 1;
                assert!(steps <= width as usize * height as usize - 1);
                // The nodes passed so far are marked, those ahead are not.
                for (i, node) in path.iter().enumerate() {
                    let special = i <= steps || *node == start;
                    assert_eq!(state.phase.special(*node), special);
                }
            }
            assert_eq!(steps + 1, (path.len() - 1).max(1));
            for node in state.maze.nodes_iter() {
                assert_eq!(state.phase.special(node), path.contains(&node));
            }
            assert_eq!(walker.step(&mut state, &mut rng), Signal::Done);
        }
    }
}

#[test]
fn walker_after_each_solver() {
    for seed in 0..5 {
        let maze = |seed| generated::<Wilson>(5, 5, seed);
        for solved in [
            solve::<AStar>(maze(seed), seed).0,
            solve::<Flood>(maze(seed), seed).0,
            solve::<Mouse>(maze(seed), seed).0,
            solve::<RightHand>(maze(seed), seed).0,
        ] {
            let path = way_back(&solved);
            let mut rng = StdRng::seed_from_u64(seed);
            let mut state = walk::state(solved);
            let mut walker = Walker::new(&mut state, &mut rng);
            let mut steps = 0;
            while walker.step(&mut state, &mut rng) == Signal::Continue {
                steps += 1;
                assert!(steps <= 24);
            }
            for node in state.maze.nodes_iter() {
                assert_eq!(state.phase.special(node), path.contains(&node));
            }
        }
    }
}

#[test]
fn kruskal_then_a_star_on_four_by_four() {
    let maze = generated::<Kruskal>(4, 4, 2024);
    let open = maze.edges_iter().iter().filter(|e| *maze.open.get(**e)).count();
    assert_eq!(open, 15);
    let from_corner = distances(&maze, Node(0, 0));
    assert!(from_corner.iter().all(|d| d.is_some()));
    let mut rng = StdRng::seed_from_u64(2024);
    let mut state = solve::state(generate::state(maze));
    assert_eq!(state.maze.open_neighbours(state.phase.start).len(), 1);
    assert_eq!(state.maze.open_neighbours(state.phase.goal).len(), 1);
    let wanted = distances(&state.maze, state.phase.start);
    let mut a_star = AStar::new(&mut state, &mut rng);
    let mut steps = 0;
    while a_star.step(&mut state, &mut rng) == Signal::Continue {
        steps += 1;
        assert!(steps < 16);
    }
    assert!(state.visited_count <= 16);
    let goal = state.phase.goal;
    assert_eq!(way_back(&state).len() - 1, wanted[goal.0 + goal.1 * 4].unwrap());
}

#[test]
fn a_large_maze_from_end_to_end() {
    let maze = generated::<Kruskal>(60, 40, 99);
    let (solved, _) = solve::<Flood>(maze, 99);
    check_solved(&solved);
    let path = way_back(&solved);
    let mut rng = StdRng::seed_from_u64(99);
    let mut state = walk::state(solved);
    let mut walker = Walker::new(&mut state, &mut rng);
    let mut steps = 0;
    while walker.step(&mut state, &mut rng) == Signal::Continue {
        steps += 1;
        assert!(steps < 2400);
    }
    assert_eq!(steps + 2, path.len());
    let maze = generated::<Wilson>(50, 50, 5);
    let (solved, steps) = solve::<AStar>(maze, 5);
    check_solved(&solved);
    assert!(steps < 2500);
    assert_eq!(steps + 1, solved.visited_count);
}
