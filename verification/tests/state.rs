use lattice_maze::colour::Colour;
use lattice_maze::colour::Lut;
use lattice_maze::fade::Fade;
use lattice_maze::frame_delay;
use lattice_maze::generate;
use lattice_maze::maze::Direction;
use lattice_maze::maze::Maze;
use lattice_maze::maze::Node;
use lattice_maze::state::Cell;
use lattice_maze::state::Phase;
use lattice_maze::turn;
use lattice_maze::Turn;
use lattice_maze::generate::dfs::Dfs;
use lattice_maze::wait_outcome;
use lattice_maze::Animation;
use lattice_maze::Error;
use lattice_maze::Signal;
use rand::rngs::StdRng;
use rand::SeedableRng;

#[test]
fn fresh_state_has_nothing_visited() {
    let state = generate::state(Maze::new(3, 2));
    assert_eq!(state.visited_count, 0);
    assert_eq!(state.age.iter(), &[None; 6]);
    assert!(!state.is_visited(Node(1, 1)));
    assert!(!state.all_visited());
    assert_eq!(state.maze.width, 3);
    assert_eq!(state.maze.height, 2);
}

#[test]
fn visit_counts_each_node_once() {
    let mut state = generate::state(Maze::new(3, 2));
    state.visit(Node(1, 1));
    assert!(state.is_visited(Node(1, 1)));
    assert!(!state.is_visited(Node(1, 0)));
    assert_eq!(state.visited_count, 1);
    assert_eq!(*state.age.get(Node(1, 1)), Some(0));
    state.visit(Node(1, 1));
    assert_eq!(state.visited_count, 1);
    state.visit(Node(0, 0));
    assert_eq!(state.visited_count, 2);
}

#[test]
fn set_age_replaces_the_age() {
    let mut state = generate::state(Maze::new(3, 2));
    state.set_age(Node(2, 0), 17);
    assert_eq!(*state.age.get(Node(2, 0)), Some(17));
    assert_eq!(state.visited_count, 1);
    state.set_age(Node(2, 0), 3);
    assert_eq!(*state.age.get(Node(2, 0)), Some(3));
    assert_eq!(state.visited_count, 1);
    state.visit(Node(2, 0));
    assert_eq!(*state.age.get(Node(2, 0)), Some(0));
}

#[test]
fn unvisit_takes_a_node_back() {
    let mut state = generate::state(Maze::new(3, 2));
    state.visit(Node(1, 1));
    state.visit(Node(0, 1));
    state.unvisit(Node(1, 1));
    assert!(!state.is_visited(Node(1, 1)));
    assert!(state.is_visited(Node(0, 1)));
    assert_eq!(state.visited_count, 1);
    state.unvisit(Node(1, 1));
    assert_eq!(state.visited_count, 1);
}

#[test]
fn all_visited_once_every_node_is() {
    let mut state = generate::state(Maze::new(2, 2));
    for node in state.maze.nodes_iter() {
        assert!(!state.all_visited());
        state.visit(node);
    }
    assert!(state.all_visited());
    assert_eq!(state.visited_count, 4);
    state.unvisit(Node(0, 1));
    assert!(!state.all_visited());
}

#[test]
fn step_ages_the_visited_nodes() {
    let mut state = generate::state(Maze::new(3, 1));
    state.visit(Node(0, 0));
    state.set_age(Node(1, 0), 254);
    state.step();
    assert_eq!(state.age.iter(), &[Some(1), Some(255), None]);
    state.step();
    assert_eq!(state.age.iter(), &[Some(2), Some(255), None]);
    assert_eq!(state.visited_count, 2);
}

#[test]
fn generate_phase_has_no_special_node() {
    let state = generate::state(Maze::new(3, 2));
    for node in state.maze.nodes_iter() {
        assert!(!state.phase.special(node));
    }
}

#[test]
fn frame_of_a_small_maze() {
    let mut state = generate::state(Maze::new(2, 2));
    let east = state.maze.edge(Node(0, 0), Direction::East).unwrap();
    let south = state.maze.edge(Node(1, 0), Direction::South).unwrap();
    let low = state.maze.edge(Node(0, 1), Direction::East).unwrap();
    state.maze.open.set(east, true);
    state.maze.open.set(south, true);
    state.maze.open.set(low, true);
    state.set_age(Node(0, 0), 5);
    state.set_age(Node(1, 0), 9);
    state.set_age(Node(1, 1), 2);
    let frame = state.frame();
    let node = |age| Cell::Painted { age, special: false };
    assert_eq!(frame.len(), 3);
    assert_eq!(frame[0], vec![node(Some(5)), node(Some(9)), node(Some(9))]);
    assert_eq!(frame[1], vec![Cell::Blank, Cell::Blank, node(Some(9)), Cell::Blank]);
    assert_eq!(frame[2], vec![node(None), node(None), node(Some(2))]);
}

#[test]
fn frame_of_a_single_node() {
    let state = generate::state(Maze::new(1, 1));
    assert_eq!(state.frame(), vec![vec![Cell::Painted { age: None, special: false }]]);
}

#[test]
fn light_up_and_black_out() {
    let mut state = generate::state(Maze::new(3, 2));
    state.visit(Node(1, 1));
    state.light_up();
    assert_eq!(state.age.iter(), &[Some(0); 6]);
    assert_eq!(state.visited_count, 6);
    assert!(state.all_visited());
    state.black_out();
    assert_eq!(state.age.iter(), &[None; 6]);
    assert_eq!(state.visited_count, 0);
}

#[test]
fn fade_takes_its_steps_and_ends() {
    let mut state = generate::state(Maze::new(2, 2));
    let mut rng = StdRng::seed_from_u64(1);
    state.visit(Node(0, 0));
    let mut fade: Fade<generate::Phase, 5> = Fade::new(&mut state, &mut rng);
    assert_eq!(fade.timescale(), 350);
    let mut steps = 0;
    while fade.step(&mut state, &mut rng) == Signal::Continue {
        state.step();
        steps += 1;
    }
    assert_eq!(steps, 5);
    assert_eq!(*state.age.get(Node(0, 0)), Some(5));
    assert_eq!(fade.step(&mut state, &mut rng), Signal::Done);
    let mut none: Fade<generate::Phase, 0> = Fade::new(&mut state, &mut rng);
    assert_eq!(none.step(&mut state, &mut rng), Signal::Done);
}

#[test]
fn frame_delay_scales_with_the_timescale() {
    assert_eq!(frame_delay(100_000_000, 100), 100_000_000);
    assert_eq!(frame_delay(100_000_000, 150), 66_666_666);
    assert_eq!(frame_delay(100_000_000, 75), 133_333_333);
    assert_eq!(frame_delay(100_000_000, 350), 28_571_428);
    assert_eq!(frame_delay(0, 125), 0);
    assert_eq!(frame_delay(u64::MAX, 1), 100 * (u64::MAX as u128));
}

#[test]
fn interrupted_wait_breaks() {
    assert!(matches!(wait_outcome(true), Err(Error::Break)));
    assert!(matches!(wait_outcome(false), Ok(())));
}

#[test]
fn io_error_becomes_an_error() {
    let error = Error::from(std::io::Error::new(std::io::ErrorKind::Other, "no terminal"));
    match error {
        Error::Io(inner) => assert_eq!(inner.kind(), std::io::ErrorKind::Other),
        Error::Break => panic!("an input or output error is no break"),
    }
}

#[test]
fn ansi_lookup_uses_standard_colours() {
    let lut = Lut::ansi(true, true);
    assert_eq!(lut.gradient.len(), 256);
    for age in 0..=255u8 {
        let wanted = if age < 4 {
            Colour::DarkRed
        } else if age < 8 {
            Colour::Red
        } else {
            Colour::White
        };
        assert_eq!(lut.sample(Some(age)), wanted);
    }
    assert_eq!(lut.sample(None), Colour::DarkGrey);
    assert_eq!(lut.special, Colour::Blue);
    let plain = Lut::ansi(false, false);
    assert_eq!(plain.sample(None), Colour::Reset);
    assert_eq!(plain.special, Colour::Reset);
}

#[test]
fn paint_looks_up_the_colour_of_a_cell() {
    let mut lut = Lut::ansi(true, true);
    lut.gradient[200] = Colour::Rgb { r: 1, g: 2, b: 3 };
    assert_eq!(lut.paint(Cell::Blank), None);
    assert_eq!(lut.paint(Cell::Painted { age: None, special: false }), Some(Colour::DarkGrey));
    assert_eq!(lut.paint(Cell::Painted { age: Some(2), special: false }), Some(Colour::DarkRed));
    assert_eq!(
        lut.paint(Cell::Painted { age: Some(200), special: false }),
        Some(Colour::Rgb { r: 1, g: 2, b: 3 })
    );
    assert_eq!(lut.paint(Cell::Painted { age: Some(200), special: true }), Some(Colour::Blue));
    assert_eq!(lut.paint(Cell::Painted { age: None, special: true }), Some(Colour::Blue));
}

#[test]
fn turn_shows_the_state_before_it_ages() {
    let mut rng = StdRng::seed_from_u64(3);
    let mut state = generate::state(Maze::new(2, 1));
    let mut dfs = Dfs::new(&mut state, &mut rng);
    // The first step visits one node and opens the edge; the frame shows it at age zero.
    match turn(&mut dfs, &mut state, &mut rng, 1_000_000) {
        Turn::Show { frame, delay } => {
            assert_eq!(delay, 1_000_000);
            assert_eq!(frame.len(), 1);
            assert_eq!(frame[0].len(), 3);
            let fresh = Cell::Painted { age: Some(0), special: false };
            let unvisited = Cell::Painted { age: None, special: false };
            assert!(frame[0] == vec![fresh, unvisited, unvisited]
                || frame[0] == vec![unvisited, unvisited, fresh]);
        }
        Turn::Over => panic!("the search has only begun"),
    }
    assert_eq!(state.visited_count, 1);
    assert!(state.age.iter().contains(&Some(1)));
    // Two more turns, and the fourth is the last.
    assert!(matches!(turn(&mut dfs, &mut state, &mut rng, 0), Turn::Show { delay: 0, .. }));
    assert!(matches!(turn(&mut dfs, &mut state, &mut rng, 7), Turn::Show { delay: 7, .. }));
    let before = state.age.iter().to_vec();
    assert!(matches!(turn(&mut dfs, &mut state, &mut rng, 7), Turn::Over));
    assert_eq!(state.age.iter(), &before[..]);
}

#[test]
fn turn_scales_the_delay() {
    let mut rng = StdRng::seed_from_u64(3);
    let mut state = generate::state(Maze::new(2, 2));
    let mut fade: Fade<generate::Phase, 2> = Fade::new(&mut state, &mut rng);
    match turn(&mut fade, &mut state, &mut rng, 350) {
        Turn::Show { delay, .. } => assert_eq!(delay, 100),
        Turn::Over => panic!("two steps are left"),
    }
    assert!(matches!(turn(&mut fade, &mut state, &mut rng, 351), Turn::Show { delay: 100, .. }));
    assert!(matches!(turn(&mut fade, &mut state, &mut rng, 351), Turn::Over));
}
