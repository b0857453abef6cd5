use dfs_maze::maze::{Cell, Maze, Position};
use dfs_maze::model::Direction;

fn cleared_walls(m: &Maze) -> usize {
    let mut n = 0;
    for x in 0..m.width() {
        for y in 0..m.height() {
            if x >= 1 && !m.vertical_wall((x, y)) {
                n += 1;
            }
            if y >= 1 && !m.horizontal_wall((x, y)) {
                n += 1;
            }
        }
    }
    n
}

fn visited_cells(m: &Maze) -> usize {
    let mut n = 0;
    for x in 0..m.width() {
        for y in 0..m.height() {
            if m.is_visited((x, y)) {
                n += 1;
            }
        }
    }
    n
}

fn snapshot(m: &Maze) -> (Vec<bool>, Vec<bool>, Vec<bool>, Position, bool, usize) {
    let mut v = Vec::new();
    let mut vw = Vec::new();
    let mut hw = Vec::new();
    for x in 0..m.width() {
        for y in 0..m.height() {
            v.push(m.is_visited((x, y)));
            vw.push(m.vertical_wall((x, y)));
            hw.push(m.horizontal_wall((x, y)));
        }
    }
    (v, vw, hw, m.active_position(), m.is_completed(), m.stack_len())
}

fn run_to_completion(m: &mut Maze) {
    let mut steps: u64 = 0;
    while !m.is_completed() {
        m.generate_next();
        steps += 1;
        assert!(steps < 10_000_000, "generation did not finish");
    }
}

const ALL: [Direction; 4] = [Direction::North, Direction::South, Direction::East, Direction::West];

#[test]
fn new_maze_is_blank() {
    let m = Maze::new(3, 2);
    assert_eq!(m.width(), 3);
    assert_eq!(m.height(), 2);
    assert_eq!(m.active_position(), (0, 0));
    assert!(!m.is_completed());
    assert_eq!(m.stack_len(), 0);
    assert_eq!(visited_cells(&m), 0);
    assert_eq!(cleared_walls(&m), 0);
    for x in 0..3 {
        for y in 0..2 {
            assert!(m.vertical_wall((x, y)));
            assert!(m.horizontal_wall((x, y)));
        }
    }
}

#[test]
fn step_off_the_grid_changes_nothing() {
    let mut m = Maze::new(3, 3);
    let before = snapshot(&m);
    assert!(!m.step(Direction::North));
    assert!(!m.step(Direction::West));
    assert_eq!(snapshot(&m), before);
}

#[test]
fn step_east_clears_vertical_wall_of_new_cell() {
    let mut m = Maze::new(3, 3);
    assert!(m.step(Direction::East));
    assert_eq!(m.active_position(), (1, 0));
    assert!(m.is_visited((0, 0)));
    assert!(m.is_visited((1, 0)));
    assert!(!m.vertical_wall((1, 0)));
    assert_eq!(cleared_walls(&m), 1);
    assert_eq!(m.stack_len(), 1);
}

#[test]
fn step_south_clears_horizontal_wall_of_new_cell() {
    let mut m = Maze::new(3, 3);
    assert!(m.step(Direction::South));
    assert_eq!(m.active_position(), (0, 1));
    assert!(!m.horizontal_wall((0, 1)));
    assert_eq!(cleared_walls(&m), 1);
}

#[test]
fn step_west_and_north_clear_walls_of_active_cell() {
    let mut m = Maze::new(3, 3);
    assert!(m.step(Direction::East));
    assert!(m.step(Direction::South));
    assert_eq!(m.active_position(), (1, 1));
    assert!(m.step(Direction::West));
    assert_eq!(m.active_position(), (0, 1));
    assert!(!m.vertical_wall((1, 1)));
    assert!(m.step(Direction::South));
    assert!(m.step(Direction::East));
    assert_eq!(m.active_position(), (1, 2));
    assert!(m.step(Direction::East));
    assert!(m.step(Direction::North));
    assert_eq!(m.active_position(), (2, 1));
    assert!(!m.horizontal_wall((2, 2)));
    assert_eq!(cleared_walls(&m), 7);
    assert_eq!(visited_cells(&m), 8);
}

#[test]
fn step_into_visited_cell_changes_nothing() {
    let mut m = Maze::new(3, 3);
    assert!(m.step(Direction::East));
    let before = snapshot(&m);
    assert!(!m.step(Direction::West));
    assert_eq!(snapshot(&m), before);
}

#[test]
fn dead_end_backtracks_and_completes_at_origin() {
    let mut m = Maze::new(2, 1);
    assert!(m.step(Direction::East));
    assert_eq!(m.active_position(), (1, 0));
    assert!(!m.is_completed());
    assert!(!m.step(Direction::East));
    assert_eq!(m.active_position(), (1, 0));
    assert!(!m.step(Direction::West));
    assert_eq!(m.active_position(), (0, 0));
    assert!(m.is_completed());
    assert_eq!(m.stack_len(), 0);
    assert_eq!(cleared_walls(&m), 1);
}

#[test]
fn one_by_one_maze_has_no_move() {
    let mut m = Maze::new(1, 1);
    for d in ALL {
        assert!(!m.step(d));
        assert!(!m.is_completed());
        assert_eq!(m.active_position(), (0, 0));
    }
    assert_eq!(cleared_walls(&m), 0);
}

#[test]
fn two_by_two_maze_completes_with_three_cleared_walls() {
    let mut m = Maze::new(2, 2);
    run_to_completion(&mut m);
    assert_eq!(cleared_walls(&m), 3);
    assert_eq!(visited_cells(&m), 4);
    assert_eq!(m.active_position(), (0, 0));
}

#[test]
fn completed_maze_is_a_fixed_point() {
    let mut m = Maze::new(4, 3);
    run_to_completion(&mut m);
    let before = snapshot(&m);
    for _ in 0..25 {
        for d in ALL {
            assert!(!m.step(d));
        }
        assert!(!m.generate_next());
    }
    assert_eq!(snapshot(&m), before);
}

#[test]
fn scripted_directions_give_reproducible_trace() {
    let script = [
        Direction::East,
        Direction::North,
        Direction::South,
        Direction::West,
        Direction::East,
        Direction::North,
        Direction::West,
        Direction::East,
        Direction::North,
    ];
    let expected: Vec<(Position, bool)> = vec![
        ((1, 0), true),
        ((1, 0), false),
        ((1, 1), true),
        ((0, 1), true),
        ((1, 1), false),
        ((1, 0), false),
        ((0, 0), false),
        ((0, 0), false),
        ((0, 0), false),
    ];
    for _ in 0..2 {
        let mut m = Maze::new(2, 2);
        let mut trace = Vec::new();
        for d in script {
            let advanced = m.step(d);
            trace.push((m.active_position(), advanced));
        }
        assert_eq!(trace, expected);
        assert!(m.is_completed());
    }
}

#[test]
fn random_mazes_span_grid_and_form_tree() {
    for (w, h) in [(1, 3), (3, 1), (5, 4), (7, 7), (20, 20)] {
        let mut m = Maze::new(w, h);
        let mut was_completed = false;
        let mut steps: u64 = 0;
        while !m.is_completed() {
            assert!(!was_completed);
            let before = visited_cells(&m);
            let advanced = m.generate_next();
            if advanced {
                assert!(visited_cells(&m) > before);
            }
            was_completed = m.is_completed();
            steps += 1;
            assert!(steps < 10_000_000);
        }
        assert_eq!(visited_cells(&m), (w * h) as usize);
        assert_eq!(cleared_walls(&m), (w * h - 1) as usize);
        assert_eq!(m.stack_len(), 0);
        assert_eq!(m.active_position(), (0, 0));
        m.generate_next();
        assert!(m.is_completed());
    }
}

#[test]
fn generate_next_eventually_advances() {
    let mut m = Maze::new(3, 3);
    let mut advanced = false;
    for _ in 0..1000 {
        if m.generate_next() {
            advanced = true;
            break;
        }
    }
    assert!(advanced);
    assert_eq!(cleared_walls(&m), 1);
    assert_ne!(m.active_position(), (0, 0));
}

#[test]
fn iteration_is_row_major_and_repeatable() {
    let mut m = Maze::new(3, 2);
    m.step(Direction::East);
    let collect = |m: &Maze| {
        let mut it = m.iter();
        let mut v = Vec::new();
        while let Some(c) = it.next() {
            v.push(c);
        }
        assert!(it.next().is_none());
        v
    };
    let first = collect(&m);
    let second = collect(&m);
    assert_eq!(first, second);
    assert_eq!(first.len(), 6);
    assert_eq!(first[0], Cell { x: 0, y: 0, visited: true });
    assert_eq!(first[1], Cell { x: 1, y: 0, visited: true });
    assert_eq!(first[2], Cell { x: 2, y: 0, visited: false });
    assert_eq!(first[3], Cell { x: 0, y: 1, visited: false });
    assert_eq!(first[5], Cell { x: 2, y: 1, visited: false });
}

#[test]
fn set_visited_sets_one_flag() {
    let mut m = Maze::new(2, 2);
    m.set_visited((1, 1), true);
    assert!(m.is_visited((1, 1)));
    assert_eq!(visited_cells(&m), 1);
    m.set_visited((1, 1), false);
    assert!(!m.is_visited((1, 1)));
}

#[test]
fn direction_index_and_offset() {
    assert_eq!(Direction::from_index(0), Direction::East);
    assert_eq!(Direction::from_index(1), Direction::West);
    assert_eq!(Direction::from_index(2), Direction::South);
    assert_eq!(Direction::from_index(3), Direction::North);
    assert_eq!(Direction::East.offset(), (1, 0));
    assert_eq!(Direction::West.offset(), (-1, 0));
    assert_eq!(Direction::South.offset(), (0, 1));
    assert_eq!(Direction::North.offset(), (0, -1));
}
