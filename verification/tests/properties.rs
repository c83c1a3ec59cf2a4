use maze_gen::errors::MazeError;
use maze_gen::maze;
use maze_gen::maze::{Direction, Maze};
use maze_gen::rect_maze;

fn open_flag_count(m: &Maze) -> usize {
    let mut n = 0;
    for y in 0..m.height {
        for x in 0..m.width {
            let c = m.get(x, y);
            if !c.up {
                n += 1;
            }
            if !c.down {
                n += 1;
            }
            if !c.left {
                n += 1;
            }
            if !c.right {
                n += 1;
            }
        }
    }
    n
}

fn assert_symmetric(m: &Maze) {
    for y in 0..m.height {
        for x in 0..m.width {
            if x + 1 < m.width {
                assert_eq!(m.get(x, y).right, m.get(x + 1, y).left);
            }
            if y + 1 < m.height {
                assert_eq!(m.get(x, y).down, m.get(x, y + 1).up);
            }
        }
    }
}

#[test]
fn generated_maze_spans_without_cycles() {
    // A perfect maze opens exactly (cell count - 1) passages, each of
    // which shows up as two open flags.
    let mut m = Maze::new(6, 5);
    maze::generate(&mut m).unwrap();
    assert_eq!(open_flag_count(&m), 2 * (6 * 5 - 1));
}

#[test]
fn generated_maze_is_symmetric() {
    let mut m = Maze::new(8, 8);
    maze::generate(&mut m).unwrap();
    assert_symmetric(&m);
}

#[test]
fn generated_maze_connects_every_cell() {
    let mut m = Maze::new(7, 6);
    maze::generate(&mut m).unwrap();
    // Every cell can be solved to from the origin.
    for y in 0..6 {
        for x in 0..7 {
            let mut probe = Maze { width: m.width, height: m.height, cells: m.cells.clone() };
            let path = maze::solve(&mut probe, (0, 0), (x, y)).unwrap();
            assert_eq!(path[0], (0, 0));
            assert_eq!(*path.last().unwrap(), (x, y));
        }
    }
}

#[test]
fn solve_path_crosses_open_passages_only() {
    let mut m = Maze::new(9, 9);
    maze::generate(&mut m).unwrap();
    let path = maze::solve(&mut m, (0, 0), (8, 8)).unwrap();
    assert_eq!(path[0], (0, 0));
    assert_eq!(*path.last().unwrap(), (8, 8));
    for w in path.windows(2) {
        let (x1, y1) = w[0];
        let (x2, y2) = w[1];
        // Consecutive entries are adjacent and the wall between them is
        // open on both sides.
        if x2 == x1 + 1 && y2 == y1 {
            assert!(!m.get(x1, y1).right && !m.get(x2, y2).left);
        } else if x1 == x2 + 1 && y2 == y1 {
            assert!(!m.get(x1, y1).left && !m.get(x2, y2).right);
        } else if y2 == y1 + 1 && x2 == x1 {
            assert!(!m.get(x1, y1).down && !m.get(x2, y2).up);
        } else if y1 == y2 + 1 && x2 == x1 {
            assert!(!m.get(x1, y1).up && !m.get(x2, y2).down);
        } else {
            panic!("path entries not adjacent");
        }
    }
    // No cell repeats.
    for i in 0..path.len() {
        for j in (i + 1)..path.len() {
            assert_ne!(path[i], path[j]);
        }
    }
    // Every path cell is marked.
    for &(x, y) in path.iter() {
        assert!(m.get(x, y).in_solution);
    }
}

#[test]
fn reset_clears_everything() {
    let mut m = Maze::new(5, 5);
    maze::generate(&mut m).unwrap();
    maze::solve(&mut m, (0, 0), (4, 4)).unwrap();
    m.reset();
    for y in 0..5 {
        for x in 0..5 {
            let c = m.get(x, y);
            assert!(c.up && c.down && c.left && c.right);
            assert!(!c.in_solution);
        }
    }
}

#[test]
fn unreachable_stop_is_reported() {
    // A fresh maze has every wall closed, so nothing is reachable.
    let mut m = Maze::new(2, 2);
    assert_eq!(maze::solve(&mut m, (0, 0), (1, 1)), Err(MazeError::Unreachable));
    assert!(!m.get(0, 0).in_solution);
}

#[test]
fn solve_trivial_start_is_stop() {
    let mut m = Maze::new(3, 3);
    let path = maze::solve(&mut m, (1, 1), (1, 1)).unwrap();
    assert_eq!(path, vec![(1, 1)]);
    assert!(m.get(1, 1).in_solution);
}

#[test]
fn out_of_bounds_coordinates_are_rejected() {
    let mut m = Maze::new(2, 2);
    assert_eq!(maze::solve(&mut m, (2, 0), (1, 1)), Err(MazeError::OutOfBounds));
    assert_eq!(maze::solve(&mut m, (0, 0), (0, 5)), Err(MazeError::OutOfBounds));
}

#[test]
fn empty_grid_is_rejected() {
    let mut m = Maze::new(0, 7);
    assert_eq!(maze::generate(&mut m), Err(MazeError::EmptyGrid));
    match rect_maze::generate(7, 0, 500, 0) {
        Err(e) => assert_eq!(e, MazeError::EmptyGrid),
        Ok(_) => panic!("an empty grid must be rejected"),
    }
}

#[test]
fn bias_out_of_range_is_rejected() {
    match rect_maze::generate(5, 5, 1001, 0) {
        Err(e) => assert_eq!(e, MazeError::BiasOutOfRange),
        Ok(_) => panic!("an out-of-range axis bias must be rejected"),
    }
    match rect_maze::generate(5, 5, 0, 5000) {
        Err(e) => assert_eq!(e, MazeError::BiasOutOfRange),
        Ok(_) => panic!("an out-of-range length bias must be rejected"),
    }
}

#[test]
fn rect_generate_builds_spanning_maze() {
    let m = rect_maze::generate(10, 10, 500, 250).unwrap();
    assert_eq!(m.width, 10);
    assert_eq!(m.height, 10);
    let mut open_flags = 0;
    for y in 0..10 {
        for x in 0..10 {
            let c = m.get(x, y);
            for wall in [c.up, c.down, c.left, c.right] {
                if !wall {
                    open_flags += 1;
                }
            }
        }
    }
    assert_eq!(open_flags, 2 * (10 * 10 - 1));
}

#[test]
fn rect_open_start_and_end_opens_the_two_doors() {
    let mut m = rect_maze::generate(6, 6, 500, 0).unwrap();
    assert!(m.get(0, 0).up);
    m.open_start_and_end();
    assert!(!m.get(0, 0).up);
    assert!(!m.get(5, 5).down);
}

#[test]
fn full_axis_bias_favors_vertical_passages() {
    // With the whole axis weight on the column directions and no length
    // bias, vertical passages must dominate over many generations.
    let mut vertical = 0usize;
    let mut horizontal = 0usize;
    for _ in 0..10 {
        let m = rect_maze::generate(20, 20, 1000, 0).unwrap();
        for y in 0..20 {
            for x in 0..20 {
                let c = m.get(x, y);
                if !c.down {
                    vertical += 1;
                }
                if !c.right {
                    horizontal += 1;
                }
            }
        }
    }
    assert!(vertical > horizontal);
}

#[test]
fn rect_solve_connects_the_corners() {
    let mut m = rect_maze::generate(8, 5, 500, 0).unwrap();
    let path = rect_maze::solve(&mut m, (0, 0), (7, 4)).unwrap();
    assert_eq!(path[0], (0, 0));
    assert_eq!(*path.last().unwrap(), (7, 4));
    for &(x, y) in path.iter() {
        assert!(m.get(x, y).in_solution);
    }
}

#[test]
fn maze_cell_flags_round_trip() {
    let mut c = maze_gen::maze::Cell::new();
    assert!(c.has_wall_at_dir(Direction::Down));
    assert!(!c.is_open_at_dir(Direction::Down));
    c.open(Direction::Down);
    assert!(c.is_open_at_dir(Direction::Down));
    assert!(c.has_wall_at_dir(Direction::Up));
    c.add_to_solution();
    assert!(c.in_solution);
    c.reset();
    assert!(!c.in_solution && c.has_wall_at_dir(Direction::Down));
}
