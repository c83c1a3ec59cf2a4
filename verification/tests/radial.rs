use maze_gen::circ_maze;
use maze_gen::circ_maze::{CircMaze, Direction};
use maze_gen::errors::MazeError;

#[test]
fn radial_maze_opens_start_and_end() {
    // Four rings and eight spokes: after opening start and end, ring 0
    // spoke 0 is open outward and ring 3 spoke 4 is open inward.
    let mut m = circ_maze::generate(4, 8, 0, 500, 0).unwrap();
    m.open_start_and_end();
    assert!(!m.get(0, 0).outward);
    assert!(!m.get(3, 4).inward);
}

#[test]
fn radial_boundaries_hold_before_forcing() {
    let m = circ_maze::generate(4, 8, 0, 500, 0).unwrap();
    for s in 0..8 {
        // Ring 0 bounds the outward direction, the innermost ring the
        // inward one; the generator never opens a boundary wall.
        assert!(m.is_wall_at_dir(0, &Direction::Out));
        assert!(m.is_wall_at_dir(3, &Direction::In));
        assert!(m.get(0, s).outward);
        assert!(m.get(3, s).inward);
        assert!(!m.is_wall_at_dir(1, &Direction::Out));
        assert!(!m.is_wall_at_dir(2, &Direction::In));
        assert!(!m.is_wall_at_dir(0, &Direction::Left));
        assert!(!m.is_wall_at_dir(3, &Direction::Right));
    }
}

#[test]
fn radial_generation_spans_all_cells() {
    let m = circ_maze::generate(5, 12, 0, 500, 100).unwrap();
    let mut open_flags = 0;
    for r in 0..5 {
        for s in 0..12 {
            let c = m.get(r, s);
            for wall in [c.outward, c.inward, c.left, c.right] {
                if !wall {
                    open_flags += 1;
                }
            }
        }
    }
    assert_eq!(open_flags, 2 * (5 * 12 - 1));
}

#[test]
fn radial_walls_stay_symmetric_with_wraparound() {
    let m = circ_maze::generate(4, 9, 0, 500, 0).unwrap();
    for r in 0..4 {
        for s in 0..9 {
            // The left wall of a cell faces the right wall of the next
            // spoke, wrapping past the last spoke.
            let next = if s + 1 < 9 { s + 1 } else { 0 };
            assert_eq!(m.get(r, s).left, m.get(r, next).right);
            if r + 1 < 4 {
                assert_eq!(m.get(r, s).inward, m.get(r + 1, s).outward);
            }
        }
    }
}

#[test]
fn radial_open_at_dir_wraps_the_spoke_axis() {
    let mut m = CircMaze::new(3, 6, 0);
    m.open_at_dir(1, 0, &Direction::Right);
    assert!(!m.get(1, 0).right);
    assert!(!m.get(1, 5).left);
    m.open_at_dir(2, 5, &Direction::Left);
    assert!(!m.get(2, 5).left);
    assert!(!m.get(2, 0).right);
}

#[test]
fn radial_solve_marks_a_valid_path() {
    let mut m = circ_maze::generate(4, 8, 0, 500, 0).unwrap();
    let path = circ_maze::solve(&mut m, (0, 0), (3, 4)).unwrap();
    assert_eq!(path[0], (0, 0));
    assert_eq!(*path.last().unwrap(), (3, 4));
    for &(r, s) in path.iter() {
        assert!(m.get(r, s).in_solution);
    }
    for w in path.windows(2) {
        let (r1, s1) = w[0];
        let (r2, s2) = w[1];
        if r2 == r1 + 1 && s1 == s2 {
            assert!(!m.get(r1, s1).inward);
        } else if r1 == r2 + 1 && s1 == s2 {
            assert!(!m.get(r1, s1).outward);
        } else if r1 == r2 && (s2 == if s1 + 1 < 8 { s1 + 1 } else { 0 }) {
            assert!(!m.get(r1, s1).left);
        } else if r1 == r2 && (s1 == if s2 + 1 < 8 { s2 + 1 } else { 0 }) {
            assert!(!m.get(r1, s1).right);
        } else {
            panic!("path entries not adjacent on the radial grid");
        }
    }
}

#[test]
fn radial_degenerate_dimensions_are_rejected() {
    for (rings, spokes, bias, want) in [
        (0usize, 8usize, 500u64, MazeError::EmptyGrid),
        (4, 1, 500, MazeError::EmptyGrid),
        (4, 8, 1200, MazeError::BiasOutOfRange),
    ] {
        match circ_maze::generate(rings, spokes, 0, bias, 0) {
            Err(e) => assert_eq!(e, want),
            Ok(_) => panic!("a degenerate radial configuration must be rejected"),
        }
    }
}
