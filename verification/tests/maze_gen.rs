use maze_gen::maze::{Direction, Maze};

#[test]
fn test_maze() {
    let mut maze = Maze::new(10, 10);
    assert_eq!(maze.width, 10);
    assert_eq!(maze.height, 10);
    maze.set(0, 0, &Direction::Up, false);
    assert_eq!(maze.get(0, 0).up, false);
    maze.set(9, 9, &Direction::Down, false);
    maze.reset();
    assert_eq!(maze.get(9, 9).down, true);
    maze.add_cell_to_solution(0, 0);
    assert_eq!(maze.get(0, 0).in_solution, true);
}

#[test]
fn fresh_maze_is_fully_walled() {
    let maze = Maze::new(4, 3);
    for y in 0..3 {
        for x in 0..4 {
            let c = maze.get(x, y);
            assert!(c.up && c.down && c.left && c.right);
            assert!(!c.in_solution);
        }
    }
}

#[test]
fn open_at_dir_updates_both_sides() {
    let mut maze = Maze::new(3, 3);
    maze.open_at_dir(1, 1, &Direction::Right);
    assert!(!maze.get(1, 1).right);
    assert!(!maze.get(2, 1).left);
    maze.open_at_dir(1, 1, &Direction::Up);
    assert!(!maze.get(1, 1).up);
    assert!(!maze.get(1, 0).down);
    // Nothing else moved.
    assert!(maze.get(1, 1).left && maze.get(1, 1).down);
    assert!(maze.get(0, 0).right && maze.get(0, 0).down);
}

#[test]
fn is_wall_at_dir_marks_the_edges() {
    let maze = Maze::new(5, 4);
    assert!(maze.is_wall_at_dir(0, 0, &Direction::Up));
    assert!(maze.is_wall_at_dir(0, 0, &Direction::Left));
    assert!(!maze.is_wall_at_dir(0, 0, &Direction::Down));
    assert!(!maze.is_wall_at_dir(0, 0, &Direction::Right));
    assert!(maze.is_wall_at_dir(4, 3, &Direction::Down));
    assert!(maze.is_wall_at_dir(4, 3, &Direction::Right));
    assert!(!maze.is_wall_at_dir(2, 1, &Direction::Up));
}

#[test]
fn open_all_keeps_marks() {
    let mut maze = Maze::new(3, 2);
    maze.add_cell_to_solution(2, 1);
    maze.open_all();
    for y in 0..2 {
        for x in 0..3 {
            let c = maze.get(x, y);
            assert!(!c.up && !c.down && !c.left && !c.right);
        }
    }
    assert!(maze.get(2, 1).in_solution);
    assert!(!maze.get(0, 0).in_solution);
}
