use maze_gen::dungeon;
use maze_gen::dungeon::{Dungeon, RoomSettings};
use maze_gen::errors::MazeError;
use maze_gen::utils::Direction;

fn assert_symmetric(d: &Dungeon) {
    for y in 0..d.height {
        for x in 0..d.width {
            if x + 1 < d.width {
                assert_eq!(d.get(x, y).right, d.get(x + 1, y).left);
            }
            if y + 1 < d.height {
                assert_eq!(d.get(x, y).down, d.get(x, y + 1).up);
            }
        }
    }
}

#[test]
fn dungeon_generation_stays_symmetric_and_connected() {
    let settings = RoomSettings {
        num_rooms: 3,
        max_width: 4,
        min_width: 2,
        max_height: 4,
        min_height: 2,
    };
    let mut d = Dungeon::new(12, 12, Some(settings));
    dungeon::generate(&mut d).unwrap();
    assert_symmetric(&d);
    // Rooms end up connected to the rest of the maze: any cell can still
    // be reached from the origin.
    let path = dungeon::solve(&mut d, (0, 0), (11, 11)).unwrap();
    assert_eq!(path[0], (0, 0));
    assert_eq!(*path.last().unwrap(), (11, 11));
}

#[test]
fn rooms_open_their_interior_walls() {
    let settings = RoomSettings {
        num_rooms: 1,
        max_width: 3,
        min_width: 2,
        max_height: 3,
        min_height: 2,
    };
    let mut d = Dungeon::new(10, 10, Some(settings));
    d.create_rooms().unwrap();
    assert_symmetric(&d);
    // These bounds force exactly one 2 x 2 room: its four internal walls
    // open on both sides, and no boundary wall ever does.
    let mut open_flags = 0;
    for y in 0..10 {
        for x in 0..10 {
            let c = d.get(x, y);
            for wall in [c.up, c.down, c.left, c.right] {
                if !wall {
                    open_flags += 1;
                }
            }
        }
    }
    assert_eq!(open_flags, 2 * 4);
    for k in 0..10 {
        assert!(d.get(k, 0).up);
        assert!(d.get(k, 9).down);
        assert!(d.get(0, k).left);
        assert!(d.get(9, k).right);
    }
}

#[test]
fn bad_room_bounds_are_rejected() {
    let settings = RoomSettings {
        num_rooms: 1,
        max_width: 2,
        min_width: 2,
        max_height: 3,
        min_height: 1,
    };
    let mut d = Dungeon::new(10, 10, Some(settings));
    assert_eq!(d.create_rooms(), Err(MazeError::BadRoomBounds));

    let too_large = RoomSettings {
        num_rooms: 1,
        max_width: 10,
        min_width: 2,
        max_height: 3,
        min_height: 1,
    };
    let mut d2 = Dungeon::new(10, 10, Some(too_large));
    assert_eq!(dungeon::generate(&mut d2), Err(MazeError::BadRoomBounds));
}

#[test]
fn default_room_settings_apply() {
    let d = Dungeon::new(8, 8, None);
    assert_eq!(d.room_settings.num_rooms, 1);
    assert_eq!(d.room_settings.min_width, 1);
    assert_eq!(d.room_settings.max_width, 2);
    assert_eq!(d.room_settings.min_height, 1);
    assert_eq!(d.room_settings.max_height, 2);
}

#[test]
fn dungeon_cells_behave_like_rect_cells() {
    let mut d = Dungeon::new(4, 4, None);
    d.set(1, 2, &Direction::Left, false);
    assert!(!d.get(1, 2).left);
    d.open_at_dir(2, 2, &Direction::Up);
    assert!(!d.get(2, 2).up);
    assert!(!d.get(2, 1).down);
    d.add_cell_to_solution(3, 3);
    assert!(d.get(3, 3).in_solution);
    d.reset();
    assert!(d.get(1, 2).left);
    assert!(d.get(2, 2).up);
    assert!(!d.get(3, 3).in_solution);
    d.open_all();
    assert!(!d.get(0, 0).up && !d.get(0, 0).right);
    assert!(d.is_wall_at_dir(0, 0, &Direction::Up));
    assert!(d.is_open_at_dir(3, 3, &Direction::Up));
}

#[test]
fn utils_cell_flags_round_trip() {
    let mut c = maze_gen::utils::Cell::new();
    assert!(c.has_wall_at_dir(Direction::Up));
    assert!(!c.is_open_at_dir(Direction::Left));
    c.open(Direction::Left);
    assert!(c.is_open_at_dir(Direction::Left));
    assert!(c.has_wall_at_dir(Direction::Right));
    c.add_to_solution();
    assert!(c.in_solution);
    c.reset();
    assert!(!c.in_solution);
    assert!(c.has_wall_at_dir(Direction::Left));
}
