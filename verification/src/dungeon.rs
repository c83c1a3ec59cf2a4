use vstd::prelude::*;

use crate::engine::carve;
use crate::errors::MazeError;
use crate::grid::Grid;
use crate::model::{
    cell_closed, m_all_closed, m_boundary, m_idx, m_le, m_mark, m_marked, m_nbr, m_open,
    m_open_count, m_open_wall, m_reach, m_set_wall, m_step, m_symmetric, m_valid, m_wall, m_wf,
    Dir, GCell, Model,
};
use crate::model_lemmas::lemma_idx_bounds;
use crate::rooms::{carve_room, room_opens};
use crate::solver::{ic, mark_path, search};
use crate::utils::{core_dir, gcell_of, gcells_of, lemma_gcells_update, Cell, Direction};

verus! {

/// Bounds for the rooms pre-carved into a dungeon before the maze
/// generator runs: how many rooms, and the half-open size ranges their
/// width and height are drawn from.
pub struct RoomSettings {
    pub num_rooms: usize,
    pub max_width: usize,
    pub min_width: usize,
    pub max_height: usize,
    pub min_height: usize,
}

/// Whether the configured room bounds are usable on a `width * height`
/// grid: nonempty size ranges, and even the largest room fits with a
/// one-cell margin.
pub open spec fn rooms_ok(rs: RoomSettings, width: usize, height: usize) -> bool {
    &&& rs.min_width < rs.max_width
    &&& rs.min_height < rs.max_height
    &&& rs.max_width < width
    &&& rs.max_height < height
}

/// One drawn room as `(x, y, width, height)`: within the configured size
/// ranges, and placed with a one-cell margin to every grid edge.
pub open spec fn room_fits(rs: RoomSettings, width: usize, height: usize, rm: (int, int, int, int)) -> bool {
    &&& rs.min_width <= rm.2 < rs.max_width
    &&& rs.min_height <= rm.3 < rs.max_height
    &&& 1 <= rm.0 && rm.0 + rm.2 <= width - 1
    &&& 1 <= rm.1 && rm.1 + rm.3 <= height - 1
}

/// Whether some room of the sequence removes the wall flag `(x, y, e)`.
pub open spec fn rooms_open(rooms: Seq<(int, int, int, int)>, x: int, y: int, e: Dir) -> bool {
    exists|k: int|
        0 <= k < rooms.len() && room_opens(
            (#[trigger] rooms[k]).0,
            rooms[k].1,
            rooms[k].2,
            rooms[k].3,
            x,
            y,
            e,
        )
}

/// What a successful room-carving pass did: it drew exactly the configured
/// number of rooms, each within bounds and margin, and the final wall state
/// is the old one minus exactly the walls internal to those rooms.
pub open spec fn rooms_carved(
    rs: RoomSettings,
    width: usize,
    height: usize,
    m0: Model,
    m: Model,
    rooms: Seq<(int, int, int, int)>,
) -> bool {
    &&& rooms.len() == rs.num_rooms
    &&& forall|k: int|
        0 <= k < rooms.len() ==> room_fits(rs, width, height, #[trigger] rooms[k])
    &&& forall|x: int, y: int, e: Dir|
        m_valid(m0, x, y) ==> #[trigger] m_wall(m, x, y, e) == (m_wall(m0, x, y, e) && !rooms_open(
            rooms,
            x,
            y,
            e,
        ))
}

/// Appending a room to the sequence adds exactly its wall set.
proof fn lemma_rooms_open_push(
    rooms: Seq<(int, int, int, int)>,
    rm: (int, int, int, int),
    x: int,
    y: int,
    e: Dir,
)
    ensures
        rooms_open(rooms.push(rm), x, y, e) == (rooms_open(rooms, x, y, e) || room_opens(
            rm.0,
            rm.1,
            rm.2,
            rm.3,
            x,
            y,
            e,
        )),
{
    let grown = rooms.push(rm);
    if rooms_open(grown, x, y, e) {
        let k = choose|k: int|
            0 <= k < grown.len() && room_opens(
                (#[trigger] grown[k]).0,
                grown[k].1,
                grown[k].2,
                grown[k].3,
                x,
                y,
                e,
            );
        if k < rooms.len() {
            assert(rooms[k] == grown[k]);
        } else {
            assert(grown[k] == rm);
        }
    }
    if rooms_open(rooms, x, y, e) {
        let k = choose|k: int|
            0 <= k < rooms.len() && room_opens(
                (#[trigger] rooms[k]).0,
                rooms[k].1,
                rooms[k].2,
                rooms[k].3,
                x,
                y,
                e,
            );
        assert(grown[k] == rooms[k]);
    }
    if room_opens(rm.0, rm.1, rm.2, rm.3, x, y, e) {
        assert(grown[rooms.len() as int] == rm);
    }
}

/// A rectangular maze that pre-carves open rooms: `width * height` cells
/// in row-major order plus the room configuration.
pub struct Dungeon {
    pub width: usize,
    pub height: usize,
    pub cells: Vec<Cell>,
    pub room_settings: RoomSettings,
}

impl View for Dungeon {
    type V = Model;

    open spec fn view(&self) -> Model {
        Model {
            wrap_a: false,
            da: self.width as nat,
            db: self.height as nat,
            cells: gcells_of(self.cells@),
        }
    }
}

impl Dungeon {
    /// One cell per coordinate.
    pub open spec fn wf(&self) -> bool {
        self.cells@.len() == self.width * self.height
    }

    /// A fresh, fully walled dungeon; without an explicit configuration a
    /// single small room is used.
    pub fn new(width: usize, height: usize, room_settings: Option<RoomSettings>) -> (m: Dungeon)
        requires
            width * height <= usize::MAX,
        ensures
            m.wf(),
            m.width == width,
            m.height == height,
            m_all_closed(m@),
            m.room_settings == (match room_settings {
                Some(rs) => rs,
                None => (RoomSettings {
                    num_rooms: 1,
                    max_width: 2,
                    min_width: 1,
                    max_height: 2,
                    min_height: 1,
                }),
            }),
    {
        let settings = match room_settings {
            Some(rs) => rs,
            None => RoomSettings {
                num_rooms: 1,
                max_width: 2,
                min_width: 1,
                max_height: 2,
                min_height: 1,
            },
        };
        let total = width * height;
        let mut cells: Vec<Cell> = Vec::new();
        let mut k: usize = 0;
        while k < total
            invariant
                k <= total,
                cells@.len() == k,
                forall|i: int| 0 <= i < k ==> gcell_of(#[trigger] cells@[i]) == cell_closed(),
            decreases total - k,
        {
            cells.push(Cell::new());
            k = k + 1;
        }
        Dungeon { width, height, cells, room_settings: settings }
    }

    /// Flat index of an in-range coordinate.
    fn index(&self, x: usize, y: usize) -> (i: usize)
        requires
            self.wf(),
            x < self.width,
            y < self.height,
        ensures
            i as int == m_idx(self@, x as int, y as int),
            i < self.cells@.len(),
    {
        let n = self.cells.len();
        proof {
            lemma_idx_bounds(self@, x as int, y as int);
            assert(self@.da * self@.db == n as int);
        }
        y * self.width + x
    }

    /// The cell at `(x, y)`.
    pub fn get(&self, x: usize, y: usize) -> (c: Cell)
        requires
            self.wf(),
            x < self.width,
            y < self.height,
        ensures
            gcell_of(c) == self@.cells[m_idx(self@, x as int, y as int)],
    {
        let i = self.index(x, y);
        self.cells[i]
    }

    /// Mark the cell at `(x, y)` as part of the solution.
    pub fn add_cell_to_solution(&mut self, x: usize, y: usize)
        requires
            old(self).wf(),
            x < old(self).width,
            y < old(self).height,
        ensures
            final(self)@ == m_mark(old(self)@, x as int, y as int),
            final(self).wf(),
            final(self).width == old(self).width,
            final(self).height == old(self).height,
            final(self).room_settings == old(self).room_settings,
    {
        let i = self.index(x, y);
        let mut c = self.cells[i];
        c.add_to_solution();
        proof {
            lemma_gcells_update(self.cells@, i as int, c);
        }
        self.cells.set(i, c);
        proof {
            assert(self@.cells =~= m_mark(old(self)@, x as int, y as int).cells);
            assert(self@ =~= m_mark(old(self)@, x as int, y as int));
        }
    }

    /// Set one wall flag on one side only — the raw mutation; it does not
    /// keep wall symmetry by itself.
    pub fn set(&mut self, x: usize, y: usize, dir: &Direction, val: bool)
        requires
            old(self).wf(),
            x < old(self).width,
            y < old(self).height,
        ensures
            final(self)@ == m_set_wall(old(self)@, x as int, y as int, core_dir(*dir), val),
            final(self).wf(),
            final(self).width == old(self).width,
            final(self).height == old(self).height,
            final(self).room_settings == old(self).room_settings,
    {
        let i = self.index(x, y);
        let mut c = self.cells[i];
        match dir {
            Direction::Up => c.up = val,
            Direction::Down => c.down = val,
            Direction::Left => c.left = val,
            Direction::Right => c.right = val,
        }
        proof {
            lemma_gcells_update(self.cells@, i as int, c);
        }
        self.cells.set(i, c);
        proof {
            let target = m_set_wall(old(self)@, x as int, y as int, core_dir(*dir), val);
            assert(self@.cells =~= target.cells);
            assert(self@ =~= target);
        }
    }

    /// Restore every cell to the fully walled, unmarked state.
    pub fn reset(&mut self)
        ensures
            final(self).wf() == old(self).wf(),
            final(self).width == old(self).width,
            final(self).height == old(self).height,
            final(self).room_settings == old(self).room_settings,
            m_all_closed(final(self)@),
    {
        let n = self.cells.len();
        let mut k: usize = 0;
        while k < n
            invariant
                k <= n,
                self.cells@.len() == n,
                self.width == old(self).width,
                self.height == old(self).height,
                self.room_settings == old(self).room_settings,
                forall|i: int| 0 <= i < k ==> gcell_of(#[trigger] self.cells@[i]) == cell_closed(),
            decreases n - k,
        {
            self.cells.set(k, Cell::new());
            k = k + 1;
        }
    }

    /// Remove every wall; the solution marks stay as they are.
    pub fn open_all(&mut self)
        ensures
            final(self).wf() == old(self).wf(),
            final(self).width == old(self).width,
            final(self).height == old(self).height,
            final(self).room_settings == old(self).room_settings,
            final(self)@.cells.len() == old(self)@.cells.len(),
            forall|i: int|
                0 <= i < old(self)@.cells.len() ==> (#[trigger] final(self)@.cells[i])
                    == (GCell {
                    wall_dec_a: false,
                    wall_inc_a: false,
                    wall_dec_b: false,
                    wall_inc_b: false,
                    marked: old(self)@.cells[i].marked,
                }),
    {
        let n = self.cells.len();
        let mut k: usize = 0;
        while k < n
            invariant
                k <= n,
                self.cells@.len() == n,
                n == old(self).cells@.len(),
                self.width == old(self).width,
                self.height == old(self).height,
                self.room_settings == old(self).room_settings,
                forall|i: int|
                    k <= i < n ==> #[trigger] self.cells@[i] == old(self).cells@[i],
                forall|i: int|
                    0 <= i < k ==> (#[trigger] self.cells@[i]) == (Cell {
                        up: false,
                        down: false,
                        left: false,
                        right: false,
                        in_solution: old(self).cells@[i].in_solution,
                    }),
            decreases n - k,
        {
            let mut c = self.cells[k];
            c.up = false;
            c.down = false;
            c.left = false;
            c.right = false;
            self.cells.set(k, c);
            k = k + 1;
        }
    }

    /// Whether `dir` exits the grid at `(x, y)`: the four edges of the
    /// rectangle are hard boundaries.
    pub fn is_wall_at_dir(&self, x: usize, y: usize, dir: &Direction) -> (r: bool)
        requires
            self.width >= 1,
            self.height >= 1,
        ensures
            r == (match *dir {
                Direction::Up => y == 0,
                Direction::Down => y == self.height - 1,
                Direction::Left => x == 0,
                Direction::Right => x == self.width - 1,
            }),
            x < self.width && y < self.height ==> r == m_boundary(
                self@,
                x as int,
                y as int,
                core_dir(*dir),
            ),
    {
        match dir {
            Direction::Up => y == 0,
            Direction::Down => y == self.height - 1,
            Direction::Left => x == 0,
            Direction::Right => x == self.width - 1,
        }
    }

    /// Whether the wall of `(x, y)` toward `dir` is open.
    pub fn is_open_at_dir(&self, x: usize, y: usize, dir: &Direction) -> (r: bool)
        requires
            self.wf(),
            x < self.width,
            y < self.height,
        ensures
            r == m_open(self@, x as int, y as int, core_dir(*dir)),
    {
        let c = self.get(x, y);
        match dir {
            Direction::Up => !c.up,
            Direction::Down => !c.down,
            Direction::Left => !c.left,
            Direction::Right => !c.right,
        }
    }

    /// Carve the passage from `(x, y)` toward `dir`: the wall goes away on
    /// both sides at once, which is what keeps wall symmetry.
    pub fn open_at_dir(&mut self, x: usize, y: usize, dir: &Direction)
        requires
            old(self).wf(),
            x < old(self).width,
            y < old(self).height,
            !m_boundary(old(self)@, x as int, y as int, core_dir(*dir)),
        ensures
            final(self)@ == m_open_wall(old(self)@, x as int, y as int, core_dir(*dir)),
            final(self).wf(),
            final(self).width == old(self).width,
            final(self).height == old(self).height,
            final(self).room_settings == old(self).room_settings,
    {
        match dir {
            Direction::Up => {
                self.set(x, y, dir, false);
                self.set(x, y - 1, &Direction::Down, false)
            },
            Direction::Down => {
                self.set(x, y, dir, false);
                self.set(x, y + 1, &Direction::Up, false)
            },
            Direction::Left => {
                self.set(x, y, dir, false);
                self.set(x - 1, y, &Direction::Right, false)
            },
            Direction::Right => {
                self.set(x, y, dir, false);
                self.set(x + 1, y, &Direction::Left, false)
            },
        }
    }

    /// Copy the wall state and marks into an engine grid.
    pub fn to_grid(&self) -> (g: Grid)
        requires
            self.wf(),
        ensures
            g@ == self@,
    {
        let mut gcells: Vec<GCell> = Vec::new();
        let n = self.cells.len();
        let mut k: usize = 0;
        while k < n
            invariant
                k <= n,
                n == self.cells@.len(),
                gcells@.len() == k,
                forall|i: int|
                    0 <= i < k ==> #[trigger] gcells@[i] == gcell_of(self.cells@[i]),
            decreases n - k,
        {
            let c = self.cells[k];
            gcells.push(
                GCell {
                    wall_dec_a: c.left,
                    wall_inc_a: c.right,
                    wall_dec_b: c.up,
                    wall_inc_b: c.down,
                    marked: c.in_solution,
                },
            );
            k = k + 1;
        }
        let g = Grid { wrap_a: false, da: self.width, db: self.height, cells: gcells };
        proof {
            assert(g@.cells =~= self@.cells);
            assert(g@ =~= self@);
        }
        g
    }

    /// Copy the wall state and marks back from an engine grid of the same
    /// shape.
    pub fn set_from_grid(&mut self, g: &Grid)
        requires
            old(self).wf(),
            g@.wrap_a == false,
            g@.da == old(self).width,
            g@.db == old(self).height,
            g@.cells.len() == old(self).cells@.len(),
        ensures
            final(self)@ == g@,
            final(self).wf(),
            final(self).width == old(self).width,
            final(self).height == old(self).height,
            final(self).room_settings == old(self).room_settings,
    {
        let n = self.cells.len();
        let mut k: usize = 0;
        while k < n
            invariant
                k <= n,
                self.cells@.len() == n,
                g@.cells.len() == n,
                self.width == old(self).width,
                self.height == old(self).height,
                self.room_settings == old(self).room_settings,
                forall|i: int|
                    0 <= i < k ==> gcell_of(#[trigger] self.cells@[i]) == g@.cells[i],
            decreases n - k,
        {
            let gc = g.cells[k];
            self.cells.set(
                k,
                Cell {
                    left: gc.wall_dec_a,
                    right: gc.wall_inc_a,
                    up: gc.wall_dec_b,
                    down: gc.wall_inc_b,
                    in_solution: gc.marked,
                },
            );
            k = k + 1;
        }
        proof {
            assert(self@.cells =~= g@.cells);
            assert(self@ =~= g@);
        }
    }

    /// Pre-carve the configured number of open rooms at random positions:
    /// each room is an axis-aligned rectangle whose width and height are
    /// drawn from the configured ranges and whose position keeps a one-cell
    /// margin to the grid edge; every wall between two of its cells is
    /// opened on both sides.
    ///
    /// Unusable room bounds are reported before anything changes. However the
    /// draws fall, walls are only ever opened (never closed), wall symmetry
    /// survives, and no mark, boundary wall or dimension changes.
    pub fn create_rooms(&mut self) -> (r: Result<(), MazeError>)
        requires
            old(self).wf(),
        ensures
            final(self).wf(),
            final(self).width == old(self).width,
            final(self).height == old(self).height,
            final(self).room_settings == old(self).room_settings,
            r is Err <==> !rooms_ok(old(self).room_settings, old(self).width, old(self).height),
            r is Err ==> r == Err::<(), MazeError>(MazeError::BadRoomBounds) && *final(self) == *old(
                self,
            ),
            m_le(old(self)@, final(self)@),
            forall|x: int, y: int|
                m_valid(old(self)@, x, y) ==> #[trigger] m_marked(final(self)@, x, y) == m_marked(
                    old(self)@,
                    x,
                    y,
                ),
            m_symmetric(old(self)@) ==> m_symmetric(final(self)@),
            forall|x: int, y: int, e: Dir|
                m_valid(old(self)@, x, y) && m_boundary(old(self)@, x, y, e) ==> #[trigger] m_wall(
                    final(self)@,
                    x,
                    y,
                    e,
                ) == m_wall(old(self)@, x, y, e),
            r is Ok ==> exists|rooms: Seq<(int, int, int, int)>|
                rooms_carved(
                    old(self).room_settings,
                    old(self).width,
                    old(self).height,
                    old(self)@,
                    final(self)@,
                    rooms,
                ),
    {
        let num_rooms = self.room_settings.num_rooms;
        let min_w = self.room_settings.min_width;
        let max_w = self.room_settings.max_width;
        let min_h = self.room_settings.min_height;
        let max_h = self.room_settings.max_height;
        let width = self.width;
        let height = self.height;
        if !(min_w < max_w && min_h < max_h && max_w < width && max_h < height) {
            return Err(MazeError::BadRoomBounds);
        }
        let mut g = self.to_grid();
        let ghost m0 = g@;
        let ghost mut rooms: Seq<(int, int, int, int)> = Seq::empty();
        proof {
            crate::model_lemmas::lemma_le_refl(m0);
        }
        let mut i: usize = 0;
        while i < num_rooms
            invariant
                i <= num_rooms,
                min_w < max_w && min_h < max_h && max_w < width && max_h < height,
                min_w == self.room_settings.min_width,
                max_w == self.room_settings.max_width,
                min_h == self.room_settings.min_height,
                max_h == self.room_settings.max_height,
                width == self.width,
                height == self.height,
                m0.wrap_a == false,
                m0.da == width,
                m0.db == height,
                m_wf(m0),
                g@.wrap_a == m0.wrap_a,
                g@.da == m0.da,
                g@.db == m0.db,
                g@.cells.len() == m0.cells.len(),
                m_wf(g@),
                m_le(m0, g@),
                forall|x: int, y: int|
                    m_valid(m0, x, y) ==> #[trigger] m_marked(g@, x, y) == m_marked(m0, x, y),
                m_symmetric(m0) ==> m_symmetric(g@),
                forall|x: int, y: int, e: Dir|
                    m_valid(m0, x, y) && m_boundary(m0, x, y, e) ==> #[trigger] m_wall(g@, x, y, e)
                        == m_wall(m0, x, y, e),
                rooms.len() == i,
                forall|k: int|
                    0 <= k < rooms.len() ==> room_fits(
                        self.room_settings,
                        width,
                        height,
                        #[trigger] rooms[k],
                    ),
                forall|x: int, y: int, e: Dir|
                    m_valid(m0, x, y) ==> #[trigger] m_wall(g@, x, y, e) == (m_wall(m0, x, y, e)
                        && !rooms_open(rooms, x, y, e)),
            decreases num_rooms - i,
        {
            let ghost mstep = g@;
            let room_width = min_w + crate::random::random_below(max_w - min_w);
            let room_height = min_h + crate::random::random_below(max_h - min_h);
            let room_x = 1 + crate::random::random_below(width - room_width - 1);
            let room_y = 1 + crate::random::random_below(height - room_height - 1);
            let ghost rm = (room_x as int, room_y as int, room_width as int, room_height as int);
            carve_room(&mut g, room_x, room_y, room_width, room_height);
            proof {
                crate::model_lemmas::lemma_le_trans(m0, mstep, g@);
                assert(room_fits(self.room_settings, width, height, rm));
                assert forall|x: int, y: int, e: Dir| m_valid(m0, x, y) implies #[trigger] m_wall(
                    g@,
                    x,
                    y,
                    e,
                ) == (m_wall(m0, x, y, e) && !rooms_open(rooms.push(rm), x, y, e)) by {
                    lemma_rooms_open_push(rooms, rm, x, y, e);
                    assert(m_valid(mstep, x, y));
                    assert(m_wall(g@, x, y, e) == (m_wall(mstep, x, y, e) && !room_opens(
                        rm.0,
                        rm.1,
                        rm.2,
                        rm.3,
                        x,
                        y,
                        e,
                    )));
                    assert(m_wall(mstep, x, y, e) == (m_wall(m0, x, y, e) && !rooms_open(
                        rooms,
                        x,
                        y,
                        e,
                    )));
                }
                rooms = rooms.push(rm);
            }
            i = i + 1;
        }
        self.set_from_grid(&g);
        proof {
            assert(rooms_carved(self.room_settings, width, height, m0, self@, rooms));
        }
        Ok(())
    }
}

/// Generate a perfect maze in place with the randomized depth-first
/// carve, choosing uniformly among the unvisited neighbors, after first
/// carving the configured rooms into the reset grid.
///
/// The generator does not track room interiors as visited, so it freely
/// re-traverses them; whatever the room draws were, afterwards walls are
/// symmetric and every cell — room interiors included — is reachable
/// from the origin through open passages, no boundary wall is open and
/// no cell is marked. A grid without cells and unusable room bounds are
/// reported before any traversal; in the latter case the dungeon is left
/// reset.
pub fn generate(dungeon: &mut Dungeon) -> (r: Result<(), MazeError>)
    requires
        old(dungeon).wf(),
    ensures
        final(dungeon).wf(),
        final(dungeon).width == old(dungeon).width,
        final(dungeon).height == old(dungeon).height,
        final(dungeon).room_settings == old(dungeon).room_settings,
        r is Err <==> (old(dungeon).width == 0 || old(dungeon).height == 0 || !rooms_ok(
            old(dungeon).room_settings,
            old(dungeon).width,
            old(dungeon).height,
        )),
        (old(dungeon).width == 0 || old(dungeon).height == 0) ==> r == Err::<(), MazeError>(
            MazeError::EmptyGrid,
        ) && *final(dungeon) == *old(dungeon),
        (old(dungeon).width >= 1 && old(dungeon).height >= 1 && !rooms_ok(
            old(dungeon).room_settings,
            old(dungeon).width,
            old(dungeon).height,
        )) ==> r == Err::<(), MazeError>(MazeError::BadRoomBounds) && m_all_closed(
            final(dungeon)@,
        ),
        r is Ok ==> m_symmetric(final(dungeon)@),
        r is Ok ==> (forall|x: int, y: int|
            m_valid(final(dungeon)@, x, y) ==> m_reach(final(dungeon)@, (0int, 0int), (x, y))),
        r is Ok ==> (forall|x: int, y: int|
            m_valid(final(dungeon)@, x, y) ==> !(#[trigger] m_marked(final(dungeon)@, x, y))),
        r is Ok ==> (forall|x: int, y: int, e: Dir|
            m_valid(final(dungeon)@, x, y) && m_boundary(final(dungeon)@, x, y, e)
                ==> #[trigger] m_wall(final(dungeon)@, x, y, e)),
{
    if dungeon.width == 0 || dungeon.height == 0 {
        return Err(MazeError::EmptyGrid);
    }
    dungeon.reset();
    let ghost mreset = dungeon@;
    proof {
        crate::model_lemmas::lemma_all_closed_props(mreset);
    }
    match dungeon.create_rooms() {
        Err(e) => {
            return Err(e);
        },
        Ok(()) => {},
    }
    let mut g = dungeon.to_grid();
    let ghost mpre = g@;
    carve(&mut g, 1, 1, 1, 1);
    dungeon.set_from_grid(&g);
    proof {
        assert forall|x: int, y: int| m_valid(dungeon@, x, y) implies m_reach(
            dungeon@,
            (0int, 0int),
            (x, y),
        ) by {
            assert(m_valid(mpre, x, y));
        }
        assert forall|x: int, y: int, e: Dir|
            m_valid(dungeon@, x, y) && m_boundary(dungeon@, x, y, e) implies #[trigger] m_wall(
            dungeon@,
            x,
            y,
            e,
        ) by {
            assert(m_valid(mpre, x, y) && m_boundary(mpre, x, y, e));
            assert(m_wall(g@, x, y, e) == m_wall(mpre, x, y, e));
            assert(m_wall(mpre, x, y, e) == m_wall(mreset, x, y, e));
            assert(!m_open(mreset, x, y, e));
        }
        assert forall|x: int, y: int| m_valid(dungeon@, x, y) implies !(#[trigger] m_marked(
            dungeon@,
            x,
            y,
        )) by {
            assert(m_valid(mpre, x, y));
            assert(m_marked(g@, x, y) == m_marked(mpre, x, y));
            assert(m_marked(mpre, x, y) == m_marked(mreset, x, y));
            assert(!m_marked(mreset, x, y));
        }
    }
    Ok(())
}

/// Find a path from `start` to `stop` through open passages only and mark
/// every cell on it as part of the solution.
///
/// The returned path starts at `start`, ends at `stop`, repeats no cell,
/// and crosses one open passage per consecutive pair; exactly its cells
/// gain the solution mark. A coordinate outside the grid is rejected, and
/// an unreachable stop cell is reported once the search space is
/// exhausted.
pub fn solve(dungeon: &mut Dungeon, start: (usize, usize), stop: (usize, usize)) -> (r: Result<
    Vec<(usize, usize)>,
    MazeError,
>)
    requires
        old(dungeon).wf(),
    ensures
        final(dungeon).wf(),
        final(dungeon).width == old(dungeon).width,
        final(dungeon).height == old(dungeon).height,
        forall|x: int, y: int, e: Dir|
            m_valid(old(dungeon)@, x, y) ==> #[trigger] m_wall(final(dungeon)@, x, y, e) == m_wall(
                old(dungeon)@,
                x,
                y,
                e,
            ),
        (r == Err::<Vec<(usize, usize)>, MazeError>(MazeError::OutOfBounds)) <==> !(start.0
            < old(dungeon).width && start.1 < old(dungeon).height && stop.0 < old(dungeon).width
            && stop.1 < old(dungeon).height),
        !(start.0 < old(dungeon).width && start.1 < old(dungeon).height && stop.0 < old(dungeon).width
            && stop.1 < old(dungeon).height) ==> *final(dungeon) == *old(dungeon),
        r is Err ==> (r == Err::<Vec<(usize, usize)>, MazeError>(MazeError::OutOfBounds) || r
            == Err::<Vec<(usize, usize)>, MazeError>(MazeError::Unreachable)),
        r == Err::<Vec<(usize, usize)>, MazeError>(MazeError::Unreachable) ==> !m_reach(
            old(dungeon)@,
            ic(start),
            ic(stop),
        ) && *final(dungeon) == *old(dungeon),
        (start.0 < old(dungeon).width && start.1 < old(dungeon).height && stop.0 < old(dungeon).width
            && stop.1 < old(dungeon).height && m_reach(old(dungeon)@, ic(start), ic(stop))) ==> r is Ok,
        r matches Ok(p) ==> {
            &&& p@.len() >= 1
            &&& p@[0] == start
            &&& p@[p@.len() - 1] == stop
            &&& forall|i: int|
                0 <= i < p@.len() ==> m_valid(old(dungeon)@, ic(#[trigger] p@[i]).0, ic(p@[i]).1)
            &&& forall|i: int|
                0 <= i < p@.len() - 1 ==> m_step(old(dungeon)@, ic(#[trigger] p@[i]), ic(p@[i + 1]))
            &&& forall|i: int, j: int| 0 <= i < j < p@.len() ==> p@[i] != p@[j]
            &&& forall|x: int, y: int|
                m_valid(old(dungeon)@, x, y) ==> #[trigger] m_marked(final(dungeon)@, x, y) == (m_marked(
                    old(dungeon)@,
                    x,
                    y,
                ) || p@.contains(((x as usize), (y as usize))))
        },
{
    if !(start.0 < dungeon.width && start.1 < dungeon.height && stop.0 < dungeon.width && stop.1
        < dungeon.height) {
        return Err(MazeError::OutOfBounds);
    }
    let mut g = dungeon.to_grid();
    match search(&g, start.0, start.1, stop.0, stop.1) {
        None => Err(MazeError::Unreachable),
        Some(path) => {
            mark_path(&mut g, &path);
            dungeon.set_from_grid(&g);
            Ok(path)
        },
    }
}

} // verus!
