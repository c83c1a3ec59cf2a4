use vstd::prelude::*;

use crate::engine::carve;
use crate::errors::MazeError;
use crate::grid::Grid;
use crate::model::{
    cell_closed, m_all_closed, m_boundary, m_idx, m_mark, m_marked, m_nbr, m_open, m_open_count,
    m_open_wall, m_reach, m_set_wall, m_step, m_symmetric, m_valid, m_wall, m_wf, Dir, GCell,
    Model,
};
use crate::model_lemmas::lemma_idx_bounds;
use crate::solver::{ic, mark_path, search};

verus! {

/// A local direction on the rectangular grid.
#[derive(Clone, Copy)]
pub enum Direction {
    Up,
    Down,
    Left,
    Right,
}

/// One cell of the rectangular maze: a wall flag per direction (`true`
/// means the wall is present) and the solution mark.
#[derive(Clone, Copy, Debug)]
pub struct Cell {
    pub up: bool,
    pub down: bool,
    pub left: bool,
    pub right: bool,
    pub in_solution: bool,
}

/// The model's direction behind each local direction: `Up` decreases the
/// row axis, `Left` decreases the column axis, and nothing wraps.
pub open spec fn core_dir(d: Direction) -> Dir {
    match d {
        Direction::Up => Dir::DecB,
        Direction::Down => Dir::IncB,
        Direction::Left => Dir::DecA,
        Direction::Right => Dir::IncA,
    }
}

/// The wall flag of `c` toward `d`.
pub open spec fn cell_flag(c: Cell, d: Direction) -> bool {
    match d {
        Direction::Up => c.up,
        Direction::Down => c.down,
        Direction::Left => c.left,
        Direction::Right => c.right,
    }
}

/// One cell as the model sees it.
pub open spec fn gcell_of(c: Cell) -> GCell {
    GCell {
        wall_dec_a: c.left,
        wall_inc_a: c.right,
        wall_dec_b: c.up,
        wall_inc_b: c.down,
        marked: c.in_solution,
    }
}

/// The whole cell storage as the model sees it.
pub open spec fn gcells_of(s: Seq<Cell>) -> Seq<GCell> {
    s.map_values(|c: Cell| gcell_of(c))
}

/// Replacing one cell replaces one model cell.
proof fn lemma_gcells_update(s: Seq<Cell>, i: int, c: Cell)
    requires
        0 <= i < s.len(),
    ensures
        gcells_of(s.update(i, c)) =~= gcells_of(s).update(i, gcell_of(c)),
{
}

impl Cell {
    /// A fresh cell: fully walled, unmarked.
    pub fn new() -> (c: Cell)
        ensures
            gcell_of(c) == cell_closed(),
    {
        Cell { up: true, down: true, left: true, right: true, in_solution: false }
    }

    /// Restore the fresh state.
    pub fn reset(&mut self)
        ensures
            gcell_of(*final(self)) == cell_closed(),
    {
        self.up = true;
        self.down = true;
        self.left = true;
        self.right = true;
        self.in_solution = false;
    }

    /// Remove this cell's wall toward `dir`; the other flags and the mark
    /// stay put.
    pub fn open(&mut self, dir: Direction)
        ensures
            forall|e: Direction|
                cell_flag(*final(self), e) == if e == dir {
                    false
                } else {
                    cell_flag(*old(self), e)
                },
            final(self).in_solution == old(self).in_solution,
    {
        match dir {
            Direction::Up => self.up = false,
            Direction::Down => self.down = false,
            Direction::Left => self.left = false,
            Direction::Right => self.right = false,
        }
    }

    pub fn is_open_at_dir(&self, dir: Direction) -> (r: bool)
        ensures
            r == !cell_flag(*self, dir),
    {
        match dir {
            Direction::Up => !self.up,
            Direction::Down => !self.down,
            Direction::Left => !self.left,
            Direction::Right => !self.right,
        }
    }

    pub fn has_wall_at_dir(&self, dir: Direction) -> (r: bool)
        ensures
            r == cell_flag(*self, dir),
    {
        !self.is_open_at_dir(dir)
    }

    /// Mark this cell as part of the solution path.
    pub fn add_to_solution(&mut self)
        ensures
            *final(self) == (Cell { in_solution: true, ..*old(self) }),
            final(self).in_solution,
            forall|e: Direction| cell_flag(*final(self), e) == cell_flag(*old(self), e),
    {
        self.in_solution = true;
    }
}

/// A rectangular maze: `width * height` cells in row-major order.
pub struct Maze {
    pub width: usize,
    pub height: usize,
    pub cells: Vec<Cell>,
}

impl View for Maze {
    type V = Model;

    open spec fn view(&self) -> Model {
        Model {
            wrap_a: false,
            da: self.width as nat,
            db: self.height as nat,
            cells: gcells_of(self.cells@),
        }
    }
}

impl Maze {
    /// One cell per coordinate.
    pub open spec fn wf(&self) -> bool {
        self.cells@.len() == self.width * self.height
    }

    /// A fresh, fully walled maze.
    pub fn new(width: usize, height: usize) -> (m: Maze)
        requires
            width * height <= usize::MAX,
        ensures
            m.wf(),
            m.width == width,
            m.height == height,
            m_all_closed(m@),
    {
        let total = width * height;
        let mut cells: Vec<Cell> = Vec::new();
        let mut k: usize = 0;
        while k < total
            invariant
                k <= total,
                cells@.len() == k,
                forall|i: int| 0 <= i < k ==> gcell_of(#[trigger] cells@[i]) == cell_closed(),
            decreases total - k,
        {
            cells.push(Cell::new());
            k = k + 1;
        }
        Maze { width, height, cells }
    }

    /// Flat index of an in-range coordinate.
    fn index(&self, x: usize, y: usize) -> (i: usize)
        requires
            self.wf(),
            x < self.width,
            y < self.height,
        ensures
            i as int == m_idx(self@, x as int, y as int),
            i < self.cells@.len(),
    {
        let n = self.cells.len();
        proof {
            lemma_idx_bounds(self@, x as int, y as int);
            assert(self@.da * self@.db == n as int);
        }
        y * self.width + x
    }

    /// The cell at `(x, y)`.
    pub fn get(&self, x: usize, y: usize) -> (c: Cell)
        requires
            self.wf(),
            x < self.width,
            y < self.height,
        ensures
            gcell_of(c) == self@.cells[m_idx(self@, x as int, y as int)],
    {
        let i = self.index(x, y);
        self.cells[i]
    }

    /// Mark the cell at `(x, y)` as part of the solution.
    pub fn add_cell_to_solution(&mut self, x: usize, y: usize)
        requires
            old(self).wf(),
            x < old(self).width,
            y < old(self).height,
        ensures
            final(self)@ == m_mark(old(self)@, x as int, y as int),
            final(self).wf(),
            final(self).width == old(self).width,
            final(self).height == old(self).height,
    {
        let i = self.index(x, y);
        let mut c = self.cells[i];
        c.add_to_solution();
        proof {
            lemma_gcells_update(self.cells@, i as int, c);
        }
        self.cells.set(i, c);
        proof {
            assert(self@.cells =~= m_mark(old(self)@, x as int, y as int).cells);
            assert(self@ =~= m_mark(old(self)@, x as int, y as int));
        }
    }

    /// Set one wall flag on one side only — the raw mutation; it does not
    /// keep wall symmetry by itself.
    pub fn set(&mut self, x: usize, y: usize, dir: &Direction, val: bool)
        requires
            old(self).wf(),
            x < old(self).width,
            y < old(self).height,
        ensures
            final(self)@ == m_set_wall(old(self)@, x as int, y as int, core_dir(*dir), val),
            final(self).wf(),
            final(self).width == old(self).width,
            final(self).height == old(self).height,
    {
        let i = self.index(x, y);
        let mut c = self.cells[i];
        match dir {
            Direction::Up => c.up = val,
            Direction::Down => c.down = val,
            Direction::Left => c.left = val,
            Direction::Right => c.right = val,
        }
        proof {
            lemma_gcells_update(self.cells@, i as int, c);
        }
        self.cells.set(i, c);
        proof {
            let target = m_set_wall(old(self)@, x as int, y as int, core_dir(*dir), val);
            assert(self@.cells =~= target.cells);
            assert(self@ =~= target);
        }
    }

    /// Restore every cell to the fully walled, unmarked state.
    pub fn reset(&mut self)
        ensures
            final(self).wf() == old(self).wf(),
            final(self).width == old(self).width,
            final(self).height == old(self).height,
            m_all_closed(final(self)@),
    {
        let n = self.cells.len();
        let mut k: usize = 0;
        while k < n
            invariant
                k <= n,
                self.cells@.len() == n,
                self.width == old(self).width,
                self.height == old(self).height,
                forall|i: int| 0 <= i < k ==> gcell_of(#[trigger] self.cells@[i]) == cell_closed(),
            decreases n - k,
        {
            self.cells.set(k, Cell::new());
            k = k + 1;
        }
    }

    /// Remove every wall; the solution marks stay as they are.
    pub fn open_all(&mut self)
        ensures
            final(self).wf() == old(self).wf(),
            final(self).width == old(self).width,
            final(self).height == old(self).height,
            final(self)@.cells.len() == old(self)@.cells.len(),
            forall|i: int|
                0 <= i < old(self)@.cells.len() ==> (#[trigger] final(self)@.cells[i])
                    == (GCell {
                    wall_dec_a: false,
                    wall_inc_a: false,
                    wall_dec_b: false,
                    wall_inc_b: false,
                    marked: old(self)@.cells[i].marked,
                }),
    {
        let n = self.cells.len();
        let mut k: usize = 0;
        while k < n
            invariant
                k <= n,
                self.cells@.len() == n,
                n == old(self).cells@.len(),
                self.width == old(self).width,
                self.height == old(self).height,
                forall|i: int|
                    k <= i < n ==> #[trigger] self.cells@[i] == old(self).cells@[i],
                forall|i: int|
                    0 <= i < k ==> (#[trigger] self.cells@[i]) == (Cell {
                        up: false,
                        down: false,
                        left: false,
                        right: false,
                        in_solution: old(self).cells@[i].in_solution,
                    }),
            decreases n - k,
        {
            let mut c = self.cells[k];
            c.up = false;
            c.down = false;
            c.left = false;
            c.right = false;
            self.cells.set(k, c);
            k = k + 1;
        }
    }

    /// Whether `dir` exits the grid at `(x, y)`: the four edges of the
    /// rectangle are hard boundaries.
    pub fn is_wall_at_dir(&self, x: usize, y: usize, dir: &Direction) -> (r: bool)
        requires
            self.width >= 1,
            self.height >= 1,
        ensures
            r == (match *dir {
                Direction::Up => y == 0,
                Direction::Down => y == self.height - 1,
                Direction::Left => x == 0,
                Direction::Right => x == self.width - 1,
            }),
            x < self.width && y < self.height ==> r == m_boundary(
                self@,
                x as int,
                y as int,
                core_dir(*dir),
            ),
    {
        match dir {
            Direction::Up => y == 0,
            Direction::Down => y == self.height - 1,
            Direction::Left => x == 0,
            Direction::Right => x == self.width - 1,
        }
    }

    /// Whether the wall of `(x, y)` toward `dir` is open.
    pub fn is_open_at_dir(&self, x: usize, y: usize, dir: &Direction) -> (r: bool)
        requires
            self.wf(),
            x < self.width,
            y < self.height,
        ensures
            r == m_open(self@, x as int, y as int, core_dir(*dir)),
    {
        let c = self.get(x, y);
        match dir {
            Direction::Up => !c.up,
            Direction::Down => !c.down,
            Direction::Left => !c.left,
            Direction::Right => !c.right,
        }
    }

    /// Carve the passage from `(x, y)` toward `dir`: the wall goes away on
    /// both sides at once, which is what keeps wall symmetry.
    pub fn open_at_dir(&mut self, x: usize, y: usize, dir: &Direction)
        requires
            old(self).wf(),
            x < old(self).width,
            y < old(self).height,
            !m_boundary(old(self)@, x as int, y as int, core_dir(*dir)),
        ensures
            final(self)@ == m_open_wall(old(self)@, x as int, y as int, core_dir(*dir)),
            final(self).wf(),
            final(self).width == old(self).width,
            final(self).height == old(self).height,
    {
        match dir {
            Direction::Up => {
                self.set(x, y, dir, false);
                self.set(x, y - 1, &Direction::Down, false)
            },
            Direction::Down => {
                self.set(x, y, dir, false);
                self.set(x, y + 1, &Direction::Up, false)
            },
            Direction::Left => {
                self.set(x, y, dir, false);
                self.set(x - 1, y, &Direction::Right, false)
            },
            Direction::Right => {
                self.set(x, y, dir, false);
                self.set(x + 1, y, &Direction::Left, false)
            },
        }
    }

    /// Copy the wall state and marks into an engine grid.
    pub fn to_grid(&self) -> (g: Grid)
        requires
            self.wf(),
        ensures
            g@ == self@,
    {
        let mut gcells: Vec<GCell> = Vec::new();
        let n = self.cells.len();
        let mut k: usize = 0;
        while k < n
            invariant
                k <= n,
                n == self.cells@.len(),
                gcells@.len() == k,
                forall|i: int|
                    0 <= i < k ==> #[trigger] gcells@[i] == gcell_of(self.cells@[i]),
            decreases n - k,
        {
            let c = self.cells[k];
            gcells.push(
                GCell {
                    wall_dec_a: c.left,
                    wall_inc_a: c.right,
                    wall_dec_b: c.up,
                    wall_inc_b: c.down,
                    marked: c.in_solution,
                },
            );
            k = k + 1;
        }
        let g = Grid { wrap_a: false, da: self.width, db: self.height, cells: gcells };
        proof {
            assert(g@.cells =~= self@.cells);
            assert(g@ =~= self@);
        }
        g
    }

    /// Copy the wall state and marks back from an engine grid of the same
    /// shape.
    pub fn set_from_grid(&mut self, g: &Grid)
        requires
            old(self).wf(),
            g@.wrap_a == false,
            g@.da == old(self).width,
            g@.db == old(self).height,
            g@.cells.len() == old(self).cells@.len(),
        ensures
            final(self)@ == g@,
            final(self).wf(),
            final(self).width == old(self).width,
            final(self).height == old(self).height,
    {
        let n = self.cells.len();
        let mut k: usize = 0;
        while k < n
            invariant
                k <= n,
                self.cells@.len() == n,
                g@.cells.len() == n,
                self.width == old(self).width,
                self.height == old(self).height,
                forall|i: int|
                    0 <= i < k ==> gcell_of(#[trigger] self.cells@[i]) == g@.cells[i],
            decreases n - k,
        {
            let gc = g.cells[k];
            self.cells.set(
                k,
                Cell {
                    left: gc.wall_dec_a,
                    right: gc.wall_inc_a,
                    up: gc.wall_dec_b,
                    down: gc.wall_inc_b,
                    in_solution: gc.marked,
                },
            );
            k = k + 1;
        }
        proof {
            assert(self@.cells =~= g@.cells);
            assert(self@ =~= g@);
        }
    }
}

/// Generate a perfect maze in place with the randomized depth-first carve,
/// choosing uniformly among the unvisited neighbors.
///
/// On success the maze is freshly reset and then carved: walls are
/// symmetric, every cell is reachable from the origin `(0, 0)` through
/// open passages, the open flags count twice the cell count minus one (a
/// spanning tree), no boundary wall is opened and no cell is marked.
/// A grid without cells is reported before any traversal.
pub fn generate(maze: &mut Maze) -> (r: Result<(), MazeError>)
    requires
        old(maze).wf(),
    ensures
        final(maze).wf(),
        final(maze).width == old(maze).width,
        final(maze).height == old(maze).height,
        r is Err <==> (old(maze).width == 0 || old(maze).height == 0),
        r is Err ==> r == Err::<(), MazeError>(MazeError::EmptyGrid) && *final(maze) == *old(maze),
        r is Ok ==> m_symmetric(final(maze)@),
        r is Ok ==> (forall|x: int, y: int|
            m_valid(final(maze)@, x, y) ==> m_reach(final(maze)@, (0int, 0int), (x, y))),
        r is Ok ==> m_open_count(final(maze)@) == 2 * (old(maze).width * old(maze).height - 1),
        r is Ok ==> (forall|x: int, y: int|
            m_valid(final(maze)@, x, y) ==> !(#[trigger] m_marked(final(maze)@, x, y))),
        r is Ok ==> (forall|x: int, y: int, e: Dir|
            m_valid(final(maze)@, x, y) && m_boundary(final(maze)@, x, y, e) ==> #[trigger] m_wall(
                final(maze)@,
                x,
                y,
                e,
            )),
{
    if maze.width == 0 || maze.height == 0 {
        return Err(MazeError::EmptyGrid);
    }
    maze.reset();
    let mut g = maze.to_grid();
    let ghost mpre = g@;
    proof {
        crate::model_lemmas::lemma_all_closed_props(mpre);
    }
    carve(&mut g, 1, 1, 1, 1);
    maze.set_from_grid(&g);
    proof {
        assert forall|x: int, y: int| m_valid(maze@, x, y) implies m_reach(
            maze@,
            (0int, 0int),
            (x, y),
        ) by {
            assert(m_valid(mpre, x, y));
        }
        assert forall|x: int, y: int, e: Dir|
            m_valid(maze@, x, y) && m_boundary(maze@, x, y, e) implies #[trigger] m_wall(
            maze@,
            x,
            y,
            e,
        ) by {
            assert(m_valid(mpre, x, y) && m_boundary(mpre, x, y, e));
            assert(m_wall(g@, x, y, e) == m_wall(mpre, x, y, e));
            assert(!m_open(mpre, x, y, e));
        }
        assert forall|x: int, y: int| m_valid(maze@, x, y) implies !(#[trigger] m_marked(
            maze@,
            x,
            y,
        )) by {
            assert(m_valid(mpre, x, y));
            assert(m_marked(g@, x, y) == m_marked(mpre, x, y));
            assert(!m_marked(mpre, x, y));
        }
        assert(mpre.da * mpre.db == maze.width * maze.height);
    }
    Ok(())
}

/// Find a path from `start` to `stop` through open passages only and mark
/// every cell on it as part of the solution.
///
/// The returned path starts at `start`, ends at `stop`, repeats no cell,
/// and crosses one open passage per consecutive pair; exactly its cells
/// gain the solution mark. A coordinate outside the grid is rejected, and
/// an unreachable stop cell is reported once the search space is
/// exhausted.
pub fn solve(maze: &mut Maze, start: (usize, usize), stop: (usize, usize)) -> (r: Result<
    Vec<(usize, usize)>,
    MazeError,
>)
    requires
        old(maze).wf(),
    ensures
        final(maze).wf(),
        final(maze).width == old(maze).width,
        final(maze).height == old(maze).height,
        forall|x: int, y: int, e: Dir|
            m_valid(old(maze)@, x, y) ==> #[trigger] m_wall(final(maze)@, x, y, e) == m_wall(
                old(maze)@,
                x,
                y,
                e,
            ),
        (r == Err::<Vec<(usize, usize)>, MazeError>(MazeError::OutOfBounds)) <==> !(start.0
            < old(maze).width && start.1 < old(maze).height && stop.0 < old(maze).width
            && stop.1 < old(maze).height),
        !(start.0 < old(maze).width && start.1 < old(maze).height && stop.0 < old(maze).width
            && stop.1 < old(maze).height) ==> *final(maze) == *old(maze),
        r is Err ==> (r == Err::<Vec<(usize, usize)>, MazeError>(MazeError::OutOfBounds) || r
            == Err::<Vec<(usize, usize)>, MazeError>(MazeError::Unreachable)),
        r == Err::<Vec<(usize, usize)>, MazeError>(MazeError::Unreachable) ==> !m_reach(
            old(maze)@,
            ic(start),
            ic(stop),
        ) && *final(maze) == *old(maze),
        (start.0 < old(maze).width && start.1 < old(maze).height && stop.0 < old(maze).width
            && stop.1 < old(maze).height && m_reach(old(maze)@, ic(start), ic(stop))) ==> r is Ok,
        r matches Ok(p) ==> {
            &&& p@.len() >= 1
            &&& p@[0] == start
            &&& p@[p@.len() - 1] == stop
            &&& forall|i: int|
                0 <= i < p@.len() ==> m_valid(old(maze)@, ic(#[trigger] p@[i]).0, ic(p@[i]).1)
            &&& forall|i: int|
                0 <= i < p@.len() - 1 ==> m_step(old(maze)@, ic(#[trigger] p@[i]), ic(p@[i + 1]))
            &&& forall|i: int, j: int| 0 <= i < j < p@.len() ==> p@[i] != p@[j]
            &&& forall|x: int, y: int|
                m_valid(old(maze)@, x, y) ==> #[trigger] m_marked(final(maze)@, x, y) == (m_marked(
                    old(maze)@,
                    x,
                    y,
                ) || p@.contains(((x as usize), (y as usize))))
        },
{
    if !(start.0 < maze.width && start.1 < maze.height && stop.0 < maze.width && stop.1
        < maze.height) {
        return Err(MazeError::OutOfBounds);
    }
    let mut g = maze.to_grid();
    match search(&g, start.0, start.1, stop.0, stop.1) {
        None => Err(MazeError::Unreachable),
        Some(path) => {
            mark_path(&mut g, &path);
            maze.set_from_grid(&g);
            Ok(path)
        },
    }
}

} // verus!
