use vstd::prelude::*;

use crate::engine::carve;
use crate::errors::MazeError;
use crate::grid::Grid;
use crate::model::{
    cell_closed, m_all_closed, m_boundary, m_idx, m_mark, m_marked, m_open, m_open_count,
    m_open_wall, m_reach, m_set_wall, m_step, m_symmetric, m_valid, m_wall, Dir, GCell, Model,
};
use crate::model_lemmas::lemma_idx_bounds;
use crate::solver::{mark_path, search};

verus! {

/// A local direction on the radial grid: along a spoke (`Out` toward the
/// rim, `In` toward the center) or along a ring (`Left`, `Right`).
#[derive(Clone, Copy)]
pub enum Direction {
    Out,
    In,
    Left,
    Right,
}

/// One cell of the radial maze: a wall flag per direction (`true` means
/// the wall is present) and the solution mark.
#[derive(Clone, Copy, Debug)]
pub struct Cell {
    pub outward: bool,
    pub inward: bool,
    pub left: bool,
    pub right: bool,
    pub in_solution: bool,
}

/// The model's direction behind each local direction. The spoke index is
/// the wrapping axis A — `Right` decreases it — and the ring index is
/// axis B, growing inward, so `Out` decreases it.
pub open spec fn core_dir(d: Direction) -> Dir {
    match d {
        Direction::Out => Dir::DecB,
        Direction::In => Dir::IncB,
        Direction::Right => Dir::DecA,
        Direction::Left => Dir::IncA,
    }
}

/// The wall flag of `c` toward `d`.
pub open spec fn cell_flag(c: Cell, d: Direction) -> bool {
    match d {
        Direction::Out => c.outward,
        Direction::In => c.inward,
        Direction::Left => c.left,
        Direction::Right => c.right,
    }
}

/// One cell as the model sees it.
pub open spec fn gcell_of(c: Cell) -> GCell {
    GCell {
        wall_dec_a: c.right,
        wall_inc_a: c.left,
        wall_dec_b: c.outward,
        wall_inc_b: c.inward,
        marked: c.in_solution,
    }
}

/// The whole cell storage as the model sees it.
pub open spec fn gcells_of(s: Seq<Cell>) -> Seq<GCell> {
    s.map_values(|c: Cell| gcell_of(c))
}

/// Replacing one cell replaces one model cell.
proof fn lemma_gcells_update(s: Seq<Cell>, i: int, c: Cell)
    requires
        0 <= i < s.len(),
    ensures
        gcells_of(s.update(i, c)) =~= gcells_of(s).update(i, gcell_of(c)),
{
}

/// A model coordinate from a `(ring, spoke)` pair: the spoke is axis A,
/// the ring axis B.
pub open spec fn rs(c: (usize, usize)) -> (int, int) {
    (c.1 as int, c.0 as int)
}

impl Cell {
    /// A fresh cell: fully walled, unmarked.
    pub fn new() -> (c: Cell)
        ensures
            gcell_of(c) == cell_closed(),
    {
        Cell { outward: true, inward: true, left: true, right: true, in_solution: false }
    }

    /// Restore the fresh state.
    pub fn reset(&mut self)
        ensures
            gcell_of(*final(self)) == cell_closed(),
    {
        self.outward = true;
        self.inward = true;
        self.left = true;
        self.right = true;
        self.in_solution = false;
    }

    /// Mark this cell as part of the solution path.
    pub fn add_to_solution(&mut self)
        ensures
            *final(self) == (Cell { in_solution: true, ..*old(self) }),
    {
        self.in_solution = true;
    }

    /// Set this cell's wall flag toward `direction` — one side only.
    pub fn set(&mut self, direction: Direction, value: bool)
        ensures
            forall|e: Direction|
                cell_flag(*final(self), e) == if core_dir(e) == core_dir(direction) {
                    value
                } else {
                    cell_flag(*old(self), e)
                },
            final(self).in_solution == old(self).in_solution,
            gcell_of(*final(self)) == crate::model::cell_set_wall(
                gcell_of(*old(self)),
                core_dir(direction),
                value,
            ),
    {
        match direction {
            Direction::Out => self.outward = value,
            Direction::In => self.inward = value,
            Direction::Left => self.left = value,
            Direction::Right => self.right = value,
        }
    }
}

/// A radial maze: `rings` concentric rings of `spokes` cells, stored
/// ring-major (ring 0 is the outermost). The spoke axis wraps around; the
/// ring axis does not.
pub struct CircMaze {
    pub rings: usize,
    pub spokes: usize,
    pub cells: Vec<Cell>,
    /// How often to split a spoke; kept for the renderer, not read by the
    /// generation or solving logic.
    pub split_frequency: usize,
}

impl View for CircMaze {
    type V = Model;

    open spec fn view(&self) -> Model {
        Model {
            wrap_a: true,
            da: self.spokes as nat,
            db: self.rings as nat,
            cells: gcells_of(self.cells@),
        }
    }
}

impl CircMaze {
    /// One cell per coordinate.
    pub open spec fn wf(&self) -> bool {
        self.cells@.len() == self.spokes * self.rings
    }

    /// A fresh, fully walled radial maze.
    pub fn new(rings: usize, spokes: usize, split_frequency: usize) -> (m: CircMaze)
        requires
            rings * spokes <= usize::MAX,
        ensures
            m.wf(),
            m.rings == rings,
            m.spokes == spokes,
            m.split_frequency == split_frequency,
            m_all_closed(m@),
    {
        proof {
            assert(rings * spokes == spokes * rings) by (nonlinear_arith);
        }
        let total = spokes * rings;
        let mut cells: Vec<Cell> = Vec::new();
        let mut k: usize = 0;
        while k < total
            invariant
                k <= total,
                cells@.len() == k,
                forall|i: int| 0 <= i < k ==> gcell_of(#[trigger] cells@[i]) == cell_closed(),
            decreases total - k,
        {
            cells.push(Cell::new());
            k = k + 1;
        }
        CircMaze { rings, spokes, cells, split_frequency }
    }

    /// Flat index of an in-range `(ring, spoke)` coordinate.
    fn index(&self, ring: usize, spoke: usize) -> (i: usize)
        requires
            self.wf(),
            ring < self.rings,
            spoke < self.spokes,
        ensures
            i as int == m_idx(self@, spoke as int, ring as int),
            i < self.cells@.len(),
    {
        let n = self.cells.len();
        proof {
            lemma_idx_bounds(self@, spoke as int, ring as int);
            assert(self@.da * self@.db == n as int) by (nonlinear_arith)
                requires
                    self@.da == self.spokes,
                    self@.db == self.rings,
                    n == self.spokes * self.rings,
            ;
        }
        ring * self.spokes + spoke
    }

    /// Restore every cell to the fully walled, unmarked state.
    pub fn reset(&mut self)
        ensures
            final(self).wf() == old(self).wf(),
            final(self).rings == old(self).rings,
            final(self).spokes == old(self).spokes,
            final(self).split_frequency == old(self).split_frequency,
            m_all_closed(final(self)@),
    {
        let n = self.cells.len();
        let mut k: usize = 0;
        while k < n
            invariant
                k <= n,
                self.cells@.len() == n,
                self.rings == old(self).rings,
                self.spokes == old(self).spokes,
                self.split_frequency == old(self).split_frequency,
                forall|i: int| 0 <= i < k ==> gcell_of(#[trigger] self.cells@[i]) == cell_closed(),
            decreases n - k,
        {
            self.cells.set(k, Cell::new());
            k = k + 1;
        }
    }

    /// The cell at `(ring, spoke)`.
    pub fn get(&self, ring: usize, spoke: usize) -> (c: Cell)
        requires
            self.wf(),
            ring < self.rings,
            spoke < self.spokes,
        ensures
            gcell_of(c) == self@.cells[m_idx(self@, spoke as int, ring as int)],
    {
        let i = self.index(ring, spoke);
        self.cells[i]
    }

    /// Set one wall flag on one side only — the raw mutation; it does not
    /// keep wall symmetry by itself.
    pub fn set(&mut self, ring: usize, spoke: usize, direction: &Direction, value: bool)
        requires
            old(self).wf(),
            ring < old(self).rings,
            spoke < old(self).spokes,
        ensures
            final(self)@ == m_set_wall(
                old(self)@,
                spoke as int,
                ring as int,
                core_dir(*direction),
                value,
            ),
            final(self).wf(),
            final(self).rings == old(self).rings,
            final(self).spokes == old(self).spokes,
            final(self).split_frequency == old(self).split_frequency,
    {
        let i = self.index(ring, spoke);
        let mut c = self.cells[i];
        c.set(*direction, value);
        proof {
            lemma_gcells_update(self.cells@, i as int, c);
        }
        self.cells.set(i, c);
        proof {
            let target = m_set_wall(
                old(self)@,
                spoke as int,
                ring as int,
                core_dir(*direction),
                value,
            );
            assert(self@.cells =~= target.cells);
            assert(self@ =~= target);
        }
    }

    /// Mark the cell at `(ring, spoke)` as part of the solution.
    pub fn add_cell_to_solution(&mut self, ring: usize, spoke: usize)
        requires
            old(self).wf(),
            ring < old(self).rings,
            spoke < old(self).spokes,
        ensures
            final(self)@ == m_mark(old(self)@, spoke as int, ring as int),
            final(self).wf(),
            final(self).rings == old(self).rings,
            final(self).spokes == old(self).spokes,
            final(self).split_frequency == old(self).split_frequency,
    {
        let i = self.index(ring, spoke);
        let mut c = self.cells[i];
        c.add_to_solution();
        proof {
            lemma_gcells_update(self.cells@, i as int, c);
        }
        self.cells.set(i, c);
        proof {
            assert(self@.cells =~= m_mark(old(self)@, spoke as int, ring as int).cells);
            assert(self@ =~= m_mark(old(self)@, spoke as int, ring as int));
        }
    }

    /// Whether `dir` exits the addressable space at ring `r`: the
    /// outermost ring bounds `Out`, the innermost bounds `In`, and the
    /// spoke directions wrap and never hit a boundary.
    pub fn is_wall_at_dir(&self, r: usize, dir: &Direction) -> (res: bool)
        requires
            self.rings >= 1,
        ensures
            res == (match *dir {
                Direction::In => r == self.rings - 1,
                Direction::Out => r == 0,
                Direction::Left => false,
                Direction::Right => false,
            }),
            forall|s: int|
                0 <= s < self.spokes && r < self.rings ==> res == m_boundary(
                    self@,
                    s,
                    r as int,
                    core_dir(*dir),
                ),
    {
        match dir {
            Direction::In => r == self.rings - 1,
            Direction::Out => r == 0,
            _ => false,
        }
    }

    /// Whether the wall of `(ring, spoke)` toward `dir` is open.
    pub fn is_open_at_dir(&self, r: usize, s: usize, dir: &Direction) -> (res: bool)
        requires
            self.wf(),
            r < self.rings,
            s < self.spokes,
        ensures
            res == m_open(self@, s as int, r as int, core_dir(*dir)),
    {
        let c = self.get(r, s);
        match dir {
            Direction::In => !c.inward,
            Direction::Out => !c.outward,
            Direction::Left => !c.left,
            Direction::Right => !c.right,
        }
    }

    /// Carve the passage from `(ring, spoke)` toward `dir`: the wall goes
    /// away on both sides at once, wrapping around the spoke axis.
    pub fn open_at_dir(&mut self, r: usize, s: usize, dir: &Direction)
        requires
            old(self).wf(),
            r < old(self).rings,
            s < old(self).spokes,
            !m_boundary(old(self)@, s as int, r as int, core_dir(*dir)),
        ensures
            final(self)@ == m_open_wall(old(self)@, s as int, r as int, core_dir(*dir)),
            final(self).wf(),
            final(self).rings == old(self).rings,
            final(self).spokes == old(self).spokes,
            final(self).split_frequency == old(self).split_frequency,
    {
        match dir {
            Direction::In => {
                self.set(r, s, dir, false);
                self.set(r + 1, s, &Direction::Out, false)
            },
            Direction::Out => {
                self.set(r, s, dir, false);
                self.set(r - 1, s, &Direction::In, false)
            },
            Direction::Right => {
                self.set(r, s, dir, false);
                if s > 0 {
                    self.set(r, s - 1, &Direction::Left, false)
                } else {
                    self.set(r, self.spokes - 1, &Direction::Left, false)
                }
            },
            Direction::Left => {
                self.set(r, s, dir, false);
                if s < self.spokes - 1 {
                    self.set(r, s + 1, &Direction::Right, false)
                } else {
                    self.set(r, 0, &Direction::Right, false)
                }
            },
        }
    }

    /// Force open the maze entrance and exit: the outward wall of ring 0
    /// spoke 0 and the inward wall of the innermost ring at the opposite
    /// spoke. These are boundary walls, so only one side exists to open.
    pub fn open_start_and_end(&mut self)
        requires
            old(self).wf(),
            old(self).rings >= 1,
            old(self).spokes >= 1,
        ensures
            final(self)@ == m_set_wall(
                m_set_wall(old(self)@, 0, 0, Dir::DecB, false),
                (old(self).spokes / 2) as int,
                old(self).rings - 1,
                Dir::IncB,
                false,
            ),
            final(self).wf(),
            final(self).rings == old(self).rings,
            final(self).spokes == old(self).spokes,
            final(self).split_frequency == old(self).split_frequency,
            m_open(final(self)@, 0, 0, Dir::DecB),
            m_open(final(self)@, (old(self).spokes / 2) as int, old(self).rings - 1, Dir::IncB),
    {
        let r = self.rings;
        let s = self.spokes;
        self.set(0, 0, &Direction::Out, false);
        self.set(r - 1, s / 2, &Direction::In, false);
        proof {
            lemma_idx_bounds(self@, 0, 0);
            lemma_idx_bounds(self@, (s / 2) as int, r - 1 as int);
            if m_idx(self@, 0, 0) == m_idx(self@, (s / 2) as int, r - 1 as int) {
                crate::model_lemmas::lemma_idx_inj(self@, 0, 0, (s / 2) as int, r - 1 as int);
            }
        }
    }

    /// Copy the wall state and marks into an engine grid.
    pub fn to_grid(&self) -> (g: Grid)
        requires
            self.wf(),
        ensures
            g@ == self@,
    {
        let mut gcells: Vec<GCell> = Vec::new();
        let n = self.cells.len();
        let mut k: usize = 0;
        while k < n
            invariant
                k <= n,
                n == self.cells@.len(),
                gcells@.len() == k,
                forall|i: int| 0 <= i < k ==> #[trigger] gcells@[i] == gcell_of(self.cells@[i]),
            decreases n - k,
        {
            let c = self.cells[k];
            gcells.push(
                GCell {
                    wall_dec_a: c.right,
                    wall_inc_a: c.left,
                    wall_dec_b: c.outward,
                    wall_inc_b: c.inward,
                    marked: c.in_solution,
                },
            );
            k = k + 1;
        }
        let g = Grid { wrap_a: true, da: self.spokes, db: self.rings, cells: gcells };
        proof {
            assert(g@.cells =~= self@.cells);
            assert(g@ =~= self@);
        }
        g
    }

    /// Copy the wall state and marks back from an engine grid of the same
    /// shape.
    pub fn set_from_grid(&mut self, g: &Grid)
        requires
            old(self).wf(),
            g@.wrap_a == true,
            g@.da == old(self).spokes,
            g@.db == old(self).rings,
            g@.cells.len() == old(self).cells@.len(),
        ensures
            final(self)@ == g@,
            final(self).wf(),
            final(self).rings == old(self).rings,
            final(self).spokes == old(self).spokes,
            final(self).split_frequency == old(self).split_frequency,
    {
        let n = self.cells.len();
        let mut k: usize = 0;
        while k < n
            invariant
                k <= n,
                self.cells@.len() == n,
                g@.cells.len() == n,
                self.rings == old(self).rings,
                self.spokes == old(self).spokes,
                self.split_frequency == old(self).split_frequency,
                forall|i: int| 0 <= i < k ==> gcell_of(#[trigger] self.cells@[i]) == g@.cells[i],
            decreases n - k,
        {
            let gc = g.cells[k];
            self.cells.set(
                k,
                Cell {
                    right: gc.wall_dec_a,
                    left: gc.wall_inc_a,
                    outward: gc.wall_dec_b,
                    inward: gc.wall_inc_b,
                    in_solution: gc.marked,
                },
            );
            k = k + 1;
        }
        proof {
            assert(self@.cells =~= g@.cells);
            assert(self@ =~= g@);
        }
    }
}

/// Generate a fresh perfect radial maze with the randomized depth-first
/// carve, weighting the direction draw by an axis bias and a length bias,
/// both in thousandths of one.
///
/// The axis bias splits the weight between the radial directions (weight
/// `bias`) and the angular ones (weight `1000 - bias`); the length bias
/// is added to `Out` and to both angular directions. On success walls are
/// symmetric, every cell is reachable from ring 0 spoke 0, the open flags
/// count twice the cell count minus one (a spanning tree), no ring
/// boundary wall is open and no cell is marked. Degenerate dimensions —
/// no ring, or fewer than two spokes — and out-of-range biases are
/// reported before any traversal.
pub fn generate(rings: usize, spokes: usize, split_frequency: usize, bias: u64, length_bias: u64)
    -> (r: Result<CircMaze, MazeError>)
    requires
        rings * spokes <= usize::MAX,
    ensures
        r is Err <==> (rings == 0 || spokes < 2 || bias > 1000 || length_bias > 1000),
        rings == 0 || spokes < 2 ==> r == Err::<CircMaze, MazeError>(MazeError::EmptyGrid),
        (rings >= 1 && spokes >= 2 && (bias > 1000 || length_bias > 1000)) ==> r == Err::<
            CircMaze,
            MazeError,
        >(MazeError::BiasOutOfRange),
        r matches Ok(m) ==> {
            &&& m.wf()
            &&& m.rings == rings
            &&& m.spokes == spokes
            &&& m.split_frequency == split_frequency
            &&& m_symmetric(m@)
            &&& (forall|a: int, b: int| m_valid(m@, a, b) ==> m_reach(m@, (0int, 0int), (a, b)))
            &&& m_open_count(m@) == 2 * (spokes * rings - 1)
            &&& (forall|a: int, b: int| m_valid(m@, a, b) ==> !(#[trigger] m_marked(m@, a, b)))
            &&& (forall|a: int, b: int, e: Dir|
                m_valid(m@, a, b) && m_boundary(m@, a, b, e) ==> #[trigger] m_wall(m@, a, b, e))
        },
{
    if rings == 0 || spokes < 2 {
        return Err(MazeError::EmptyGrid);
    }
    if bias > 1000 || length_bias > 1000 {
        return Err(MazeError::BiasOutOfRange);
    }
    let radial_weight: u64 = bias;
    let angle_weight: u64 = 1000 - bias;
    let mut maze = CircMaze::new(rings, spokes, split_frequency);
    let mut g = maze.to_grid();
    let ghost mpre = g@;
    proof {
        crate::model_lemmas::lemma_all_closed_props(mpre);
    }
    carve(
        &mut g,
        angle_weight + length_bias,
        angle_weight + length_bias,
        radial_weight + length_bias,
        radial_weight,
    );
    maze.set_from_grid(&g);
    proof {
        assert forall|a: int, b: int| m_valid(maze@, a, b) implies m_reach(
            maze@,
            (0int, 0int),
            (a, b),
        ) by {
            assert(m_valid(mpre, a, b));
        }
        assert forall|a: int, b: int, e: Dir|
            m_valid(maze@, a, b) && m_boundary(maze@, a, b, e) implies #[trigger] m_wall(
            maze@,
            a,
            b,
            e,
        ) by {
            assert(m_valid(mpre, a, b) && m_boundary(mpre, a, b, e));
            assert(m_wall(g@, a, b, e) == m_wall(mpre, a, b, e));
            assert(!m_open(mpre, a, b, e));
        }
        assert forall|a: int, b: int| m_valid(maze@, a, b) implies !(#[trigger] m_marked(
            maze@,
            a,
            b,
        )) by {
            assert(m_valid(mpre, a, b));
            assert(m_marked(g@, a, b) == m_marked(mpre, a, b));
            assert(!m_marked(mpre, a, b));
        }
        assert(mpre.da * mpre.db == spokes * rings);
    }
    Ok(maze)
}

/// The radial boundary law: on a radial maze with at least one ring, the
/// outermost ring (ring 0) always bounds the outward direction and the
/// innermost ring bounds the inward direction, while the spoke directions
/// wrap around and never hit a boundary.
pub proof fn lemma_radial_boundaries(m: CircMaze, s: int)
    requires
        0 <= s < m.spokes,
        m.rings >= 1,
    ensures
        m_boundary(m@, s, 0, Dir::DecB),
        m_boundary(m@, s, m.rings - 1, Dir::IncB),
        forall|r: int|
            0 <= r < m.rings ==> !m_boundary(m@, s, r, Dir::DecA) && !m_boundary(
                m@,
                s,
                r,
                Dir::IncA,
            ),
{
}

/// Find a path between two `(ring, spoke)` coordinates through open
/// passages only and mark every cell on it as part of the solution.
///
/// The returned path starts at `start`, ends at `stop`, repeats no cell,
/// and crosses one open passage per consecutive pair; exactly its cells
/// gain the solution mark. A coordinate outside the grid is rejected, and
/// an unreachable stop cell is reported once the search space is
/// exhausted.
pub fn solve(maze: &mut CircMaze, start: (usize, usize), stop: (usize, usize)) -> (r: Result<
    Vec<(usize, usize)>,
    MazeError,
>)
    requires
        old(maze).wf(),
    ensures
        final(maze).wf(),
        final(maze).rings == old(maze).rings,
        final(maze).spokes == old(maze).spokes,
        final(maze).split_frequency == old(maze).split_frequency,
        forall|a: int, b: int, e: Dir|
            m_valid(old(maze)@, a, b) ==> #[trigger] m_wall(final(maze)@, a, b, e) == m_wall(
                old(maze)@,
                a,
                b,
                e,
            ),
        (r == Err::<Vec<(usize, usize)>, MazeError>(MazeError::EmptyGrid)) <==> old(maze).spokes
            < 2,
        old(maze).spokes < 2 ==> *final(maze) == *old(maze),
        (r == Err::<Vec<(usize, usize)>, MazeError>(MazeError::OutOfBounds)) <==> (old(maze).spokes
            >= 2 && !(start.0 < old(maze).rings && start.1 < old(maze).spokes && stop.0 < old(
            maze,
        ).rings && stop.1 < old(maze).spokes)),
        !(start.0 < old(maze).rings && start.1 < old(maze).spokes && stop.0 < old(maze).rings
            && stop.1 < old(maze).spokes) ==> *final(maze) == *old(maze),
        r is Err ==> (r == Err::<Vec<(usize, usize)>, MazeError>(MazeError::EmptyGrid) || r
            == Err::<Vec<(usize, usize)>, MazeError>(MazeError::OutOfBounds) || r == Err::<
            Vec<(usize, usize)>,
            MazeError,
        >(MazeError::Unreachable)),
        r == Err::<Vec<(usize, usize)>, MazeError>(MazeError::Unreachable) ==> !m_reach(
            old(maze)@,
            rs(start),
            rs(stop),
        ) && *final(maze) == *old(maze),
        (old(maze).spokes >= 2 && start.0 < old(maze).rings && start.1 < old(maze).spokes
            && stop.0 < old(maze).rings && stop.1 < old(maze).spokes && m_reach(
            old(maze)@,
            rs(start),
            rs(stop),
        )) ==> r is Ok,
        r matches Ok(p) ==> {
            &&& p@.len() >= 1
            &&& p@[0] == start
            &&& p@[p@.len() - 1] == stop
            &&& forall|i: int|
                0 <= i < p@.len() ==> m_valid(old(maze)@, rs(#[trigger] p@[i]).0, rs(p@[i]).1)
            &&& forall|i: int|
                0 <= i < p@.len() - 1 ==> m_step(old(maze)@, rs(#[trigger] p@[i]), rs(p@[i + 1]))
            &&& forall|i: int, j: int| 0 <= i < j < p@.len() ==> p@[i] != p@[j]
            &&& forall|a: int, b: int|
                m_valid(old(maze)@, a, b) ==> #[trigger] m_marked(final(maze)@, a, b) == (m_marked(
                    old(maze)@,
                    a,
                    b,
                ) || p@.contains(((b as usize), (a as usize))))
        },
{
    if maze.spokes < 2 {
        return Err(MazeError::EmptyGrid);
    }
    if !(start.0 < maze.rings && start.1 < maze.spokes && stop.0 < maze.rings && stop.1
        < maze.spokes) {
        return Err(MazeError::OutOfBounds);
    }
    let mut g = maze.to_grid();
    match search(&g, start.1, start.0, stop.1, stop.0) {
        None => Err(MazeError::Unreachable),
        Some(spath) => {
            mark_path(&mut g, &spath);
            maze.set_from_grid(&g);
            // The engine path holds `(spoke, ring)` pairs; hand back
            // `(ring, spoke)` pairs as the radial interface uses them.
            let mut path: Vec<(usize, usize)> = Vec::new();
            let n = spath.len();
            let mut k: usize = 0;
            while k < n
                invariant
                    k <= n,
                    n == spath@.len(),
                    path@.len() == k,
                    forall|i: int|
                        0 <= i < k ==> #[trigger] path@[i] == (spath@[i].1, spath@[i].0),
                decreases n - k,
            {
                let c = spath[k];
                path.push((c.1, c.0));
                k = k + 1;
            }
            proof {
                assert forall|i: int, j: int| 0 <= i < j < path@.len() implies path@[i]
                    != path@[j] by {
                    if path@[i] == path@[j] {
                        assert(spath@[i].0 == spath@[j].0 && spath@[i].1 == spath@[j].1);
                        assert(spath@[i] == spath@[j]);
                    }
                }
                assert forall|a: int, b: int| m_valid(old(maze)@, a, b) implies #[trigger] m_marked(
                    maze@,
                    a,
                    b,
                ) == (m_marked(old(maze)@, a, b) || path@.contains(
                    ((b as usize), (a as usize)),
                )) by {
                    if spath@.contains(((a as usize), (b as usize))) {
                        let kk = choose|kk: int|
                            0 <= kk < spath@.len() && spath@[kk] == ((a as usize), (b as usize));
                        assert(path@[kk] == ((b as usize), (a as usize)));
                        assert(path@.contains(((b as usize), (a as usize))));
                    }
                    if path@.contains(((b as usize), (a as usize))) {
                        let kk = choose|kk: int|
                            0 <= kk < path@.len() && path@[kk] == ((b as usize), (a as usize));
                        assert(spath@[kk].1 == b as usize && spath@[kk].0 == a as usize);
                        assert(spath@[kk] == ((a as usize), (b as usize)));
                        assert(spath@.contains(((a as usize), (b as usize))));
                    }
                }
            }
            Ok(path)
        },
    }
}

} // verus!
