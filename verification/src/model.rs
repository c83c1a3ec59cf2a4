use vstd::prelude::*;

verus! {

/// A local direction on the unified grid.
///
/// Every topology in this crate is a rectangle of cells indexed by two axes.
/// Axis A is the column axis (the spoke axis of the radial topology, where it
/// wraps around); axis B is the row axis (the ring axis of the radial
/// topology), which never wraps.
#[derive(Clone, Copy, Debug, PartialEq, Eq, Structural)]
pub enum Dir {
    /// Toward smaller A coordinates (left on a rectangle).
    DecA,
    /// Toward larger A coordinates (right on a rectangle).
    IncA,
    /// Toward smaller B coordinates (up on a rectangle, outward on a ring).
    DecB,
    /// Toward larger B coordinates (down on a rectangle, inward on a ring).
    IncB,
}

/// One cell's wall flags and solution mark. A `true` wall flag means the
/// wall is present (closed); `false` means the passage is open.
#[derive(Clone, Copy, Debug, PartialEq, Eq, Structural)]
pub struct GCell {
    pub wall_dec_a: bool,
    pub wall_inc_a: bool,
    pub wall_dec_b: bool,
    pub wall_inc_b: bool,
    pub marked: bool,
}

/// The mathematical model of a grid: its shape and the flat sequence of
/// cells, stored row-major (index `b * da + a`).
#[verifier::ext_equal]
pub ghost struct Model {
    /// Whether axis A wraps around (true for the radial topology).
    pub wrap_a: bool,
    /// Number of cells along axis A (width, or spoke count).
    pub da: nat,
    /// Number of cells along axis B (height, or ring count).
    pub db: nat,
    pub cells: Seq<GCell>,
}

pub open spec fn opp(d: Dir) -> Dir {
    match d {
        Dir::DecA => Dir::IncA,
        Dir::IncA => Dir::DecA,
        Dir::DecB => Dir::IncB,
        Dir::IncB => Dir::DecB,
    }
}

pub open spec fn cell_wall(c: GCell, d: Dir) -> bool {
    match d {
        Dir::DecA => c.wall_dec_a,
        Dir::IncA => c.wall_inc_a,
        Dir::DecB => c.wall_dec_b,
        Dir::IncB => c.wall_inc_b,
    }
}

/// The cell `c` with the wall toward `d` set to `v` (true: wall present).
pub open spec fn cell_set_wall(c: GCell, d: Dir, v: bool) -> GCell {
    match d {
        Dir::DecA => (GCell { wall_dec_a: v, ..c }),
        Dir::IncA => (GCell { wall_inc_a: v, ..c }),
        Dir::DecB => (GCell { wall_dec_b: v, ..c }),
        Dir::IncB => (GCell { wall_inc_b: v, ..c }),
    }
}

/// The cell `c` with its solution mark set.
pub open spec fn cell_marked(c: GCell) -> GCell {
    GCell { marked: true, ..c }
}

/// A fresh cell: every wall present, no solution mark.
pub open spec fn cell_closed() -> GCell {
    GCell {
        wall_dec_a: true,
        wall_inc_a: true,
        wall_dec_b: true,
        wall_inc_b: true,
        marked: false,
    }
}

/// The cells sequence has exactly one cell per coordinate.
pub open spec fn m_dims_ok(m: Model) -> bool {
    m.cells.len() == m.da * m.db
}

/// Shape fit for traversal: nonempty, and a wrapping axis has at least two
/// cells, so that a neighbor is never the cell itself.
pub open spec fn m_wf(m: Model) -> bool {
    &&& m_dims_ok(m)
    &&& m.da >= 1
    &&& m.db >= 1
    &&& (m.wrap_a ==> m.da >= 2)
}

pub open spec fn m_valid(m: Model, a: int, b: int) -> bool {
    0 <= a < m.da && 0 <= b < m.db
}

pub open spec fn m_idx(m: Model, a: int, b: int) -> int {
    b * m.da + a
}

/// Whether `d` exits the addressable space from `(a, b)`: the two ends of
/// axis B are always boundaries, the ends of axis A only when it does not
/// wrap.
pub open spec fn m_boundary(m: Model, a: int, b: int, d: Dir) -> bool {
    match d {
        Dir::DecA => !m.wrap_a && a == 0,
        Dir::IncA => !m.wrap_a && a == m.da - 1,
        Dir::DecB => b == 0,
        Dir::IncB => b == m.db - 1,
    }
}

/// The neighbor of `(a, b)` via `d`, with wraparound on axis A. Only
/// meaningful when `d` is not a boundary direction at `(a, b)`.
pub open spec fn m_nbr(m: Model, a: int, b: int, d: Dir) -> (int, int) {
    match d {
        Dir::DecA => (if a == 0 { m.da - 1 } else { a - 1 }, b),
        Dir::IncA => (if a == m.da - 1 { 0 } else { a + 1 }, b),
        Dir::DecB => (a, b - 1),
        Dir::IncB => (a, b + 1),
    }
}

pub open spec fn m_wall(m: Model, a: int, b: int, d: Dir) -> bool {
    cell_wall(m.cells[m_idx(m, a, b)], d)
}

pub open spec fn m_open(m: Model, a: int, b: int, d: Dir) -> bool {
    !m_wall(m, a, b, d)
}

pub open spec fn m_marked(m: Model, a: int, b: int) -> bool {
    m.cells[m_idx(m, a, b)].marked
}

/// Wall symmetry: whenever two cells are adjacent via `d`, the flag on one
/// side agrees with the flag on the mirror side.
pub open spec fn m_symmetric(m: Model) -> bool {
    forall|a: int, b: int, d: Dir|
        m_valid(m, a, b) && !m_boundary(m, a, b, d) ==> #[trigger] m_wall(m, a, b, d) == m_wall(
            m,
            m_nbr(m, a, b, d).0,
            m_nbr(m, a, b, d).1,
            opp(d),
        )
}

/// Every wall present and no cell marked.
pub open spec fn m_all_closed(m: Model) -> bool {
    forall|i: int| 0 <= i < m.cells.len() ==> #[trigger] m.cells[i] == cell_closed()
}

/// Two models with the same shape where every passage open in `m1` is open
/// in `m2`.
pub open spec fn m_le(m1: Model, m2: Model) -> bool {
    &&& m1.wrap_a == m2.wrap_a
    &&& m1.da == m2.da
    &&& m1.db == m2.db
    &&& m1.cells.len() == m2.cells.len()
    &&& forall|a: int, b: int, d: Dir|
        m_valid(m1, a, b) && #[trigger] m_open(m1, a, b, d) ==> m_open(m2, a, b, d)
}

/// One move through an open passage: `e` is the neighbor of `c` in some
/// non-boundary direction whose wall is open on `c`'s side.
pub open spec fn m_step(m: Model, c: (int, int), e: (int, int)) -> bool {
    exists|d: Dir|
        m_valid(m, c.0, c.1) && !m_boundary(m, c.0, c.1, d) && #[trigger] m_nbr(m, c.0, c.1, d)
            == e && m_open(m, c.0, c.1, d)
}

/// A walk through open passages: nonempty, every entry a valid coordinate,
/// each consecutive pair one open step apart.
pub open spec fn m_path(m: Model, p: Seq<(int, int)>) -> bool {
    &&& p.len() >= 1
    &&& forall|i: int| 0 <= i < p.len() ==> m_valid(m, #[trigger] p[i].0, p[i].1)
    &&& forall|i: int| 0 <= i < p.len() - 1 ==> m_step(m, #[trigger] p[i], p[i + 1])
}

/// `e` can be reached from `c` through open passages only.
pub open spec fn m_reach(m: Model, c: (int, int), e: (int, int)) -> bool {
    exists|p: Seq<(int, int)>| #[trigger] m_path(m, p) && p.first() == c && p.last() == e
}

/// The model with the cell at flat index `i` replaced.
pub open spec fn m_with_cell(m: Model, i: int, c: GCell) -> Model {
    Model { cells: m.cells.update(i, c), ..m }
}

/// The model after setting one wall flag on one side only (the raw
/// single-cell mutation; it does not keep wall symmetry by itself).
pub open spec fn m_set_wall(m: Model, a: int, b: int, d: Dir, v: bool) -> Model {
    m_with_cell(m, m_idx(m, a, b), cell_set_wall(m.cells[m_idx(m, a, b)], d, v))
}

/// The model after carving the passage from `(a, b)` toward `d`: the wall
/// is removed on both sides, which is what keeps wall symmetry.
pub open spec fn m_open_wall(m: Model, a: int, b: int, d: Dir) -> Model {
    let m1 = m_set_wall(m, a, b, d, false);
    m_set_wall(m1, m_nbr(m, a, b, d).0, m_nbr(m, a, b, d).1, opp(d), false)
}

/// The model after marking `(a, b)` as part of the solution.
pub open spec fn m_mark(m: Model, a: int, b: int) -> Model {
    m_with_cell(m, m_idx(m, a, b), cell_marked(m.cells[m_idx(m, a, b)]))
}

/// Number of open wall flags on one cell.
pub open spec fn cell_open_count(c: GCell) -> int {
    (if c.wall_dec_a {
        0int
    } else {
        1int
    }) + (if c.wall_inc_a {
        0int
    } else {
        1int
    }) + (if c.wall_dec_b {
        0int
    } else {
        1int
    }) + (if c.wall_inc_b {
        0int
    } else {
        1int
    })
}

/// Sum of open wall flags over the first `n` cells.
pub open spec fn open_count_to(cs: Seq<GCell>, n: int) -> int
    decreases n,
{
    if n <= 0 {
        0
    } else {
        open_count_to(cs, n - 1) + cell_open_count(cs[n - 1])
    }
}

/// Total open wall flags of the grid. Since the generator opens each
/// passage on both of its sides, a maze carved from a fully closed grid has
/// twice as many open flags as passages.
pub open spec fn m_open_count(m: Model) -> int {
    open_count_to(m.cells, m.cells.len() as int)
}

/// Number of `true` entries among the first `n`.
pub open spec fn count_true_to(s: Seq<bool>, n: int) -> int
    decreases n,
{
    if n <= 0 {
        0
    } else {
        count_true_to(s, n - 1) + (if s[n - 1] {
            1int
        } else {
            0int
        })
    }
}

pub open spec fn count_true(s: Seq<bool>) -> int {
    count_true_to(s, s.len() as int)
}

} // verus!
