use vstd::prelude::*;

use crate::model::{cell_closed, Dir, GCell};

verus! {

/// A local direction on the rectangular grid.
#[derive(Clone, Copy)]
pub enum Direction {
    Up,
    Down,
    Left,
    Right,
}

/// One cell of the rectangular maze: a wall flag per direction (`true`
/// means the wall is present) and the solution mark.
#[derive(Clone, Copy, Debug)]
pub struct Cell {
    pub up: bool,
    pub down: bool,
    pub left: bool,
    pub right: bool,
    pub in_solution: bool,
}

/// The model's direction behind each local direction: `Up` decreases the
/// row axis, `Left` decreases the column axis, and nothing wraps.
pub open spec fn core_dir(d: Direction) -> Dir {
    match d {
        Direction::Up => Dir::DecB,
        Direction::Down => Dir::IncB,
        Direction::Left => Dir::DecA,
        Direction::Right => Dir::IncA,
    }
}

/// The wall flag of `c` toward `d`.
pub open spec fn cell_flag(c: Cell, d: Direction) -> bool {
    match d {
        Direction::Up => c.up,
        Direction::Down => c.down,
        Direction::Left => c.left,
        Direction::Right => c.right,
    }
}

/// One cell as the model sees it.
pub open spec fn gcell_of(c: Cell) -> GCell {
    GCell {
        wall_dec_a: c.left,
        wall_inc_a: c.right,
        wall_dec_b: c.up,
        wall_inc_b: c.down,
        marked: c.in_solution,
    }
}

/// The whole cell storage as the model sees it.
pub open spec fn gcells_of(s: Seq<Cell>) -> Seq<GCell> {
    s.map_values(|c: Cell| gcell_of(c))
}

/// Replacing one cell replaces one model cell.
pub proof fn lemma_gcells_update(s: Seq<Cell>, i: int, c: Cell)
    requires
        0 <= i < s.len(),
    ensures
        gcells_of(s.update(i, c)) =~= gcells_of(s).update(i, gcell_of(c)),
{
}

impl Cell {
    /// A fresh cell: fully walled, unmarked.
    pub fn new() -> (c: Cell)
        ensures
            gcell_of(c) == cell_closed(),
    {
        Cell { up: true, down: true, left: true, right: true, in_solution: false }
    }

    /// Restore the fresh state.
    pub fn reset(&mut self)
        ensures
            gcell_of(*final(self)) == cell_closed(),
    {
        self.up = true;
        self.down = true;
        self.left = true;
        self.right = true;
        self.in_solution = false;
    }

    /// Remove this cell's wall toward `dir`; the other flags and the mark
    /// stay put.
    pub fn open(&mut self, dir: Direction)
        ensures
            forall|e: Direction|
                cell_flag(*final(self), e) == if e == dir {
                    false
                } else {
                    cell_flag(*old(self), e)
                },
            final(self).in_solution == old(self).in_solution,
    {
        match dir {
            Direction::Up => self.up = false,
            Direction::Down => self.down = false,
            Direction::Left => self.left = false,
            Direction::Right => self.right = false,
        }
    }

    pub fn is_open_at_dir(&self, dir: Direction) -> (r: bool)
        ensures
            r == !cell_flag(*self, dir),
    {
        match dir {
            Direction::Up => !self.up,
            Direction::Down => !self.down,
            Direction::Left => !self.left,
            Direction::Right => !self.right,
        }
    }

    pub fn has_wall_at_dir(&self, dir: Direction) -> (r: bool)
        ensures
            r == cell_flag(*self, dir),
    {
        !self.is_open_at_dir(dir)
    }

    /// Mark this cell as part of the solution path.
    pub fn add_to_solution(&mut self)
        ensures
            *final(self) == (Cell { in_solution: true, ..*old(self) }),
            final(self).in_solution,
            forall|e: Direction| cell_flag(*final(self), e) == cell_flag(*old(self), e),
    {
        self.in_solution = true;
    }
}

} // verus!
