use vstd::prelude::*;

use crate::model::{
    m_boundary, m_dims_ok, m_idx, m_mark, m_nbr, m_open, m_open_wall, m_valid, m_wall, Dir, GCell,
    Model,
};
use crate::model_lemmas::lemma_idx_bounds;

verus! {

/// The unified executable grid the carving and solving engine runs on.
/// Each topology module converts its own cell storage into a `Grid`, lets
/// the engine work, and converts back.
pub struct Grid {
    pub wrap_a: bool,
    pub da: usize,
    pub db: usize,
    pub cells: Vec<GCell>,
}

impl View for Grid {
    type V = Model;

    open spec fn view(&self) -> Model {
        Model {
            wrap_a: self.wrap_a,
            da: self.da as nat,
            db: self.db as nat,
            cells: self.cells@,
        }
    }
}

impl Grid {
    /// Flat index of a valid coordinate.
    pub fn idx(&self, a: usize, b: usize) -> (i: usize)
        requires
            m_dims_ok(self@),
            m_valid(self@, a as int, b as int),
        ensures
            i as int == m_idx(self@, a as int, b as int),
            i < self.cells.len(),
    {
        let n = self.cells.len();
        proof {
            lemma_idx_bounds(self@, a as int, b as int);
            assert(self@.da * self@.db == n as int);
        }
        b * self.da + a
    }

    pub fn is_boundary(&self, a: usize, b: usize, d: Dir) -> (r: bool)
        requires
            m_valid(self@, a as int, b as int),
        ensures
            r == m_boundary(self@, a as int, b as int, d),
    {
        match d {
            Dir::DecA => !self.wrap_a && a == 0,
            Dir::IncA => !self.wrap_a && a == self.da - 1,
            Dir::DecB => b == 0,
            Dir::IncB => b == self.db - 1,
        }
    }

    pub fn neighbor(&self, a: usize, b: usize, d: Dir) -> (r: (usize, usize))
        requires
            m_valid(self@, a as int, b as int),
            !m_boundary(self@, a as int, b as int, d),
        ensures
            (r.0 as int, r.1 as int) == m_nbr(self@, a as int, b as int, d),
            m_valid(self@, r.0 as int, r.1 as int),
    {
        match d {
            Dir::DecA => (
                if a == 0 {
                    self.da - 1
                } else {
                    a - 1
                },
                b,
            ),
            Dir::IncA => (
                if a == self.da - 1 {
                    0
                } else {
                    a + 1
                },
                b,
            ),
            Dir::DecB => (a, b - 1),
            Dir::IncB => (a, b + 1),
        }
    }

    pub fn is_open(&self, a: usize, b: usize, d: Dir) -> (r: bool)
        requires
            m_dims_ok(self@),
            m_valid(self@, a as int, b as int),
        ensures
            r == m_open(self@, a as int, b as int, d),
    {
        let i = self.idx(a, b);
        let c = self.cells[i];
        match d {
            Dir::DecA => !c.wall_dec_a,
            Dir::IncA => !c.wall_inc_a,
            Dir::DecB => !c.wall_dec_b,
            Dir::IncB => !c.wall_inc_b,
        }
    }

    /// Remove the wall between `(a, b)` and its neighbor toward `d`, on
    /// both sides at once.
    pub fn open_wall(&mut self, a: usize, b: usize, d: Dir)
        requires
            m_dims_ok(old(self)@),
            m_valid(old(self)@, a as int, b as int),
            !m_boundary(old(self)@, a as int, b as int, d),
        ensures
            final(self)@ == m_open_wall(old(self)@, a as int, b as int, d),
    {
        self.set_one(a, b, d, false);
        proof {
            lemma_idx_bounds(old(self)@, a as int, b as int);
            assert(self@.cells.len() == old(self)@.cells.len());
            assert(m_dims_ok(self@));
        }
        let (na, nb) = self.neighbor(a, b, d);
        let e = match d {
            Dir::DecA => Dir::IncA,
            Dir::IncA => Dir::DecA,
            Dir::DecB => Dir::IncB,
            Dir::IncB => Dir::DecB,
        };
        self.set_one(na, nb, e, false);
    }

    /// Set one wall flag on one side only.
    fn set_one(&mut self, a: usize, b: usize, d: Dir, v: bool)
        requires
            m_dims_ok(old(self)@),
            m_valid(old(self)@, a as int, b as int),
        ensures
            final(self)@ == crate::model::m_set_wall(old(self)@, a as int, b as int, d, v),
            final(self).wrap_a == old(self).wrap_a,
            final(self).da == old(self).da,
            final(self).db == old(self).db,
    {
        let i = self.idx(a, b);
        let mut c = self.cells[i];
        match d {
            Dir::DecA => c.wall_dec_a = v,
            Dir::IncA => c.wall_inc_a = v,
            Dir::DecB => c.wall_dec_b = v,
            Dir::IncB => c.wall_inc_b = v,
        }
        self.cells.set(i, c);
    }

    /// Set the solution mark on `(a, b)`.
    pub fn mark(&mut self, a: usize, b: usize)
        requires
            m_dims_ok(old(self)@),
            m_valid(old(self)@, a as int, b as int),
        ensures
            final(self)@ == m_mark(old(self)@, a as int, b as int),
    {
        let i = self.idx(a, b);
        let mut c = self.cells[i];
        c.marked = true;
        self.cells.set(i, c);
    }
}

} // verus!
