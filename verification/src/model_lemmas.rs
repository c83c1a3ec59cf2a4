use vstd::prelude::*;

use crate::model::{
    cell_closed, cell_open_count, count_true_to, m_all_closed, m_boundary, m_dims_ok, m_idx, m_nbr, m_open, m_path, m_reach,
    m_le, m_mark, m_marked, m_open_count, m_open_wall, m_step, m_symmetric, m_valid, m_wall,
    m_wf, open_count_to, opp, Dir, GCell, Model,
};

verus! {

/// A valid coordinate's flat index lies inside the cells sequence.
pub proof fn lemma_idx_bounds(m: Model, a: int, b: int)
    requires
        m_valid(m, a, b),
    ensures
        0 <= m_idx(m, a, b) < m.da * m.db,
{
    assert(b * m.da + a < m.da * m.db) by (nonlinear_arith)
        requires
            0 <= a < m.da,
            0 <= b < m.db,
    ;
    assert(b * m.da + a >= 0) by (nonlinear_arith)
        requires
            0 <= a,
            0 <= b,
            m.da >= 0,
    ;
}

/// Row-major indexing is injective over valid coordinates.
pub proof fn lemma_idx_inj(m: Model, a1: int, b1: int, a2: int, b2: int)
    requires
        m_valid(m, a1, b1),
        m_valid(m, a2, b2),
        m_idx(m, a1, b1) == m_idx(m, a2, b2),
    ensures
        a1 == a2,
        b1 == b2,
{
    assert(a1 == a2 && b1 == b2) by (nonlinear_arith)
        requires
            0 <= a1 < m.da,
            0 <= a2 < m.da,
            0 <= b1 < m.db,
            0 <= b2 < m.db,
            b1 * m.da + a1 == b2 * m.da + a2,
    ;
}

/// A non-boundary direction leads to a valid coordinate.
pub proof fn lemma_nbr_valid(m: Model, a: int, b: int, d: Dir)
    requires
        m_valid(m, a, b),
        !m_boundary(m, a, b, d),
    ensures
        m_valid(m, m_nbr(m, a, b, d).0, m_nbr(m, a, b, d).1),
{
}

/// Crossing a passage and crossing back returns to the same cell, and the
/// way back is never a boundary.
pub proof fn lemma_nbr_symm(m: Model, a: int, b: int, d: Dir)
    requires
        m_valid(m, a, b),
        !m_boundary(m, a, b, d),
    ensures
        !m_boundary(m, m_nbr(m, a, b, d).0, m_nbr(m, a, b, d).1, opp(d)),
        m_nbr(m, m_nbr(m, a, b, d).0, m_nbr(m, a, b, d).1, opp(d)) == (a, b),
{
}

/// On a well-formed grid a cell is never its own neighbor.
pub proof fn lemma_nbr_ne(m: Model, a: int, b: int, d: Dir)
    requires
        m_wf(m),
        m_valid(m, a, b),
        !m_boundary(m, a, b, d),
    ensures
        m_nbr(m, a, b, d) != (a, b),
{
}

/// Replacing one cell shifts the open-flag total by exactly the difference
/// at that cell.
pub proof fn lemma_open_count_update(cs: Seq<GCell>, i: int, c: GCell, n: int)
    requires
        0 <= i < cs.len(),
        n <= cs.len(),
    ensures
        open_count_to(cs.update(i, c), n) == open_count_to(cs, n) + (if i < n {
            cell_open_count(c) - cell_open_count(cs[i])
        } else {
            0
        }),
    decreases n,
{
    if n > 0 {
        lemma_open_count_update(cs, i, c, n - 1);
    }
}

/// Setting one entry of a boolean sequence shifts its `true` count by the
/// difference at that entry.
pub proof fn lemma_count_true_update(s: Seq<bool>, i: int, v: bool, n: int)
    requires
        0 <= i < s.len(),
        n <= s.len(),
    ensures
        count_true_to(s.update(i, v), n) == count_true_to(s, n) + (if i < n {
            (if v {
                1int
            } else {
                0int
            }) - (if s[i] {
                1int
            } else {
                0int
            })
        } else {
            0
        }),
    decreases n,
{
    if n > 0 {
        lemma_count_true_update(s, i, v, n - 1);
    }
}

/// The `true` count of a prefix never exceeds its length.
pub proof fn lemma_count_true_le(s: Seq<bool>, n: int)
    requires
        0 <= n <= s.len(),
    ensures
        count_true_to(s, n) <= n,
        count_true_to(s, n) >= 0,
    decreases n,
{
    if n > 0 {
        lemma_count_true_le(s, n - 1);
    }
}

/// What carving one passage does to the model: exactly the two facing
/// flags become open, every other flag and every mark stays put, the shape
/// is unchanged, and passages only grow.
pub proof fn lemma_open_wall_facts(m: Model, a: int, b: int, d: Dir)
    requires
        m_dims_ok(m),
        m_valid(m, a, b),
        !m_boundary(m, a, b, d),
    ensures
        m_open_wall(m, a, b, d).wrap_a == m.wrap_a,
        m_open_wall(m, a, b, d).da == m.da,
        m_open_wall(m, a, b, d).db == m.db,
        m_open_wall(m, a, b, d).cells.len() == m.cells.len(),
        forall|x: int, y: int, e: Dir|
            m_valid(m, x, y) ==> #[trigger] m_wall(m_open_wall(m, a, b, d), x, y, e) == (if (x == a
                && y == b && e == d) || ((x, y) == m_nbr(m, a, b, d) && e == opp(d)) {
                false
            } else {
                m_wall(m, x, y, e)
            }),
        forall|x: int, y: int|
            m_valid(m, x, y) ==> #[trigger] m_marked(m_open_wall(m, a, b, d), x, y) == m_marked(
                m,
                x,
                y,
            ),
        m_le(m, m_open_wall(m, a, b, d)),
{
    let m2 = m_open_wall(m, a, b, d);
    let (na, nb) = m_nbr(m, a, b, d);
    let i = m_idx(m, a, b);
    let j = m_idx(m, na, nb);
    lemma_idx_bounds(m, a, b);
    lemma_nbr_valid(m, a, b, d);
    lemma_idx_bounds(m, na, nb);
    assert forall|x: int, y: int, e: Dir| m_valid(m, x, y) implies #[trigger] m_wall(
        m2,
        x,
        y,
        e,
    ) == (if (x == a && y == b && e == d) || ((x, y) == m_nbr(m, a, b, d) && e == opp(d)) {
        false
    } else {
        m_wall(m, x, y, e)
    }) by {
        let k = m_idx(m, x, y);
        lemma_idx_bounds(m, x, y);
        if k == i {
            lemma_idx_inj(m, x, y, a, b);
        }
        if k == j {
            lemma_idx_inj(m, x, y, na, nb);
        }
    }
    assert forall|x: int, y: int| m_valid(m, x, y) implies #[trigger] m_marked(m2, x, y)
        == m_marked(m, x, y) by {
        let k = m_idx(m, x, y);
        lemma_idx_bounds(m, x, y);
        if k == i {
            lemma_idx_inj(m, x, y, a, b);
        }
        if k == j {
            lemma_idx_inj(m, x, y, na, nb);
        }
    }
}

/// Carving keeps wall symmetry: the two sides of the carved passage are
/// opened together, and no other flag moves.
pub proof fn lemma_open_wall_sym(m: Model, a: int, b: int, d: Dir)
    requires
        m_dims_ok(m),
        m_valid(m, a, b),
        !m_boundary(m, a, b, d),
        m_symmetric(m),
    ensures
        m_symmetric(m_open_wall(m, a, b, d)),
{
    let m2 = m_open_wall(m, a, b, d);
    let n = m_nbr(m, a, b, d);
    lemma_open_wall_facts(m, a, b, d);
    lemma_nbr_symm(m, a, b, d);
    assert forall|x: int, y: int, e: Dir|
        m_valid(m2, x, y) && !m_boundary(m2, x, y, e) implies #[trigger] m_wall(m2, x, y, e)
        == m_wall(m2, m_nbr(m2, x, y, e).0, m_nbr(m2, x, y, e).1, opp(e)) by {
        let w = m_nbr(m, x, y, e);
        lemma_nbr_valid(m, x, y, e);
        lemma_nbr_symm(m, x, y, e);
        assert(m_valid(m, x, y));
        assert(!m_boundary(m, x, y, e));
        assert(m_nbr(m2, x, y, e) == w);
        if x == a && y == b && e == d {
            assert(m_wall(m2, x, y, e) == false);
            assert(w == n && opp(e) == opp(d));
            assert(m_wall(m2, w.0, w.1, opp(e)) == false);
        } else if (x, y) == n && e == opp(d) {
            assert(m_wall(m2, x, y, e) == false);
            assert(w == (a, b) && opp(e) == d);
            assert(m_wall(m2, w.0, w.1, opp(e)) == false);
        } else {
            assert(m_wall(m2, x, y, e) == m_wall(m, x, y, e));
            // The mirror flag is not one of the two opened flags either.
            if w.0 == a && w.1 == b && opp(e) == d {
                assert((x, y) == m_nbr(m, a, b, d) && e == opp(d));
            }
            if w == n && opp(e) == opp(d) {
                assert(e == d);
                assert(m_nbr(m, x, y, d) == m_nbr(m, a, b, d));
                assert((x, y) == m_nbr(m, n.0, n.1, opp(d)));
                assert((x, y) == (a, b));
            }
            assert(m_wall(m2, w.0, w.1, opp(e)) == m_wall(m, w.0, w.1, opp(e)));
            assert(m_wall(m, x, y, e) == m_wall(m, w.0, w.1, opp(e)));
        }
    }
}

/// Carving a passage whose two facing flags were both closed opens exactly
/// two flags.
pub proof fn lemma_open_wall_count(m: Model, a: int, b: int, d: Dir)
    requires
        m_wf(m),
        m_valid(m, a, b),
        !m_boundary(m, a, b, d),
        m_wall(m, a, b, d),
        m_wall(m, m_nbr(m, a, b, d).0, m_nbr(m, a, b, d).1, opp(d)),
    ensures
        m_open_count(m_open_wall(m, a, b, d)) == m_open_count(m) + 2,
{
    let (na, nb) = m_nbr(m, a, b, d);
    let i = m_idx(m, a, b);
    let j = m_idx(m, na, nb);
    lemma_idx_bounds(m, a, b);
    lemma_nbr_valid(m, a, b, d);
    lemma_nbr_ne(m, a, b, d);
    lemma_idx_bounds(m, na, nb);
    if i == j {
        lemma_idx_inj(m, a, b, na, nb);
    }
    let c1 = crate::model::cell_set_wall(m.cells[i], d, false);
    let cs1 = m.cells.update(i, c1);
    lemma_open_count_update(m.cells, i, c1, m.cells.len() as int);
    assert(cell_open_count(c1) == cell_open_count(m.cells[i]) + 1);
    let c2 = crate::model::cell_set_wall(cs1[j], opp(d), false);
    lemma_open_count_update(cs1, j, c2, cs1.len() as int);
    assert(cs1[j] == m.cells[j]);
    assert(cell_open_count(c2) == cell_open_count(cs1[j]) + 1);
}

/// Marking a cell changes no wall flag and no other mark.
pub proof fn lemma_mark_facts(m: Model, a: int, b: int)
    requires
        m_dims_ok(m),
        m_valid(m, a, b),
    ensures
        m_mark(m, a, b).wrap_a == m.wrap_a,
        m_mark(m, a, b).da == m.da,
        m_mark(m, a, b).db == m.db,
        m_mark(m, a, b).cells.len() == m.cells.len(),
        forall|x: int, y: int, e: Dir|
            m_valid(m, x, y) ==> #[trigger] m_wall(m_mark(m, a, b), x, y, e) == m_wall(m, x, y, e),
        forall|x: int, y: int|
            m_valid(m, x, y) ==> #[trigger] m_marked(m_mark(m, a, b), x, y) == (m_marked(m, x, y)
                || (x == a && y == b)),
        m_le(m, m_mark(m, a, b)),
{
    let i = m_idx(m, a, b);
    lemma_idx_bounds(m, a, b);
    assert forall|x: int, y: int, e: Dir| m_valid(m, x, y) implies #[trigger] m_wall(
        m_mark(m, a, b),
        x,
        y,
        e,
    ) == m_wall(m, x, y, e) by {
        lemma_idx_bounds(m, x, y);
        if m_idx(m, x, y) == i {
            lemma_idx_inj(m, x, y, a, b);
        }
    }
    assert forall|x: int, y: int| m_valid(m, x, y) implies #[trigger] m_marked(m_mark(m, a, b), x, y)
        == (m_marked(m, x, y) || (x == a && y == b)) by {
        lemma_idx_bounds(m, x, y);
        if m_idx(m, x, y) == i {
            lemma_idx_inj(m, x, y, a, b);
        }
    }
}

/// `m_le` is reflexive and transitive.
pub proof fn lemma_le_refl(m: Model)
    ensures
        m_le(m, m),
{
}

pub proof fn lemma_le_trans(m1: Model, m2: Model, m3: Model)
    requires
        m_le(m1, m2),
        m_le(m2, m3),
    ensures
        m_le(m1, m3),
{
    assert forall|a: int, b: int, d: Dir|
        m_valid(m1, a, b) && #[trigger] m_open(m1, a, b, d) implies m_open(m3, a, b, d) by {
        assert(m_open(m2, a, b, d));
    }
}

/// A fully closed grid is symmetric, has no open flag, and counts zero.
pub proof fn lemma_all_closed_props(m: Model)
    requires
        m_dims_ok(m),
        m_all_closed(m),
    ensures
        m_symmetric(m),
        m_open_count(m) == 0,
        forall|x: int, y: int, e: Dir| m_valid(m, x, y) ==> !(#[trigger] m_open(m, x, y, e)),
        forall|x: int, y: int| m_valid(m, x, y) ==> !(#[trigger] m_marked(m, x, y)),
{
    assert forall|x: int, y: int, e: Dir| m_valid(m, x, y) implies !(#[trigger] m_open(
        m,
        x,
        y,
        e,
    )) by {
        lemma_idx_bounds(m, x, y);
        assert(m.cells[m_idx(m, x, y)] == cell_closed());
    }
    assert forall|x: int, y: int| m_valid(m, x, y) implies !(#[trigger] m_marked(m, x, y)) by {
        lemma_idx_bounds(m, x, y);
        assert(m.cells[m_idx(m, x, y)] == cell_closed());
    }
    assert forall|x: int, y: int, e: Dir|
        m_valid(m, x, y) && !m_boundary(m, x, y, e) implies #[trigger] m_wall(m, x, y, e) == m_wall(
        m,
        m_nbr(m, x, y, e).0,
        m_nbr(m, x, y, e).1,
        opp(e),
    ) by {
        lemma_idx_bounds(m, x, y);
        assert(m.cells[m_idx(m, x, y)] == cell_closed());
        lemma_nbr_valid(m, x, y, e);
        lemma_idx_bounds(m, m_nbr(m, x, y, e).0, m_nbr(m, x, y, e).1);
        assert(m.cells[m_idx(m, m_nbr(m, x, y, e).0, m_nbr(m, x, y, e).1)] == cell_closed());
    }
    lemma_all_closed_count_to(m.cells, m.cells.len() as int);
}

proof fn lemma_all_closed_count_to(cs: Seq<GCell>, n: int)
    requires
        n <= cs.len(),
        forall|i: int| 0 <= i < cs.len() ==> #[trigger] cs[i] == cell_closed(),
    ensures
        open_count_to(cs, n) == 0,
    decreases n,
{
    if n > 0 {
        lemma_all_closed_count_to(cs, n - 1);
    }
}

/// A prefix with no `true` entry counts zero; a prefix of only `true`
/// entries counts its length.
pub proof fn lemma_count_true_zero(s: Seq<bool>, n: int)
    requires
        0 <= n <= s.len(),
        forall|i: int| 0 <= i < n ==> !s[i],
    ensures
        count_true_to(s, n) == 0,
    decreases n,
{
    if n > 0 {
        lemma_count_true_zero(s, n - 1);
    }
}

pub proof fn lemma_count_true_all(s: Seq<bool>, n: int)
    requires
        0 <= n <= s.len(),
        forall|i: int| 0 <= i < n ==> s[i],
    ensures
        count_true_to(s, n) == n,
    decreases n,
{
    if n > 0 {
        lemma_count_true_all(s, n - 1);
    }
}

/// Reachability is reflexive at any valid cell.
pub proof fn lemma_reach_refl(m: Model, c: (int, int))
    requires
        m_valid(m, c.0, c.1),
    ensures
        m_reach(m, c, c),
{
    let p = seq![c];
    assert(m_path(m, p) && p.first() == c && p.last() == c);
}

/// Reachability extends along one open step.
pub proof fn lemma_reach_step(m: Model, c: (int, int), e: (int, int), f: (int, int))
    requires
        m_reach(m, c, e),
        m_step(m, e, f),
        m_valid(m, f.0, f.1),
    ensures
        m_reach(m, c, f),
{
    let p = choose|p: Seq<(int, int)>| #[trigger] m_path(m, p) && p.first() == c && p.last() == e;
    let q = p.push(f);
    assert forall|i: int| 0 <= i < q.len() - 1 implies m_step(m, #[trigger] q[i], q[i + 1]) by {
        if i < p.len() - 1 {
            assert(m_step(m, p[i], p[i + 1]));
        } else {
            assert(q[i] == e && q[i + 1] == f);
        }
    }
    assert(m_path(m, q) && q.first() == c && q.last() == f);
}

/// Opening passages never destroys reachability.
pub proof fn lemma_reach_mono(m1: Model, m2: Model, c: (int, int), e: (int, int))
    requires
        m_le(m1, m2),
        m_reach(m1, c, e),
    ensures
        m_reach(m2, c, e),
{
    let p = choose|p: Seq<(int, int)>| #[trigger] m_path(m1, p) && p.first() == c && p.last() == e;
    assert forall|i: int| 0 <= i < p.len() - 1 implies m_step(m2, #[trigger] p[i], p[i + 1]) by {
        assert(m_step(m1, p[i], p[i + 1]));
        let d = choose|d: Dir|
            m_valid(m1, p[i].0, p[i].1) && !m_boundary(m1, p[i].0, p[i].1, d) && #[trigger] m_nbr(
                m1,
                p[i].0,
                p[i].1,
                d,
            ) == p[i + 1] && m_open(m1, p[i].0, p[i].1, d);
        assert(m_open(m2, p[i].0, p[i].1, d));
        assert(m_nbr(m2, p[i].0, p[i].1, d) == p[i + 1]);
    }
    assert(m_path(m2, p) && p.first() == c && p.last() == e);
}

/// Any cell reached from inside a set that is closed under open steps lies
/// in the set. The set is given as one flag per flat cell index.
pub proof fn lemma_reach_in_closed(m: Model, vis: Seq<bool>, c: (int, int), e: (int, int))
    requires
        m_dims_ok(m),
        vis.len() == m.cells.len(),
        forall|a: int, b: int, d: Dir|
            m_valid(m, a, b) && vis[m_idx(m, a, b)] && !m_boundary(m, a, b, d) && #[trigger] m_open(
                m,
                a,
                b,
                d,
            ) ==> vis[m_idx(m, m_nbr(m, a, b, d).0, m_nbr(m, a, b, d).1)],
        m_valid(m, c.0, c.1),
        vis[m_idx(m, c.0, c.1)],
        m_reach(m, c, e),
    ensures
        m_valid(m, e.0, e.1),
        vis[m_idx(m, e.0, e.1)],
{
    let p = choose|p: Seq<(int, int)>| #[trigger] m_path(m, p) && p.first() == c && p.last() == e;
    lemma_path_in_closed(m, vis, p, p.len() as int - 1);
}

proof fn lemma_path_in_closed(m: Model, vis: Seq<bool>, p: Seq<(int, int)>, k: int)
    requires
        m_dims_ok(m),
        vis.len() == m.cells.len(),
        forall|a: int, b: int, d: Dir|
            m_valid(m, a, b) && vis[m_idx(m, a, b)] && !m_boundary(m, a, b, d) && #[trigger] m_open(
                m,
                a,
                b,
                d,
            ) ==> vis[m_idx(m, m_nbr(m, a, b, d).0, m_nbr(m, a, b, d).1)],
        m_path(m, p),
        vis[m_idx(m, p.first().0, p.first().1)],
        0 <= k < p.len(),
    ensures
        vis[m_idx(m, p[k].0, p[k].1)],
    decreases k,
{
    if k > 0 {
        lemma_path_in_closed(m, vis, p, k - 1);
        assert(m_step(m, p[k - 1], p[k]));
        let d = choose|d: Dir|
            m_valid(m, p[k - 1].0, p[k - 1].1) && !m_boundary(m, p[k - 1].0, p[k - 1].1, d)
                && #[trigger] m_nbr(m, p[k - 1].0, p[k - 1].1, d) == p[k] && m_open(
                m,
                p[k - 1].0,
                p[k - 1].1,
                d,
            );
        assert(vis[m_idx(m, p[k].0, p[k].1)]);
    }
}

/// A set of cells that contains the origin and is closed under plain
/// adjacency (walls disregarded) covers the whole grid.
pub proof fn lemma_adj_closed_full(m: Model, vis: Seq<bool>)
    requires
        m_wf(m),
        vis.len() == m.cells.len(),
        vis[m_idx(m, 0, 0)],
        forall|a: int, b: int, d: Dir|
            m_valid(m, a, b) && vis[m_idx(m, a, b)] && !(#[trigger] m_boundary(m, a, b, d))
                ==> vis[m_idx(m, m_nbr(m, a, b, d).0, m_nbr(m, a, b, d).1)],
    ensures
        forall|a: int, b: int| m_valid(m, a, b) ==> vis[#[trigger] m_idx(m, a, b)],
{
    assert forall|a: int, b: int| m_valid(m, a, b) implies vis[#[trigger] m_idx(m, a, b)] by {
        lemma_adj_closed_cell(m, vis, a, b);
    }
}

proof fn lemma_adj_closed_row0(m: Model, vis: Seq<bool>, a: int)
    requires
        m_wf(m),
        vis.len() == m.cells.len(),
        vis[m_idx(m, 0, 0)],
        forall|a2: int, b2: int, d: Dir|
            m_valid(m, a2, b2) && vis[m_idx(m, a2, b2)] && !(#[trigger] m_boundary(m, a2, b2, d))
                ==> vis[m_idx(m, m_nbr(m, a2, b2, d).0, m_nbr(m, a2, b2, d).1)],
        0 <= a < m.da,
    ensures
        vis[m_idx(m, a, 0)],
    decreases a,
{
    if a > 0 {
        lemma_adj_closed_row0(m, vis, a - 1);
        assert(!m_boundary(m, a - 1, 0, Dir::IncA));
        assert(m_nbr(m, a - 1, 0, Dir::IncA) == (a, 0int));
    }
}

proof fn lemma_adj_closed_cell(m: Model, vis: Seq<bool>, a: int, b: int)
    requires
        m_wf(m),
        vis.len() == m.cells.len(),
        vis[m_idx(m, 0, 0)],
        forall|a2: int, b2: int, d: Dir|
            m_valid(m, a2, b2) && vis[m_idx(m, a2, b2)] && !(#[trigger] m_boundary(m, a2, b2, d))
                ==> vis[m_idx(m, m_nbr(m, a2, b2, d).0, m_nbr(m, a2, b2, d).1)],
        m_valid(m, a, b),
    ensures
        vis[m_idx(m, a, b)],
    decreases b,
{
    if b == 0 {
        lemma_adj_closed_row0(m, vis, a);
    } else {
        lemma_adj_closed_cell(m, vis, a, b - 1);
        assert(!m_boundary(m, a, b - 1, Dir::IncB));
        assert(m_nbr(m, a, b - 1, Dir::IncB) == (a, b));
    }
}

} // verus!
