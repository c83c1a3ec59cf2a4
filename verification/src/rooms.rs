use vstd::prelude::*;

use crate::grid::Grid;
use crate::model::{
    m_boundary, m_le, m_marked, m_nbr, m_open, m_open_wall, m_symmetric, m_valid, m_wall, m_wf,
    Dir, Model,
};
use crate::model_lemmas::{
    lemma_le_refl, lemma_le_trans, lemma_nbr_valid, lemma_open_wall_facts, lemma_open_wall_sym,
};

verus! {

/// Whether `(x, y)` lies inside the rectangle at `(rx, ry)` of size
/// `rw * rh`.
pub open spec fn in_rect(rx: int, ry: int, rw: int, rh: int, x: int, y: int) -> bool {
    rx <= x < rx + rw && ry <= y < ry + rh
}

/// The wall flags a room removes: every wall between two cells of the
/// rectangle, on both of its sides.
pub open spec fn room_opens(rx: int, ry: int, rw: int, rh: int, x: int, y: int, e: Dir) -> bool {
    in_rect(rx, ry, rw, rh, x, y) && match e {
        Dir::IncB => in_rect(rx, ry, rw, rh, x, y + 1),
        Dir::DecB => in_rect(rx, ry, rw, rh, x, y - 1),
        Dir::IncA => in_rect(rx, ry, rw, rh, x + 1, y),
        Dir::DecA => in_rect(rx, ry, rw, rh, x - 1, y),
    }
}

/// The cell whose turn in the carving sweep removes the flag `(x, y, e)`:
/// the flag's own cell for the increasing directions, the neighbor whose
/// increasing flag mirrors it otherwise.
pub open spec fn room_owner(x: int, y: int, e: Dir) -> (int, int) {
    match e {
        Dir::IncB => (x, y),
        Dir::IncA => (x, y),
        Dir::DecB => (x, y - 1),
        Dir::DecA => (x - 1, y),
    }
}

/// Whether the sweep over the rectangle, columns outermost, has already
/// handled cell `(px, py)` when it stands at `(cx, cy)`.
pub open spec fn sweep_done(px: int, py: int, cx: int, cy: int) -> bool {
    px < cx || (px == cx && py < cy)
}

/// The sweep's invariant: flags a room does not touch are unchanged, and
/// the flags owned by handled cells are open.
pub open spec fn room_inv(
    m0: Model,
    m: Model,
    rx: int,
    ry: int,
    rw: int,
    rh: int,
    cx: int,
    cy: int,
) -> bool {
    &&& m.wrap_a == m0.wrap_a
    &&& m.da == m0.da
    &&& m.db == m0.db
    &&& m.cells.len() == m0.cells.len()
    &&& m_wf(m)
    &&& m_le(m0, m)
    &&& forall|x: int, y: int|
        m_valid(m0, x, y) ==> #[trigger] m_marked(m, x, y) == m_marked(m0, x, y)
    &&& (m_symmetric(m0) ==> m_symmetric(m))
    &&& forall|x: int, y: int, e: Dir|
        m_valid(m0, x, y) && !room_opens(rx, ry, rw, rh, x, y, e) ==> #[trigger] m_wall(m, x, y, e)
            == m_wall(m0, x, y, e)
    &&& forall|x: int, y: int, e: Dir|
        m_valid(m0, x, y) && room_opens(rx, ry, rw, rh, x, y, e) && sweep_done(
            room_owner(x, y, e).0,
            room_owner(x, y, e).1,
            cx,
            cy,
        ) ==> #[trigger] m_open(m, x, y, e)
}

/// Open one passage of the room during the sweep at cell `(cx, cy)`.
#[verifier::rlimit(50)]
fn room_open_one(g: &mut Grid, cx: usize, cy: usize, e: Dir, Ghost(m0): Ghost<Model>, rx: usize, ry: usize, rw: usize, rh: usize)
    requires
        m_wf(old(g)@),
        old(g)@.wrap_a == false,
        m_valid(old(g)@, cx as int, cy as int),
        rx + rw <= old(g)@.da,
        ry + rh <= old(g)@.db,
        room_opens(rx as int, ry as int, rw as int, rh as int, cx as int, cy as int, e),
        (e == Dir::IncB || e == Dir::IncA),
        m0.wrap_a == old(g)@.wrap_a,
        m0.da == old(g)@.da,
        m0.db == old(g)@.db,
        m0.cells.len() == old(g)@.cells.len(),
    ensures
        final(g)@ == m_open_wall(old(g)@, cx as int, cy as int, e),
        m_wf(final(g)@),
        final(g)@.wrap_a == old(g)@.wrap_a,
        final(g)@.da == old(g)@.da,
        final(g)@.db == old(g)@.db,
        final(g)@.cells.len() == old(g)@.cells.len(),
        m_le(old(g)@, final(g)@),
        forall|x: int, y: int|
            m_valid(m0, x, y) ==> #[trigger] m_marked(final(g)@, x, y) == m_marked(old(g)@, x, y),
        m_symmetric(old(g)@) ==> m_symmetric(final(g)@),
        // Exactly two flags change, both inside the room's flag set.
        forall|x: int, y: int, e2: Dir|
            m_valid(m0, x, y) && !room_opens(
                rx as int,
                ry as int,
                rw as int,
                rh as int,
                x,
                y,
                e2,
            ) ==> #[trigger] m_wall(final(g)@, x, y, e2) == m_wall(old(g)@, x, y, e2),
        m_open(final(g)@, cx as int, cy as int, e),
        m_open(
            final(g)@,
            m_nbr(old(g)@, cx as int, cy as int, e).0,
            m_nbr(old(g)@, cx as int, cy as int, e).1,
            crate::model::opp(e),
        ),
    {
    proof {
        assert(!m_boundary(g@, cx as int, cy as int, e));
        lemma_open_wall_facts(g@, cx as int, cy as int, e);
        if m_symmetric(g@) {
            lemma_open_wall_sym(g@, cx as int, cy as int, e);
        }
        lemma_nbr_valid(g@, cx as int, cy as int, e);
        // The mirror flag also belongs to the room's flag set.
        let n = m_nbr(g@, cx as int, cy as int, e);
        assert(room_opens(rx as int, ry as int, rw as int, rh as int, n.0, n.1, crate::model::opp(e)));
    }
    g.open_wall(cx, cy, e);
}

/// Open every wall between two cells of the rectangle at `(rx, ry)` of
/// size `rw * rh`, on both sides — the room of the dungeon topology.
/// Nothing else changes: flags outside the room's wall set, all marks and
/// the shape stay put, and wall symmetry survives.
#[verifier::rlimit(100)]
pub fn carve_room(g: &mut Grid, rx: usize, ry: usize, rw: usize, rh: usize)
    requires
        m_wf(old(g)@),
        old(g)@.wrap_a == false,
        rx + rw <= old(g)@.da,
        ry + rh <= old(g)@.db,
    ensures
        m_wf(final(g)@),
        final(g)@.wrap_a == old(g)@.wrap_a,
        final(g)@.da == old(g)@.da,
        final(g)@.db == old(g)@.db,
        final(g)@.cells.len() == old(g)@.cells.len(),
        m_le(old(g)@, final(g)@),
        forall|x: int, y: int|
            m_valid(old(g)@, x, y) ==> #[trigger] m_marked(final(g)@, x, y) == m_marked(
                old(g)@,
                x,
                y,
            ),
        m_symmetric(old(g)@) ==> m_symmetric(final(g)@),
        forall|x: int, y: int, e: Dir|
            m_valid(old(g)@, x, y) ==> #[trigger] m_wall(final(g)@, x, y, e) == (m_wall(
                old(g)@,
                x,
                y,
                e,
            ) && !room_opens(rx as int, ry as int, rw as int, rh as int, x, y, e)),
        forall|x: int, y: int, e: Dir|
            m_valid(old(g)@, x, y) && m_boundary(old(g)@, x, y, e) ==> #[trigger] m_wall(
                final(g)@,
                x,
                y,
                e,
            ) == m_wall(old(g)@, x, y, e),
{
    let ghost m0 = g@;
    proof {
        lemma_le_refl(m0);
    }
    let mut x = rx;
    while x < rx + rw
        invariant
            rx <= x <= rx + rw,
            rx + rw <= m0.da,
            ry + rh <= m0.db,
            m0.wrap_a == false,
            m_wf(m0),
            room_inv(m0, g@, rx as int, ry as int, rw as int, rh as int, x as int, ry as int),
        decreases rx + rw - x,
    {
        let mut y = ry;
        while y < ry + rh
            invariant
                rx <= x < rx + rw,
                ry <= y <= ry + rh,
                rx + rw <= m0.da,
                ry + rh <= m0.db,
                m0.wrap_a == false,
                m_wf(m0),
                room_inv(m0, g@, rx as int, ry as int, rw as int, rh as int, x as int, y as int),
            decreases ry + rh - y,
        {
            let ghost mprev1 = g@;
            if y + 1 < ry + rh {
                room_open_one(g, x, y, Dir::IncB, Ghost(m0), rx, ry, rw, rh);
                proof {
                    lemma_le_trans(m0, mprev1, g@);
                }
            }
            let ghost mprev2 = g@;
            if x + 1 < rx + rw {
                room_open_one(g, x, y, Dir::IncA, Ghost(m0), rx, ry, rw, rh);
                proof {
                    lemma_le_trans(m0, mprev2, g@);
                }
            }
            proof {
                let mm = g@;
                let rxi = rx as int;
                let ryi = ry as int;
                let rwi = rw as int;
                let rhi = rh as int;
                assert forall|x2: int, y2: int, e: Dir|
                    m_valid(m0, x2, y2) && room_opens(rxi, ryi, rwi, rhi, x2, y2, e) && sweep_done(
                        room_owner(x2, y2, e).0,
                        room_owner(x2, y2, e).1,
                        x as int,
                        y + 1,
                    ) implies #[trigger] m_open(mm, x2, y2, e) by {
                    let ow = room_owner(x2, y2, e);
                    if ow == (x as int, y as int) {
                        // This very cell's flags were just opened.
                        assert(m_open(mm, x2, y2, e));
                    } else {
                        assert(sweep_done(ow.0, ow.1, x as int, y as int));
                        assert(m_open(mprev1, x2, y2, e));
                        assert(m_open(mm, x2, y2, e));
                    }
                }
            }
            y = y + 1;
        }
        proof {
            let rxi = rx as int;
            let ryi = ry as int;
            let rwi = rw as int;
            let rhi = rh as int;
            assert forall|x2: int, y2: int, e: Dir|
                m_valid(m0, x2, y2) && room_opens(rxi, ryi, rwi, rhi, x2, y2, e) && sweep_done(
                    room_owner(x2, y2, e).0,
                    room_owner(x2, y2, e).1,
                    x + 1,
                    ryi,
                ) implies #[trigger] m_open(g@, x2, y2, e) by {
                let ow = room_owner(x2, y2, e);
                assert(ryi <= ow.1 < ryi + rhi);
                assert(sweep_done(ow.0, ow.1, x as int, ryi + rhi));
            }
        }
        x = x + 1;
    }
    proof {
        let rxi = rx as int;
        let ryi = ry as int;
        let rwi = rw as int;
        let rhi = rh as int;
        assert forall|x2: int, y2: int, e: Dir|
            m_valid(m0, x2, y2) implies #[trigger] m_wall(g@, x2, y2, e) == (m_wall(m0, x2, y2, e)
            && !room_opens(rxi, ryi, rwi, rhi, x2, y2, e)) by {
            if room_opens(rxi, ryi, rwi, rhi, x2, y2, e) {
                let ow = room_owner(x2, y2, e);
                assert(rxi <= ow.0 < rxi + rwi);
                assert(sweep_done(ow.0, ow.1, rxi + rwi, ryi));
                assert(m_open(g@, x2, y2, e));
            }
        }
        assert forall|x2: int, y2: int, e: Dir|
            m_valid(m0, x2, y2) && m_boundary(m0, x2, y2, e) implies #[trigger] m_wall(
            g@,
            x2,
            y2,
            e,
        ) == m_wall(m0, x2, y2, e) by {
            if room_opens(rxi, ryi, rwi, rhi, x2, y2, e) {
                assert(!m_boundary(m0, x2, y2, e));
            }
        }
    }
}

} // verus!
