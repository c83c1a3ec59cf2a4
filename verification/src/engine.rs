use vstd::prelude::*;

use crate::grid::Grid;
use crate::model::{
    count_true, m_all_closed, m_boundary, m_idx, m_le, m_marked, m_nbr, m_open, m_open_count,
    m_open_wall, m_reach, m_step, m_symmetric, m_valid, m_wall, m_wf, Dir, Model,
};
use crate::model_lemmas::{
    lemma_adj_closed_full, lemma_all_closed_props, lemma_count_true_all, lemma_count_true_le,
    lemma_count_true_update, lemma_count_true_zero, lemma_idx_bounds, lemma_idx_inj,
    lemma_le_refl, lemma_le_trans, lemma_nbr_symm, lemma_nbr_valid, lemma_open_wall_count,
    lemma_open_wall_facts, lemma_open_wall_sym, lemma_reach_mono, lemma_reach_refl,
    lemma_reach_step,
};
use crate::random::{lemma_sum_bound, random_below, random_weighted, sum_u64};

verus! {

/// Largest accepted direction weight; four of them always sum within `u64`.
pub const WEIGHT_LIMIT: u64 = 0x3fffffffffffffff;

/// An unvisited neighbor reachable from `(a, b)` via `d`.
pub open spec fn cand_ok(m: Model, vis: Seq<bool>, a: int, b: int, d: Dir) -> bool {
    &&& !m_boundary(m, a, b, d)
    &&& !vis[m_idx(m, m_nbr(m, a, b, d).0, m_nbr(m, a, b, d).1)]
}

/// The carving loop's invariant over the grid `g`, the visited bitmap, the
/// visited count and the work stack, relative to the starting model `m0`.
pub open spec fn carve_inv(
    m0: Model,
    g: Grid,
    visited: Seq<bool>,
    vcount: int,
    stack: Seq<(usize, usize)>,
    da: usize,
    db: usize,
    total: usize,
) -> bool {
    &&& g.da == da
    &&& g.db == db
    &&& g@.wrap_a == m0.wrap_a
    &&& g@.da == m0.da
    &&& g@.db == m0.db
    &&& m_wf(g@)
    &&& g@.cells.len() == total
    &&& total == da * db
    &&& visited.len() == total
    &&& vcount == count_true(visited)
    &&& 1 <= vcount <= total
    &&& visited[0]
    &&& forall|j: int|
        0 <= j < stack.len() ==> m_valid(g@, #[trigger] stack[j].0 as int, stack[j].1 as int)
            && visited[m_idx(g@, stack[j].0 as int, stack[j].1 as int)]
    &&& forall|x: int, y: int|
        m_valid(g@, x, y) && visited[#[trigger] m_idx(g@, x, y)] ==> m_reach(
            g@,
            (0int, 0int),
            (x, y),
        )
    &&& forall|x: int, y: int|
        m_valid(g@, x, y) && visited[#[trigger] m_idx(g@, x, y)] ==> (stack.contains(
            ((x as usize), (y as usize)),
        ) || (forall|e: Dir|
            !(#[trigger] m_boundary(g@, x, y, e)) ==> visited[m_idx(
                g@,
                m_nbr(g@, x, y, e).0,
                m_nbr(g@, x, y, e).1,
            )]))
    &&& m_le(m0, g@)
    &&& forall|x: int, y: int, e: Dir|
        m_valid(m0, x, y) && m_boundary(m0, x, y, e) ==> #[trigger] m_wall(g@, x, y, e) == m_wall(
            m0,
            x,
            y,
            e,
        )
    &&& forall|x: int, y: int|
        m_valid(m0, x, y) ==> #[trigger] m_marked(g@, x, y) == m_marked(m0, x, y)
    &&& (m_symmetric(m0) ==> m_symmetric(g@))
    &&& (m_all_closed(m0) ==> (forall|x: int, y: int, e: Dir|
        m_valid(g@, x, y) && #[trigger] m_open(g@, x, y, e) ==> !m_boundary(g@, x, y, e)
            && visited[m_idx(g@, x, y)] && visited[m_idx(
            g@,
            m_nbr(g@, x, y, e).0,
            m_nbr(g@, x, y, e).1,
        )]))
    &&& (m_all_closed(m0) ==> m_open_count(g@) == 2 * (vcount - 1))
}

/// If `d` leads to an unvisited neighbor of `(a, b)`, record it as a
/// candidate with weight `w`.
fn consider_dir(
    g: &Grid,
    visited: &Vec<bool>,
    a: usize,
    b: usize,
    d: Dir,
    w: u64,
    cands: &mut Vec<Dir>,
    ws: &mut Vec<u64>,
)
    requires
        crate::model::m_dims_ok(g@),
        m_valid(g@, a as int, b as int),
        visited@.len() == g@.cells.len(),
        old(cands)@.len() == old(ws)@.len(),
        w <= WEIGHT_LIMIT,
        forall|k: int|
            0 <= k < old(cands)@.len() ==> cand_ok(g@, visited@, a as int, b as int, #[trigger] old(
                cands,
            )@[k]),
        forall|k: int| 0 <= k < old(ws)@.len() ==> #[trigger] old(ws)@[k] <= WEIGHT_LIMIT,
    ensures
        final(cands)@.len() == final(ws)@.len(),
        old(cands)@.len() <= final(cands)@.len() <= old(cands)@.len() + 1,
        forall|k: int|
            0 <= k < final(cands)@.len() ==> cand_ok(
                g@,
                visited@,
                a as int,
                b as int,
                #[trigger] final(cands)@[k],
            ),
        forall|k: int| 0 <= k < final(ws)@.len() ==> #[trigger] final(ws)@[k] <= WEIGHT_LIMIT,
        final(cands)@.contains(d) <==> (old(cands)@.contains(d) || cand_ok(
            g@,
            visited@,
            a as int,
            b as int,
            d,
        )),
        forall|e: Dir| e != d ==> (final(cands)@.contains(e) <==> old(cands)@.contains(e)),
{
    let mut added = false;
    if !g.is_boundary(a, b, d) {
        let (na, nb) = g.neighbor(a, b, d);
        let ni = g.idx(na, nb);
        if !visited[ni] {
            cands.push(d);
            ws.push(w);
            added = true;
        }
    }
    proof {
        if added {
            assert(cands@ == cands@.subrange(0, cands@.len() - 1).push(d));
            assert(cands@.subrange(0, cands@.len() - 1) =~= old(cands)@);
            assert(cands@[cands@.len() - 1] == d);
            assert forall|e: Dir| #[trigger] cands@.contains(e) implies old(cands)@.contains(e) || e
                == d by {
                let k = choose|k: int| 0 <= k < cands@.len() && cands@[k] == e;
                if k < cands@.len() - 1 {
                    assert(old(cands)@[k] == e);
                }
            }
        } else {
            assert(cands@ =~= old(cands)@);
        }
    }
}

/// Backtracking is sound: a popped cell with no unvisited neighbor can
/// leave the stack because its whole neighborhood is already visited.
proof fn lemma_carve_deadend(
    m0: Model,
    g: Grid,
    visited: Seq<bool>,
    vcount: int,
    stack0: Seq<(usize, usize)>,
    a: usize,
    b: usize,
    da: usize,
    db: usize,
    total: usize,
)
    requires
        carve_inv(m0, g, visited, vcount, stack0, da, db, total),
        stack0.len() > 0,
        stack0.last() == (a, b),
        forall|e: Dir|
            !(#[trigger] m_boundary(g@, a as int, b as int, e)) ==> visited[m_idx(
                g@,
                m_nbr(g@, a as int, b as int, e).0,
                m_nbr(g@, a as int, b as int, e).1,
            )],
    ensures
        carve_inv(m0, g, visited, vcount, stack0.drop_last(), da, db, total),
{
    let stack = stack0.drop_last();
    assert forall|x: int, y: int|
        m_valid(g@, x, y) && visited[#[trigger] m_idx(g@, x, y)] implies (stack.contains(
        ((x as usize), (y as usize)),
    ) || (forall|e: Dir|
        !(#[trigger] m_boundary(g@, x, y, e)) ==> visited[m_idx(
            g@,
            m_nbr(g@, x, y, e).0,
            m_nbr(g@, x, y, e).1,
        )])) by {
        let xu = x as usize;
        let yu = y as usize;
        if x == a as int && y == b as int {
        } else if stack0.contains((xu, yu)) {
            let jj = choose|jj: int| 0 <= jj < stack0.len() && stack0[jj] == (xu, yu);
            if jj == stack0.len() - 1 {
                assert((xu, yu) == (a, b));
            } else {
                assert(stack[jj] == (xu, yu));
                assert(stack.contains((xu, yu)));
            }
        }
    }
}

/// Carve one passage from `(a, b)`, just popped off the stack, toward a
/// direction drawn from the candidate list, and push both cells back.
#[verifier::rlimit(100)]
fn carve_expand(
    g: &mut Grid,
    visited: &mut Vec<bool>,
    vcount: &mut usize,
    stack: &mut Vec<(usize, usize)>,
    cands: &Vec<Dir>,
    ws: &Vec<u64>,
    a: usize,
    b: usize,
    Ghost(m0): Ghost<Model>,
    Ghost(stack0): Ghost<Seq<(usize, usize)>>,
    da: usize,
    db: usize,
    total: usize,
)
    requires
        carve_inv(m0, *old(g), old(visited)@, *old(vcount) as int, stack0, da, db, total),
        stack0.len() > 0,
        stack0.last() == (a, b),
        old(stack)@ == stack0.drop_last(),
        cands@.len() == ws@.len(),
        1 <= cands@.len() <= 4,
        forall|k: int|
            0 <= k < cands@.len() ==> cand_ok(
                old(g)@,
                old(visited)@,
                a as int,
                b as int,
                #[trigger] cands@[k],
            ),
        forall|k: int| 0 <= k < ws@.len() ==> #[trigger] ws@[k] <= WEIGHT_LIMIT,
    ensures
        carve_inv(m0, *final(g), final(visited)@, *final(vcount) as int, final(stack)@, da, db, total),
        *final(vcount) == *old(vcount) + 1,
        final(stack)@.len() == stack0.len() + 1,
{
    proof {
        assert(stack0[stack0.len() - 1] == (a, b));
        assert(stack0[stack0.len() - 1].0 == a);
        assert(stack0[stack0.len() - 1].1 == b);
        assert(m_valid(old(g)@, a as int, b as int));
        lemma_idx_bounds(old(g)@, a as int, b as int);
        assert(old(visited)@[m_idx(old(g)@, a as int, b as int)]);
    }
    stack.push((a, b));
    // Weighted draw over the unvisited directions; if every candidate
    // weight is zero, fall back to a uniform draw.
    let mut wsum: u64 = 0;
    let mut i: usize = 0;
    while i < ws.len()
        invariant
            i <= ws@.len(),
            ws@.len() <= 4,
            forall|k: int| 0 <= k < ws@.len() ==> #[trigger] ws@[k] <= WEIGHT_LIMIT,
            wsum as int == sum_u64(ws@.subrange(0, i as int)),
            wsum <= 4 * WEIGHT_LIMIT,
        decreases ws@.len() - i,
    {
        proof {
            assert(ws@.subrange(0, i + 1).drop_last() =~= ws@.subrange(0, i as int));
            lemma_sum_bound(ws@.subrange(0, i + 1), WEIGHT_LIMIT);
        }
        wsum = wsum + ws[i];
        i = i + 1;
    }
    proof {
        assert(ws@.subrange(0, ws@.len() as int) =~= ws@);
    }
    let pick = if wsum > 0 {
        random_weighted(ws)
    } else {
        random_below(cands.len())
    };
    let d = cands[pick];
    let ghost m1 = g@;
    let ghost na_g = m_nbr(m1, a as int, b as int, d).0;
    let ghost nb_g = m_nbr(m1, a as int, b as int, d).1;
    proof {
        lemma_nbr_valid(m1, a as int, b as int, d);
        lemma_nbr_symm(m1, a as int, b as int, d);
        lemma_open_wall_facts(m1, a as int, b as int, d);
        if m_symmetric(m0) {
            lemma_open_wall_sym(m1, a as int, b as int, d);
        }
        if m_all_closed(m0) {
            // Both facing flags are still closed: an open flag would mean
            // the neighbor had been visited already.
            lemma_all_closed_props(m0);
            if m_open(m1, a as int, b as int, d) {
                assert(visited@[m_idx(m1, na_g, nb_g)]);
                assert(!visited@[m_idx(m1, na_g, nb_g)]);
            }
            assert(m_wall(m1, a as int, b as int, d));
            assert(m_symmetric(m1));
            assert(m_wall(m1, na_g, nb_g, crate::model::opp(d)));
            lemma_open_wall_count(m1, a as int, b as int, d);
        }
    }
    g.open_wall(a, b, d);
    let (na, nb) = g.neighbor(a, b, d);
    let ni = g.idx(na, nb);
    let ghost vis1 = visited@;
    proof {
        lemma_le_trans(m0, m1, g@);
        lemma_count_true_update(visited@, ni as int, true, total as int);
        lemma_count_true_le(visited@.update(ni as int, true), total as int);
    }
    visited.set(ni, true);
    *vcount = *vcount + 1;
    stack.push((na, nb));
    proof {
        let m2 = g@;
        assert(m2 == m_open_wall(m1, a as int, b as int, d));
        // Reachability of every visited cell carries over, and the fresh
        // cell is reached through the passage just opened.
        assert forall|x: int, y: int|
            m_valid(m2, x, y) && visited@[#[trigger] m_idx(m2, x, y)] implies m_reach(
            m2,
            (0int, 0int),
            (x, y),
        ) by {
            lemma_idx_bounds(m2, x, y);
            assert(m_idx(m2, x, y) == m_idx(m1, x, y));
            if m_idx(m2, x, y) == ni as int {
                lemma_idx_inj(m2, x, y, na_g, nb_g);
                assert(vis1[m_idx(m1, a as int, b as int)]);
                assert(m_reach(m1, (0int, 0int), (a as int, b as int)));
                lemma_reach_mono(m1, m2, (0int, 0int), (a as int, b as int));
                assert(m_open(m2, a as int, b as int, d));
                assert(m_valid(m2, a as int, b as int));
                assert(!m_boundary(m2, a as int, b as int, d));
                assert(m_nbr(m2, a as int, b as int, d) == (x, y));
                assert(m_step(m2, (a as int, b as int), (x, y)));
                lemma_reach_step(m2, (0int, 0int), (a as int, b as int), (x, y));
            } else {
                assert(vis1[m_idx(m1, x, y)]);
                assert(m_reach(m1, (0int, 0int), (x, y)));
                lemma_reach_mono(m1, m2, (0int, 0int), (x, y));
            }
        }
        // The closure bookkeeping: both touched cells are on the stack;
        // every other visited cell kept its status.
        assert forall|x: int, y: int|
            m_valid(m2, x, y) && visited@[#[trigger] m_idx(m2, x, y)] implies (stack@.contains(
            ((x as usize), (y as usize)),
        ) || (forall|e: Dir|
            !(#[trigger] m_boundary(m2, x, y, e)) ==> visited@[m_idx(
                m2,
                m_nbr(m2, x, y, e).0,
                m_nbr(m2, x, y, e).1,
            )])) by {
            lemma_idx_bounds(m2, x, y);
            assert(m_idx(m2, x, y) == m_idx(m1, x, y));
            let xu = x as usize;
            let yu = y as usize;
            if m_idx(m2, x, y) == ni as int {
                lemma_idx_inj(m2, x, y, na_g, nb_g);
                assert(stack@[stack@.len() - 1] == (xu, yu));
                assert(stack@.contains((xu, yu)));
            } else if x == a as int && y == b as int {
                assert(stack@[stack@.len() - 2] == (xu, yu));
                assert(stack@.contains((xu, yu)));
            } else {
                if stack0.contains((xu, yu)) {
                    let jj = choose|jj: int| 0 <= jj < stack0.len() && stack0[jj] == (xu, yu);
                    if jj == stack0.len() - 1 {
                        assert((xu, yu) == (a, b));
                        assert(stack@[stack@.len() - 2] == (xu, yu));
                    } else {
                        assert(stack@[jj] == (xu, yu));
                    }
                    assert(stack@.contains((xu, yu)));
                } else {
                    assert(vis1[m_idx(m1, x, y)]);
                    assert(!stack0.contains((xu, yu)));
                    assert forall|e: Dir|
                        !(#[trigger] m_boundary(m2, x, y, e)) implies visited@[m_idx(
                        m2,
                        m_nbr(m2, x, y, e).0,
                        m_nbr(m2, x, y, e).1,
                    )] by {
                        assert(!m_boundary(m1, x, y, e));
                        lemma_nbr_valid(m1, x, y, e);
                        lemma_idx_bounds(m1, m_nbr(m1, x, y, e).0, m_nbr(m1, x, y, e).1);
                        assert(vis1[m_idx(m1, m_nbr(m1, x, y, e).0, m_nbr(m1, x, y, e).1)]);
                    }
                }
            }
        }
        assert forall|j: int| 0 <= j < stack@.len() implies m_valid(
            m2,
            #[trigger] stack@[j].0 as int,
            stack@[j].1 as int,
        ) && visited@[m_idx(m2, stack@[j].0 as int, stack@[j].1 as int)] by {
            if j < stack@.len() - 2 {
                assert(stack@[j] == stack0[j]);
                assert(m_valid(m1, stack0[j].0 as int, stack0[j].1 as int));
                assert(vis1[m_idx(m1, stack0[j].0 as int, stack0[j].1 as int)]);
                lemma_idx_bounds(m1, stack0[j].0 as int, stack0[j].1 as int);
                assert(m_idx(m2, stack@[j].0 as int, stack@[j].1 as int) == m_idx(
                    m1,
                    stack0[j].0 as int,
                    stack0[j].1 as int,
                ));
            } else if j == stack@.len() - 2 {
                assert(stack@[j] == (a, b));
                assert(vis1[m_idx(m1, a as int, b as int)]);
                lemma_idx_bounds(m1, a as int, b as int);
                assert(m_idx(m2, a as int, b as int) == m_idx(m1, a as int, b as int));
            } else {
                assert(stack@[j] == (na, nb));
                assert(visited@[ni as int]);
            }
        }
        if m_all_closed(m0) {
            assert forall|x: int, y: int, e: Dir|
                m_valid(m2, x, y) && #[trigger] m_open(m2, x, y, e) implies !m_boundary(
                m2,
                x,
                y,
                e,
            ) && visited@[m_idx(m2, x, y)] && visited@[m_idx(
                m2,
                m_nbr(m2, x, y, e).0,
                m_nbr(m2, x, y, e).1,
            )] by {
                lemma_idx_bounds(m2, x, y);
                lemma_nbr_valid(m1, x, y, e);
                assert(m_idx(m2, x, y) == m_idx(m1, x, y));
                if x == a as int && y == b as int && e == d {
                    lemma_idx_bounds(m2, na_g, nb_g);
                } else if (x, y) == m_nbr(m1, a as int, b as int, d) && e == crate::model::opp(d) {
                    lemma_nbr_symm(m1, a as int, b as int, d);
                    lemma_idx_bounds(m2, a as int, b as int);
                } else {
                    assert(m_open(m1, x, y, e));
                    assert(vis1[m_idx(m1, x, y)]);
                    lemma_idx_bounds(m2, m_nbr(m1, x, y, e).0, m_nbr(m1, x, y, e).1);
                    assert(vis1[m_idx(m1, m_nbr(m1, x, y, e).0, m_nbr(m1, x, y, e).1)]);
                }
            }
        }
    }
}

/// One round of the carving search: pop a cell, gather its unvisited
/// neighbors, and either backtrack (none left) or carve toward one of
/// them, drawn by weight.
fn carve_step(
    g: &mut Grid,
    visited: &mut Vec<bool>,
    vcount: &mut usize,
    stack: &mut Vec<(usize, usize)>,
    w_dec_a: u64,
    w_inc_a: u64,
    w_dec_b: u64,
    w_inc_b: u64,
    Ghost(m0): Ghost<Model>,
    da: usize,
    db: usize,
    total: usize,
)
    requires
        carve_inv(
            m0,
            *old(g),
            old(visited)@,
            *old(vcount) as int,
            old(stack)@,
            da,
            db,
            total,
        ),
        old(stack)@.len() > 0,
        w_dec_a <= WEIGHT_LIMIT,
        w_inc_a <= WEIGHT_LIMIT,
        w_dec_b <= WEIGHT_LIMIT,
        w_inc_b <= WEIGHT_LIMIT,
    ensures
        carve_inv(
            m0,
            *final(g),
            final(visited)@,
            *final(vcount) as int,
            final(stack)@,
            da,
            db,
            total,
        ),
        2 * (total - *final(vcount)) + final(stack)@.len() < 2 * (total - *old(vcount)) + old(
            stack,
        )@.len(),
{
    let ghost stack0 = stack@;
    let (a, b) = stack.pop().unwrap();
    let mut cands: Vec<Dir> = Vec::new();
    let mut ws: Vec<u64> = Vec::new();
    consider_dir(g, visited, a, b, Dir::DecA, w_dec_a, &mut cands, &mut ws);
    consider_dir(g, visited, a, b, Dir::IncA, w_inc_a, &mut cands, &mut ws);
    consider_dir(g, visited, a, b, Dir::DecB, w_dec_b, &mut cands, &mut ws);
    consider_dir(g, visited, a, b, Dir::IncB, w_inc_b, &mut cands, &mut ws);
    if cands.len() > 0 {
        carve_expand(
            g,
            visited,
            vcount,
            stack,
            &cands,
            &ws,
            a,
            b,
            Ghost(m0),
            Ghost(stack0),
            da,
            db,
            total,
        );
    } else {
        // Dead end: the popped cell keeps no unvisited neighbor, so it may
        // leave the stack for good.
        proof {
            assert(cands@.len() == 0);
            assert forall|e: Dir| !(#[trigger] cands@.contains(e)) by {
                if cands@.contains(e) {
                    let kk = choose|kk: int| 0 <= kk < cands@.len() && cands@[kk] == e;
                }
            }
            assert forall|e: Dir|
                !(#[trigger] m_boundary(g@, a as int, b as int, e)) implies visited@[m_idx(
                g@,
                m_nbr(g@, a as int, b as int, e).0,
                m_nbr(g@, a as int, b as int, e).1,
            )] by {
                assert(!cands@.contains(e));
                assert(!cand_ok(g@, visited@, a as int, b as int, e));
                lemma_nbr_valid(g@, a as int, b as int, e);
                lemma_idx_bounds(g@, m_nbr(g@, a as int, b as int, e).0, m_nbr(g@, a as int, b as int, e).1);
            }
            lemma_carve_deadend(
                m0,
                *g,
                visited@,
                *vcount as int,
                stack0,
                a,
                b,
                da,
                db,
                total,
            );
        }
    }
}

/// Carve a maze into `g` with the randomized depth-first search, weighting
/// the draw of the next direction by the four per-direction weights.
///
/// Starting from the origin the search visits every cell exactly once and
/// opens one passage per newly visited cell, so afterwards every cell is
/// reachable from the origin (connectivity), wall symmetry is kept, marks
/// and boundary flags are untouched, and — when the grid started fully
/// closed — the number of open passages is exactly the cell count minus
/// one, twice that in single-side flags (a spanning tree).
#[verifier::rlimit(50)]
pub fn carve(g: &mut Grid, w_dec_a: u64, w_inc_a: u64, w_dec_b: u64, w_inc_b: u64)
    requires
        m_wf(old(g)@),
        w_dec_a <= WEIGHT_LIMIT,
        w_inc_a <= WEIGHT_LIMIT,
        w_dec_b <= WEIGHT_LIMIT,
        w_inc_b <= WEIGHT_LIMIT,
    ensures
        final(g)@.wrap_a == old(g)@.wrap_a,
        final(g)@.da == old(g)@.da,
        final(g)@.db == old(g)@.db,
        m_wf(final(g)@),
        m_le(old(g)@, final(g)@),
        forall|x: int, y: int|
            m_valid(old(g)@, x, y) ==> #[trigger] m_marked(final(g)@, x, y) == m_marked(
                old(g)@,
                x,
                y,
            ),
        forall|x: int, y: int, e: Dir|
            m_valid(old(g)@, x, y) && m_boundary(old(g)@, x, y, e) ==> #[trigger] m_wall(
                final(g)@,
                x,
                y,
                e,
            ) == m_wall(old(g)@, x, y, e),
        m_symmetric(old(g)@) ==> m_symmetric(final(g)@),
        forall|x: int, y: int|
            m_valid(old(g)@, x, y) ==> m_reach(final(g)@, (0int, 0int), (x, y)),
        m_all_closed(old(g)@) ==> m_open_count(final(g)@) == 2 * (old(g)@.da * old(g)@.db - 1),
{
    let ghost m0 = g@;
    let da = g.da;
    let db = g.db;
    let total = g.cells.len();
    proof {
        assert(total == da * db);
        assert(total >= 1) by (nonlinear_arith)
            requires
                total == da * db,
                da >= 1,
                db >= 1,
        ;
    }
    let mut visited: Vec<bool> = Vec::new();
    let mut k: usize = 0;
    while k < total
        invariant
            k <= total,
            visited@.len() == k,
            forall|i: int| 0 <= i < k ==> !visited@[i],
        decreases total - k,
    {
        visited.push(false);
        k = k + 1;
    }
    proof {
        lemma_count_true_zero(visited@, total as int);
        assert(m_idx(m0, 0, 0) == 0);
        lemma_count_true_update(visited@, 0, true, total as int);
    }
    visited.set(0, true);
    let mut vcount: usize = 1;
    let mut stack: Vec<(usize, usize)> = Vec::new();
    stack.push((0, 0));
    proof {
        lemma_reach_refl(m0, (0int, 0int));
        lemma_le_refl(m0);
        if m_all_closed(m0) {
            lemma_all_closed_props(m0);
        }
        assert(stack@[0] == (0usize, 0usize));
        assert(stack@.contains((0usize, 0usize)));
        assert forall|x: int, y: int|
            m_valid(g@, x, y) && visited@[#[trigger] m_idx(g@, x, y)] implies x == 0 && y == 0 by {
            lemma_idx_bounds(g@, x, y);
            if m_idx(g@, x, y) == 0 {
                lemma_idx_inj(g@, x, y, 0, 0);
            }
        }
    }
    while stack.len() != 0
        invariant
            carve_inv(m0, *g, visited@, vcount as int, stack@, da, db, total),
            w_dec_a <= WEIGHT_LIMIT,
            w_inc_a <= WEIGHT_LIMIT,
            w_dec_b <= WEIGHT_LIMIT,
            w_inc_b <= WEIGHT_LIMIT,
        decreases 2 * (total - vcount) + stack@.len(),
    {
        carve_step(
            g,
            &mut visited,
            &mut vcount,
            &mut stack,
            w_dec_a,
            w_inc_a,
            w_dec_b,
            w_inc_b,
            Ghost(m0),
            da,
            db,
            total,
        );
    }
    proof {
        let mf = g@;
        assert forall|x: int, y: int|
            m_valid(mf, x, y) && visited@[#[trigger] m_idx(mf, x, y)] implies (forall|e: Dir|
            !(#[trigger] m_boundary(mf, x, y, e)) ==> visited@[m_idx(
                mf,
                m_nbr(mf, x, y, e).0,
                m_nbr(mf, x, y, e).1,
            )]) by {
            assert(!stack@.contains(((x as usize), (y as usize))));
        }
        lemma_adj_closed_full(mf, visited@);
        assert forall|x: int, y: int| m_valid(m0, x, y) implies m_reach(
            mf,
            (0int, 0int),
            (x, y),
        ) by {
            assert(visited@[m_idx(mf, x, y)]);
        }
        if m_all_closed(m0) {
            assert forall|i: int| 0 <= i < total implies visited@[i] by {
                let dai = da as int;
                let y = i / dai;
                let x = i % dai;
                vstd::arithmetic::div_mod::lemma_fundamental_div_mod(i, dai);
                vstd::arithmetic::div_mod::lemma_mod_bound(i, dai);
                assert(y >= 0) by (nonlinear_arith)
                    requires
                        i >= 0,
                        dai >= 1,
                        x < dai,
                        i == dai * y + x,
                ;
                assert(y < db) by (nonlinear_arith)
                    requires
                        i < total,
                        total == da * db,
                        dai == da as int,
                        x >= 0,
                        dai >= 1,
                        i == dai * y + x,
                ;
                assert(y * dai + x == i) by (nonlinear_arith)
                    requires
                        i == dai * y + x,
                ;
                assert(m_idx(mf, x, y) == i);
                assert(visited@[m_idx(mf, x, y)]);
            }
            lemma_count_true_all(visited@, total as int);
        }
    }
}

} // verus!
