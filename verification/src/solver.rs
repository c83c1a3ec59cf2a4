use vstd::prelude::*;

use crate::grid::Grid;
use crate::model::{
    count_true, m_boundary, m_idx, m_marked, m_nbr, m_open, m_reach, m_step, m_valid, m_wall,
    m_wf, Dir, Model,
};
use crate::model_lemmas::{
    lemma_count_true_le, lemma_count_true_update, lemma_count_true_zero, lemma_idx_bounds,
    lemma_idx_inj, lemma_mark_facts, lemma_nbr_valid, lemma_reach_in_closed,
};
use crate::random::random_below;

verus! {

/// A coordinate pair as the model sees it.
pub open spec fn ic(c: (usize, usize)) -> (int, int) {
    (c.0 as int, c.1 as int)
}

/// An unvisited neighbor of `(a, b)` that is reachable through an already
/// open, non-boundary passage toward `d`.
pub open spec fn scand_ok(m: Model, vis: Seq<bool>, a: int, b: int, d: Dir) -> bool {
    &&& !m_boundary(m, a, b, d)
    &&& m_open(m, a, b, d)
    &&& !vis[m_idx(m, m_nbr(m, a, b, d).0, m_nbr(m, a, b, d).1)]
}

/// If `d` crosses an open passage to an unvisited neighbor of `(a, b)`,
/// record it as a candidate.
fn solve_consider(g: &Grid, visited: &Vec<bool>, a: usize, b: usize, d: Dir, cands: &mut Vec<Dir>)
    requires
        crate::model::m_dims_ok(g@),
        m_valid(g@, a as int, b as int),
        visited@.len() == g@.cells.len(),
        forall|k: int|
            0 <= k < old(cands)@.len() ==> scand_ok(
                g@,
                visited@,
                a as int,
                b as int,
                #[trigger] old(cands)@[k],
            ),
    ensures
        old(cands)@.len() <= final(cands)@.len() <= old(cands)@.len() + 1,
        forall|k: int|
            0 <= k < final(cands)@.len() ==> scand_ok(
                g@,
                visited@,
                a as int,
                b as int,
                #[trigger] final(cands)@[k],
            ),
        final(cands)@.contains(d) <==> (old(cands)@.contains(d) || scand_ok(
            g@,
            visited@,
            a as int,
            b as int,
            d,
        )),
        forall|e: Dir| e != d ==> (final(cands)@.contains(e) <==> old(cands)@.contains(e)),
{
    let mut added = false;
    if !g.is_boundary(a, b, d) && g.is_open(a, b, d) {
        let (na, nb) = g.neighbor(a, b, d);
        let ni = g.idx(na, nb);
        if !visited[ni] {
            cands.push(d);
            added = true;
        }
    }
    proof {
        if added {
            assert(cands@.subrange(0, cands@.len() - 1) =~= old(cands)@);
            assert(cands@[cands@.len() - 1] == d);
            assert forall|e: Dir| #[trigger] cands@.contains(e) implies old(cands)@.contains(e) || e
                == d by {
                let k = choose|k: int| 0 <= k < cands@.len() && cands@[k] == e;
                if k < cands@.len() - 1 {
                    assert(old(cands)@[k] == e);
                }
            }
        } else {
            assert(cands@ =~= old(cands)@);
        }
    }
}

/// The search loop's invariant: the predecessor of each visited cell (but
/// the start) is a visited cell one open step before it with rank exactly
/// one less, so following predecessors from any visited cell walks back to
/// the start.
pub open spec fn search_inv(
    g: Grid,
    visited: Seq<bool>,
    vcount: int,
    stack: Seq<(usize, usize)>,
    prev: Seq<(usize, usize)>,
    rank: Seq<int>,
    sa: usize,
    sb: usize,
    ti: int,
    found: bool,
    total: usize,
) -> bool {
    &&& m_wf(g@)
    &&& g@.cells.len() == total
    &&& visited.len() == total
    &&& prev.len() == total
    &&& rank.len() == total
    &&& m_valid(g@, sa as int, sb as int)
    &&& visited[m_idx(g@, sa as int, sb as int)]
    &&& rank[m_idx(g@, sa as int, sb as int)] == 0
    &&& vcount == count_true(visited)
    &&& 1 <= vcount <= total
    &&& forall|j: int|
        0 <= j < stack.len() ==> m_valid(g@, #[trigger] stack[j].0 as int, stack[j].1 as int)
            && visited[m_idx(g@, stack[j].0 as int, stack[j].1 as int)]
    &&& forall|x: int, y: int|
        m_valid(g@, x, y) && visited[#[trigger] m_idx(g@, x, y)] ==> rank[m_idx(g@, x, y)] >= 0
    &&& forall|x: int, y: int|
        m_valid(g@, x, y) && visited[#[trigger] m_idx(g@, x, y)] && m_idx(g@, x, y) != m_idx(
            g@,
            sa as int,
            sb as int,
        ) ==> {
            let pc = prev[m_idx(g@, x, y)];
            &&& m_valid(g@, pc.0 as int, pc.1 as int)
            &&& visited[m_idx(g@, pc.0 as int, pc.1 as int)]
            &&& m_step(g@, ic(pc), (x, y))
            &&& rank[m_idx(g@, x, y)] == rank[m_idx(g@, pc.0 as int, pc.1 as int)] + 1
        }
    &&& (visited[ti] ==> found)
    &&& (found ==> visited[ti])
    &&& (!found ==> (forall|x: int, y: int|
        m_valid(g@, x, y) && visited[#[trigger] m_idx(g@, x, y)] ==> (stack.contains(
            ((x as usize), (y as usize)),
        ) || (forall|e: Dir|
            !(#[trigger] m_boundary(g@, x, y, e)) && m_open(g@, x, y, e) ==> visited[m_idx(
                g@,
                m_nbr(g@, x, y, e).0,
                m_nbr(g@, x, y, e).1,
            )]))))
}

/// After visiting one fresh cell, every visited cell still either sits
/// on the stack or has all of its open-passage neighbors visited.
proof fn lemma_search_closure(
    m: Model,
    vis1: Seq<bool>,
    visited: Seq<bool>,
    stack0: Seq<(usize, usize)>,
    stack: Seq<(usize, usize)>,
    a: usize,
    b: usize,
    na: usize,
    nb: usize,
    ni: int,
    total: usize,
)
    requires
        crate::model::m_dims_ok(m),
        m.cells.len() == total,
        vis1.len() == total,
        m_valid(m, a as int, b as int),
        m_valid(m, na as int, nb as int),
        ni == m_idx(m, na as int, nb as int),
        0 <= ni < total,
        visited == vis1.update(ni, true),
        stack0.len() > 0,
        stack0.last() == (a, b),
        stack == stack0.drop_last().push((a, b)).push((na, nb)),
        forall|x: int, y: int|
            m_valid(m, x, y) && vis1[#[trigger] m_idx(m, x, y)] ==> (stack0.contains(
                ((x as usize), (y as usize)),
            ) || (forall|e: Dir|
                !(#[trigger] m_boundary(m, x, y, e)) && m_open(m, x, y, e) ==> vis1[m_idx(
                    m,
                    m_nbr(m, x, y, e).0,
                    m_nbr(m, x, y, e).1,
                )])),
    ensures
        forall|x: int, y: int|
            m_valid(m, x, y) && visited[#[trigger] m_idx(m, x, y)] ==> (stack.contains(
                ((x as usize), (y as usize)),
            ) || (forall|e: Dir|
                !(#[trigger] m_boundary(m, x, y, e)) && m_open(m, x, y, e) ==> visited[m_idx(
                    m,
                    m_nbr(m, x, y, e).0,
                    m_nbr(m, x, y, e).1,
                )])),
{
    assert forall|x: int, y: int|
        m_valid(m, x, y) && visited[#[trigger] m_idx(m, x, y)] implies (stack.contains(
        ((x as usize), (y as usize)),
    ) || (forall|e: Dir|
        !(#[trigger] m_boundary(m, x, y, e)) && m_open(m, x, y, e) ==> visited[m_idx(
            m,
            m_nbr(m, x, y, e).0,
            m_nbr(m, x, y, e).1,
        )])) by {
        lemma_idx_bounds(m, x, y);
        let xu = x as usize;
        let yu = y as usize;
        if m_idx(m, x, y) == ni {
            lemma_idx_inj(m, x, y, na as int, nb as int);
            assert(stack[stack.len() - 1] == (xu, yu));
            assert(stack.contains((xu, yu)));
        } else if x == a as int && y == b as int {
            assert(stack[stack.len() - 2] == (xu, yu));
            assert(stack.contains((xu, yu)));
        } else {
            if stack0.contains((xu, yu)) {
                let jj = choose|jj: int| 0 <= jj < stack0.len() && stack0[jj] == (xu, yu);
                if jj == stack0.len() - 1 {
                    assert((xu, yu) == (a, b));
                    assert(stack[stack.len() - 2] == (xu, yu));
                } else {
                    assert(stack[jj] == (xu, yu));
                }
                assert(stack.contains((xu, yu)));
            } else {
                assert(vis1[m_idx(m, x, y)]);
                assert forall|e: Dir|
                    !(#[trigger] m_boundary(m, x, y, e)) && m_open(m, x, y, e) implies visited[m_idx(
                    m,
                    m_nbr(m, x, y, e).0,
                    m_nbr(m, x, y, e).1,
                )] by {
                    lemma_nbr_valid(m, x, y, e);
                    lemma_idx_bounds(m, m_nbr(m, x, y, e).0, m_nbr(m, x, y, e).1);
                    assert(vis1[m_idx(m, m_nbr(m, x, y, e).0, m_nbr(m, x, y, e).1)]);
                }
            }
        }
    }
}

/// One expansion of the solving search: push the popped cell back, walk
/// one open passage to a fresh cell, record its predecessor, and report
/// whether the fresh cell is the stop cell.
#[verifier::rlimit(100)]
fn search_step(
    g: &Grid,
    visited: &mut Vec<bool>,
    vcount: &mut usize,
    stack: &mut Vec<(usize, usize)>,
    prev: &mut Vec<(usize, usize)>,
    Ghost(rank0): Ghost<Seq<int>>,
    cands: &Vec<Dir>,
    a: usize,
    b: usize,
    ta: usize,
    tb: usize,
    sa: usize,
    sb: usize,
    Ghost(stack0): Ghost<Seq<(usize, usize)>>,
    total: usize,
) -> (r: (bool, Ghost<Seq<int>>))
    requires
        search_inv(
            *g,
            old(visited)@,
            *old(vcount) as int,
            stack0,
            old(prev)@,
            rank0,
            sa,
            sb,
            m_idx(g@, ta as int, tb as int),
            false,
            total,
        ),
        m_valid(g@, ta as int, tb as int),
        stack0.len() > 0,
        stack0.last() == (a, b),
        old(stack)@ == stack0.drop_last(),
        cands@.len() >= 1,
        forall|k: int|
            0 <= k < cands@.len() ==> scand_ok(
                g@,
                old(visited)@,
                a as int,
                b as int,
                #[trigger] cands@[k],
            ),
    ensures
        search_inv(
            *g,
            final(visited)@,
            *final(vcount) as int,
            final(stack)@,
            final(prev)@,
            r.1@,
            sa,
            sb,
            m_idx(g@, ta as int, tb as int),
            r.0,
            total,
        ),
        *final(vcount) == *old(vcount) + 1,
        final(stack)@.len() == stack0.len() + 1,
{
    let ghost ti = m_idx(g@, ta as int, tb as int);
    proof {
        lemma_idx_bounds(g@, ta as int, tb as int);
        assert(stack0[stack0.len() - 1] == (a, b));
        assert(stack0[stack0.len() - 1].0 == a);
        assert(stack0[stack0.len() - 1].1 == b);
        assert(m_valid(g@, a as int, b as int));
        lemma_idx_bounds(g@, a as int, b as int);
        assert(old(visited)@[m_idx(g@, a as int, b as int)]);
    }
    stack.push((a, b));
    let pick = random_below(cands.len());
    let d = cands[pick];
    let (na, nb) = g.neighbor(a, b, d);
    let ni = g.idx(na, nb);
    let ghost vis1 = visited@;
    let ghost na_g = na as int;
    let ghost nb_g = nb as int;
    proof {
        lemma_nbr_valid(g@, a as int, b as int, d);
        lemma_count_true_update(visited@, ni as int, true, total as int);
        lemma_count_true_le(visited@.update(ni as int, true), total as int);
    }
    visited.set(ni, true);
    prev.set(ni, (a, b));
    let ghost rank = rank0.update(
        ni as int,
        rank0[m_idx(g@, a as int, b as int)] + 1,
    );
    *vcount = *vcount + 1;
    stack.push((na, nb));
    let hit = na == ta && nb == tb;
    proof {
        let m = g@;
        let ai = m_idx(m, a as int, b as int);
        let si = m_idx(m, sa as int, sb as int);
        lemma_idx_bounds(m, sa as int, sb as int);
        if ni as int == si {
            lemma_idx_inj(m, na_g, nb_g, sa as int, sb as int);
            assert(vis1[si]);
            assert(false);
        }
        if hit {
            assert(m_idx(m, na_g, nb_g) == ti);
        } else {
            if visited@[ti] {
                if ti == ni as int {
                    lemma_idx_inj(m, ta as int, tb as int, na_g, nb_g);
                    assert(false);
                }
                assert(vis1[ti]);
                assert(false);
            }
        }
        // The predecessor chain: the fresh cell points at `(a, b)`; every
        // other visited cell kept its entry.
        assert forall|x: int, y: int|
            m_valid(m, x, y) && visited@[#[trigger] m_idx(m, x, y)] && m_idx(m, x, y) != si implies {
            let pc = prev@[m_idx(m, x, y)];
            &&& m_valid(m, pc.0 as int, pc.1 as int)
            &&& visited@[m_idx(m, pc.0 as int, pc.1 as int)]
            &&& m_step(m, ic(pc), (x, y))
            &&& rank[m_idx(m, x, y)] == rank[m_idx(m, pc.0 as int, pc.1 as int)] + 1
        } by {
            lemma_idx_bounds(m, x, y);
            if m_idx(m, x, y) == ni as int {
                lemma_idx_inj(m, x, y, na_g, nb_g);
                assert(prev@[ni as int] == (a, b));
                assert(!m_boundary(m, a as int, b as int, d) && m_open(m, a as int, b as int, d));
                assert(m_nbr(m, a as int, b as int, d) == (x, y));
                assert(m_step(m, (a as int, b as int), (x, y)));
                assert(rank[ni as int] == rank0[ai] + 1);
                assert(rank[ai] == rank0[ai]);
            } else {
                assert(vis1[m_idx(m, x, y)]);
                let pc = prev@[m_idx(m, x, y)];
                assert(pc == old(prev)@[m_idx(m, x, y)]);
                lemma_idx_bounds(m, pc.0 as int, pc.1 as int);
                if m_idx(m, pc.0 as int, pc.1 as int) == ni as int {
                    lemma_idx_inj(m, pc.0 as int, pc.1 as int, na_g, nb_g);
                    assert(vis1[ni as int]);
                    assert(false);
                }
                assert(rank[m_idx(m, x, y)] == rank0[m_idx(m, x, y)]);
                assert(rank[m_idx(m, pc.0 as int, pc.1 as int)] == rank0[m_idx(
                    m,
                    pc.0 as int,
                    pc.1 as int,
                )]);
            }
        }
        assert forall|x: int, y: int|
            m_valid(m, x, y) && visited@[#[trigger] m_idx(m, x, y)] implies rank[m_idx(m, x, y)]
            >= 0 by {
            lemma_idx_bounds(m, x, y);
            if m_idx(m, x, y) == ni as int {
                assert(rank0[ai] >= 0);
            } else {
                assert(vis1[m_idx(m, x, y)]);
            }
        }
        assert forall|j: int| 0 <= j < stack@.len() implies m_valid(
            m,
            #[trigger] stack@[j].0 as int,
            stack@[j].1 as int,
        ) && visited@[m_idx(m, stack@[j].0 as int, stack@[j].1 as int)] by {
            if j < stack@.len() - 2 {
                assert(stack@[j] == stack0[j]);
                assert(vis1[m_idx(m, stack0[j].0 as int, stack0[j].1 as int)]);
                lemma_idx_bounds(m, stack0[j].0 as int, stack0[j].1 as int);
            } else if j == stack@.len() - 2 {
                assert(stack@[j] == (a, b));
                assert(vis1[ai]);
                lemma_idx_bounds(m, a as int, b as int);
            } else {
                assert(stack@[j] == (na, nb));
                assert(visited@[ni as int]);
            }
        }
        if !hit {
            // Closure bookkeeping for the still-searching case.
            assert(stack@ =~= stack0.drop_last().push((a, b)).push((na, nb)));
            lemma_search_closure(
                m,
                vis1,
                visited@,
                stack0,
                stack@,
                a,
                b,
                na,
                nb,
                ni as int,
                total,
            );
        }
    }
    (hit, Ghost(rank))
}

/// Search for a path from `(sa, sb)` to `(ta, tb)` through open passages
/// only, with the randomized depth-first strategy, and reconstruct it by
/// following the recorded predecessors back from the stop cell.
///
/// Returns `None` exactly when the stop cell is unreachable; a returned
/// path starts at the start cell, ends at the stop cell, repeats no cell,
/// and crosses one open passage per consecutive pair.
#[verifier::rlimit(100)]
pub fn search(g: &Grid, sa: usize, sb: usize, ta: usize, tb: usize) -> (res: Option<
    Vec<(usize, usize)>,
>)
    requires
        m_wf(g@),
        m_valid(g@, sa as int, sb as int),
        m_valid(g@, ta as int, tb as int),
    ensures
        (res is None) <==> !m_reach(g@, (sa as int, sb as int), (ta as int, tb as int)),
        res matches Some(p) ==> {
            &&& p@.len() >= 1
            &&& p@[0] == (sa, sb)
            &&& p@[p@.len() - 1] == (ta, tb)
            &&& forall|i: int| 0 <= i < p@.len() ==> m_valid(g@, ic(#[trigger] p@[i]).0, ic(p@[i]).1)
            &&& forall|i: int| 0 <= i < p@.len() - 1 ==> m_step(g@, ic(#[trigger] p@[i]), ic(p@[i + 1]))
            &&& forall|i: int, j: int| 0 <= i < j < p@.len() ==> p@[i] != p@[j]
        },
{
    let total = g.cells.len();
    let si = g.idx(sa, sb);
    let ti = g.idx(ta, tb);
    let mut visited: Vec<bool> = Vec::new();
    let mut prev: Vec<(usize, usize)> = Vec::new();
    let mut k: usize = 0;
    while k < total
        invariant
            k <= total,
            visited@.len() == k,
            prev@.len() == k,
            forall|i: int| 0 <= i < k ==> !visited@[i],
        decreases total - k,
    {
        visited.push(false);
        prev.push((0, 0));
        k = k + 1;
    }
    proof {
        lemma_count_true_zero(visited@, total as int);
        lemma_count_true_update(visited@, si as int, true, total as int);
    }
    visited.set(si, true);
    let ghost rank0 = Seq::new(total as nat, |i: int| 0int);
    let ghost mut rank: Seq<int> = rank0;
    let mut vcount: usize = 1;
    let mut stack: Vec<(usize, usize)> = Vec::new();
    stack.push((sa, sb));
    let mut found = sa == ta && sb == tb;
    proof {
        if found {
            assert(m_idx(g@, ta as int, tb as int) == m_idx(g@, sa as int, sb as int));
        } else {
            if visited@[ti as int] {
                if ti == si {
                    lemma_idx_inj(g@, sa as int, sb as int, ta as int, tb as int);
                    assert(false);
                }
                assert(false);
            }
        }
        assert(stack@[0] == (sa, sb));
        assert(stack@.contains((sa, sb)));
        assert forall|x: int, y: int|
            m_valid(g@, x, y) && visited@[#[trigger] m_idx(g@, x, y)] implies x == sa as int && y
            == sb as int by {
            lemma_idx_bounds(g@, x, y);
            if m_idx(g@, x, y) == si as int {
                lemma_idx_inj(g@, x, y, sa as int, sb as int);
            }
        }
    }
    while !found && stack.len() != 0
        invariant
            search_inv(
                *g,
                visited@,
                vcount as int,
                stack@,
                prev@,
                rank,
                sa,
                sb,
                m_idx(g@, ta as int, tb as int),
                found,
                total,
            ),
            m_valid(g@, ta as int, tb as int),
            total == g@.cells.len(),
            si as int == m_idx(g@, sa as int, sb as int),
            ti as int == m_idx(g@, ta as int, tb as int),
        decreases 2 * (total - vcount) + stack@.len(),
    {
        let ghost stack0 = stack@;
        let (a, b) = stack.pop().unwrap();
        let mut cands: Vec<Dir> = Vec::new();
        solve_consider(g, &visited, a, b, Dir::DecA, &mut cands);
        solve_consider(g, &visited, a, b, Dir::IncA, &mut cands);
        solve_consider(g, &visited, a, b, Dir::DecB, &mut cands);
        solve_consider(g, &visited, a, b, Dir::IncB, &mut cands);
        if cands.len() > 0 {
            let (hit, newrank) = search_step(
                g,
                &mut visited,
                &mut vcount,
                &mut stack,
                &mut prev,
                Ghost(rank),
                &cands,
                a,
                b,
                ta,
                tb,
                sa,
                sb,
                Ghost(stack0),
                total,
            );
            proof {
                rank = newrank@;
            }
            found = hit;
        } else {
            // Dead end: no unvisited cell lies behind an open passage of
            // the popped cell, so it may leave the stack for good.
            proof {
                assert forall|e: Dir| !(#[trigger] cands@.contains(e)) by {
                    if cands@.contains(e) {
                        let kk = choose|kk: int| 0 <= kk < cands@.len() && cands@[kk] == e;
                    }
                }
                assert(stack0[stack0.len() - 1] == (a, b));
                assert(stack0[stack0.len() - 1].0 == a);
                assert(stack0[stack0.len() - 1].1 == b);
                assert forall|x: int, y: int|
                    m_valid(g@, x, y) && visited@[#[trigger] m_idx(g@, x, y)] implies (stack@
                    .contains(((x as usize), (y as usize))) || (forall|e: Dir|
                    !(#[trigger] m_boundary(g@, x, y, e)) && m_open(g@, x, y, e) ==> visited@[m_idx(
                        g@,
                        m_nbr(g@, x, y, e).0,
                        m_nbr(g@, x, y, e).1,
                    )])) by {
                    let xu = x as usize;
                    let yu = y as usize;
                    if x == a as int && y == b as int {
                        assert forall|e: Dir|
                            !(#[trigger] m_boundary(g@, x, y, e)) && m_open(g@, x, y, e)
                                implies visited@[m_idx(
                            g@,
                            m_nbr(g@, x, y, e).0,
                            m_nbr(g@, x, y, e).1,
                        )] by {
                            assert(!cands@.contains(e));
                            assert(!scand_ok(g@, visited@, a as int, b as int, e));
                            lemma_nbr_valid(g@, x, y, e);
                            lemma_idx_bounds(g@, m_nbr(g@, x, y, e).0, m_nbr(g@, x, y, e).1);
                        }
                    } else if stack0.contains((xu, yu)) {
                        let jj = choose|jj: int| 0 <= jj < stack0.len() && stack0[jj] == (xu, yu);
                        if jj == stack0.len() - 1 {
                            assert((xu, yu) == (a, b));
                        } else {
                            assert(stack@[jj] == (xu, yu));
                            assert(stack@.contains((xu, yu)));
                        }
                    }
                }
            }
        }
    }
    if !found {
        proof {
            if m_reach(g@, (sa as int, sb as int), (ta as int, tb as int)) {
                assert forall|x: int, y: int, e: Dir|
                    m_valid(g@, x, y) && visited@[m_idx(g@, x, y)] && !m_boundary(g@, x, y, e)
                        && #[trigger] m_open(g@, x, y, e) implies visited@[m_idx(
                    g@,
                    m_nbr(g@, x, y, e).0,
                    m_nbr(g@, x, y, e).1,
                )] by {
                    assert(!stack@.contains(((x as usize), (y as usize))));
                }
                lemma_reach_in_closed(
                    g@,
                    visited@,
                    (sa as int, sb as int),
                    (ta as int, tb as int),
                );
                assert(visited@[ti as int]);
                assert(false);
            }
        }
        return None;
    }
    // Walk the predecessor chain back from the stop cell; ranks fall by
    // one per step, so the walk ends at the start cell and never repeats.
    let mut rev: Vec<(usize, usize)> = Vec::new();
    let mut cur: (usize, usize) = (ta, tb);
    rev.push(cur);
    proof {
        lemma_idx_bounds(g@, ta as int, tb as int);
    }
    while !(cur.0 == sa && cur.1 == sb)
        invariant
            search_inv(
                *g,
                visited@,
                vcount as int,
                stack@,
                prev@,
                rank,
                sa,
                sb,
                m_idx(g@, ta as int, tb as int),
                found,
                total,
            ),
            total == g@.cells.len(),
            si as int == m_idx(g@, sa as int, sb as int),
            rev@.len() >= 1,
            rev@[0] == (ta, tb),
            rev@[rev@.len() - 1] == cur,
            m_valid(g@, cur.0 as int, cur.1 as int),
            visited@[m_idx(g@, cur.0 as int, cur.1 as int)],
            forall|k: int|
                0 <= k < rev@.len() ==> m_valid(g@, ic(#[trigger] rev@[k]).0, ic(rev@[k]).1)
                    && visited@[m_idx(g@, ic(rev@[k]).0, ic(rev@[k]).1)],
            forall|k: int| 0 <= k < rev@.len() - 1 ==> m_step(g@, ic(#[trigger] rev@[k + 1]), ic(rev@[k])),
            forall|k: int|
                0 <= k < rev@.len() ==> rank[m_idx(g@, ic(#[trigger] rev@[k]).0, ic(rev@[k]).1)]
                    == rank[m_idx(g@, ta as int, tb as int)] - k,
        decreases rank[m_idx(g@, cur.0 as int, cur.1 as int)],
    {
        let i = g.idx(cur.0, cur.1);
        proof {
            if i as int == si as int {
                lemma_idx_inj(g@, cur.0 as int, cur.1 as int, sa as int, sb as int);
                assert(false);
            }
        }
        let p = prev[i];
        proof {
            lemma_idx_bounds(g@, p.0 as int, p.1 as int);
        }
        rev.push(p);
        cur = p;
    }
    // The path runs from start to stop: reverse the walk.
    let n = rev.len();
    let mut path: Vec<(usize, usize)> = Vec::new();
    let mut i: usize = n;
    while i > 0
        invariant
            i <= n,
            n == rev@.len(),
            path@.len() == n - i,
            forall|k: int| 0 <= k < path@.len() ==> #[trigger] path@[k] == rev@[n - 1 - k],
        decreases i,
    {
        i = i - 1;
        path.push(rev[i]);
    }
    proof {
        let m = g@;
        assert(path@[0] == rev@[n - 1]);
        assert(path@[n - 1] == rev@[0]);
        assert forall|k: int| 0 <= k < path@.len() - 1 implies m_step(
            m,
            ic(#[trigger] path@[k]),
            ic(path@[k + 1]),
        ) by {
            assert(path@[k] == rev@[n - 1 - k]);
            assert(path@[k + 1] == rev@[n - 2 - k]);
            assert(m_step(m, ic(rev@[(n - 2 - k) + 1]), ic(rev@[n - 2 - k])));
        }
        assert forall|ii: int, jj: int| 0 <= ii < jj < path@.len() implies path@[ii] != path@[jj] by {
            if path@[ii] == path@[jj] {
                let ci = ic(path@[ii]);
                let cj = ic(path@[jj]);
                assert(rank[m_idx(m, ic(rev@[n - 1 - ii]).0, ic(rev@[n - 1 - ii]).1)] == rank[m_idx(
                    m,
                    ta as int,
                    tb as int,
                )] - (n - 1 - ii));
                assert(rank[m_idx(m, ic(rev@[n - 1 - jj]).0, ic(rev@[n - 1 - jj]).1)] == rank[m_idx(
                    m,
                    ta as int,
                    tb as int,
                )] - (n - 1 - jj));
                assert(false);
            }
        }
        // A found path witnesses reachability, so the None case cannot
        // coincide with it.
        let pseq = Seq::new(path@.len() as nat, |k: int| ic(path@[k]));
        assert(crate::model::m_path(m, pseq)) by {
            assert forall|k: int| 0 <= k < pseq.len() implies m_valid(
                m,
                #[trigger] pseq[k].0,
                pseq[k].1,
            ) by {
                assert(path@[k] == rev@[n - 1 - k]);
            }
            assert forall|k: int| 0 <= k < pseq.len() - 1 implies m_step(
                m,
                #[trigger] pseq[k],
                pseq[k + 1],
            ) by {
                assert(m_step(m, ic(path@[k]), ic(path@[k + 1])));
            }
        }
        assert(pseq.first() == (sa as int, sb as int));
        assert(pseq.last() == (ta as int, tb as int));
        assert(m_reach(m, (sa as int, sb as int), (ta as int, tb as int)));
    }
    Some(path)
}

/// Annotate every cell of `path` as part of the solution; nothing else
/// changes.
pub fn mark_path(g: &mut Grid, path: &Vec<(usize, usize)>)
    requires
        crate::model::m_dims_ok(old(g)@),
        forall|i: int|
            0 <= i < path@.len() ==> m_valid(old(g)@, ic(#[trigger] path@[i]).0, ic(path@[i]).1),
    ensures
        final(g)@.wrap_a == old(g)@.wrap_a,
        final(g)@.da == old(g)@.da,
        final(g)@.db == old(g)@.db,
        final(g)@.cells.len() == old(g)@.cells.len(),
        forall|x: int, y: int, e: Dir|
            m_valid(old(g)@, x, y) ==> #[trigger] m_wall(final(g)@, x, y, e) == m_wall(
                old(g)@,
                x,
                y,
                e,
            ),
        forall|x: int, y: int|
            m_valid(old(g)@, x, y) ==> #[trigger] m_marked(final(g)@, x, y) == (m_marked(
                old(g)@,
                x,
                y,
            ) || path@.contains(((x as usize), (y as usize)))),
{
    let ghost m0 = g@;
    let mut i: usize = 0;
    while i < path.len()
        invariant
            i <= path@.len(),
            g@.wrap_a == m0.wrap_a,
            g@.da == m0.da,
            g@.db == m0.db,
            g@.cells.len() == m0.cells.len(),
            crate::model::m_dims_ok(g@),
            forall|k: int|
                0 <= k < path@.len() ==> m_valid(m0, ic(#[trigger] path@[k]).0, ic(path@[k]).1),
            forall|x: int, y: int, e: Dir|
                m_valid(m0, x, y) ==> #[trigger] m_wall(g@, x, y, e) == m_wall(m0, x, y, e),
            forall|x: int, y: int|
                m_valid(m0, x, y) ==> #[trigger] m_marked(g@, x, y) == (m_marked(m0, x, y)
                    || path@.subrange(0, i as int).contains(((x as usize), (y as usize)))),
        decreases path@.len() - i,
    {
        let (a, b) = path[i];
        let ghost mprev = g@;
        proof {
            lemma_mark_facts(mprev, a as int, b as int);
        }
        g.mark(a, b);
        i = i + 1;
        proof {
            assert forall|x: int, y: int| m_valid(m0, x, y) implies #[trigger] m_marked(g@, x, y)
                == (m_marked(m0, x, y) || path@.subrange(0, i as int).contains(
                ((x as usize), (y as usize)),
            )) by {
                let xu = x as usize;
                let yu = y as usize;
                let pre = path@.subrange(0, i - 1);
                let now = path@.subrange(0, i as int);
                assert(pre.push(path@[i - 1]) =~= now);
                if m_marked(g@, x, y) {
                    if m_marked(mprev, x, y) {
                        if !m_marked(m0, x, y) {
                            let kk = choose|kk: int| 0 <= kk < pre.len() && pre[kk] == (xu, yu);
                            assert(now[kk] == (xu, yu));
                            assert(now.contains((xu, yu)));
                        }
                    } else {
                        assert(x == a as int && y == b as int);
                        assert(now[i - 1] == (xu, yu));
                        assert(now.contains((xu, yu)));
                    }
                } else {
                    assert(!m_marked(mprev, x, y));
                    assert(!pre.contains((xu, yu)));
                    if now.contains((xu, yu)) {
                        let kk = choose|kk: int| 0 <= kk < now.len() && now[kk] == (xu, yu);
                        if kk < i - 1 {
                            assert(pre[kk] == (xu, yu));
                            assert(pre.contains((xu, yu)));
                        } else {
                            assert((xu, yu) == (a, b));
                            assert(m_marked(g@, a as int, b as int));
                        }
                        assert(false);
                    }
                }
            }
        }
    }
    proof {
        assert(path@.subrange(0, path@.len() as int) =~= path@);
    }
}

} // verus!
