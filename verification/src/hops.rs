//! The hop-bounded search.
//!
//! The search state is a `(node, hops)` pair: the same node may have
//! different optimal costs depending on how many edges were used to reach
//! it, so the table is two-dimensional. Expansion from a state consumes
//! one hop and is only permitted below the bound; because states are
//! popped in cost order, the first finalized state of the destination, at
//! whatever hop count, is the cheapest route within the bound.

use vstd::prelude::*;
use crate::frontier::HopFrontier;
use crate::frontier::hop_entry_le;
use crate::graph::Graph;
use crate::graph::wf_adjacency;
use crate::paths::costed_path;
use crate::paths::has_edge;
use crate::paths::lemma_costed_path_in_range;
use crate::paths::lemma_costed_path_snoc;
use crate::paths::lemma_costed_path_unsnoc;
use crate::dijkstra::sum_u32;
use crate::dijkstra::lemma_sum_u32_nonneg;
use crate::dijkstra::lemma_sum_u32_update;
use crate::tables::grid_set;
use crate::tables::grid_view;

verus! {

/// Some path of cost `c` and exactly `h` edges leads from `s` to `v`.
pub open spec fn reaches_in_steps(
    gs: Seq<Seq<(usize, u32)>>,
    s: usize,
    v: usize,
    c: int,
    h: int,
) -> bool {
    exists|p: Seq<usize>|
        costed_path(gs, p, c) && p[0] == s && p.last() == v && p.len() == h + 1
}

/// Some path of cost `c` and at most `h` edges leads from `s` to `v`.
pub open spec fn reaches_within(
    gs: Seq<Seq<(usize, u32)>>,
    s: usize,
    v: usize,
    c: int,
    h: int,
) -> bool {
    exists|p: Seq<usize>|
        costed_path(gs, p, c) && p[0] == s && p.last() == v && p.len() <= h + 1
}

/// Every path from `s` to `v` of exactly `h` edges costs at least `bound`.
pub open spec fn no_step_path_below(
    gs: Seq<Seq<(usize, u32)>>,
    s: usize,
    v: usize,
    h: int,
    bound: int,
) -> bool {
    forall|c: int| #[trigger] reaches_in_steps(gs, s, v, c, h) ==> c >= bound
}

/// Every path from `s` to `v` of at most `h` edges costs at least `bound`.
pub open spec fn no_bounded_path_below(
    gs: Seq<Seq<(usize, u32)>>,
    s: usize,
    v: usize,
    h: int,
    bound: int,
) -> bool {
    forall|c: int| #[trigger] reaches_within(gs, s, v, c, h) ==> c >= bound
}

/// The meaning of a hop-bounded query result: `Some` of the exact least
/// cost over paths of at most `h` edges, `None` when every such path
/// reaches the sentinel.
pub open spec fn bounded_result_ok(
    gs: Seq<Seq<(usize, u32)>>,
    s: usize,
    d: usize,
    h: int,
    r: Option<u32>,
) -> bool {
    match r {
        Some(c) => c < u32::MAX && reaches_within(gs, s, d, c as int, h) && no_bounded_path_below(
            gs,
            s,
            d,
            h,
            c as int,
        ),
        None => no_bounded_path_below(gs, s, d, h, u32::MAX as int),
    }
}

/// Sum of the whole table; with the frontier length it forms the loop
/// termination measure.
pub open spec fn sum_grid(dd: Seq<Seq<u32>>) -> int
    decreases dd.len(),
{
    if dd.len() == 0 {
        0
    } else {
        sum_grid(dd.drop_last()) + sum_u32(dd.last())
    }
}

proof fn lemma_sum_grid_nonneg(dd: Seq<Seq<u32>>)
    ensures
        sum_grid(dd) >= 0,
    decreases dd.len(),
{
    if dd.len() > 0 {
        lemma_sum_grid_nonneg(dd.drop_last());
        lemma_sum_u32_nonneg(dd.last());
    }
}

proof fn lemma_sum_grid_update(dd: Seq<Seq<u32>>, i: int, row: Seq<u32>)
    requires
        0 <= i < dd.len(),
    ensures
        sum_grid(dd.update(i, row)) == sum_grid(dd) - sum_u32(dd[i]) + sum_u32(row),
    decreases dd.len(),
{
    if i == dd.len() - 1 {
        assert(dd.update(i, row).drop_last() =~= dd.drop_last());
        assert(dd.update(i, row).last() == row);
    } else {
        assert(dd.update(i, row).drop_last() =~= dd.drop_last().update(i, row));
        lemma_sum_grid_update(dd.drop_last(), i, row);
        assert(dd.update(i, row).last() == dd.last());
    }
}

/// A frontier entry names a valid state, never undercuts the state's
/// table cell, and carries a finite cost.
pub open spec fn hop_entry_ok(
    gs: Seq<Seq<(usize, u32)>>,
    hmax: usize,
    dd: Seq<Seq<u32>>,
    e: (u32, usize, usize),
) -> bool {
    &&& e.1 < gs.len()
    &&& e.2 <= hmax
    &&& dd[e.1 as int][e.2 as int] <= e.0
    &&& e.0 < u32::MAX
}

/// Edge `k` out of state `(v, h)` cannot improve its target's cell one
/// hop further on.
pub open spec fn hop_edge_relaxed(
    gs: Seq<Seq<(usize, u32)>>,
    dd: Seq<Seq<u32>>,
    v: usize,
    h: usize,
    k: int,
) -> bool {
    dd[v as int][h as int] + gs[v as int][k].1 < u32::MAX ==> dd[gs[v as int][k].0 as int][h + 1]
        <= dd[v as int][h as int] + gs[v as int][k].1
}

/// Every outgoing edge of every finalized state below the bound is fully
/// relaxed.
pub open spec fn all_hop_relaxed(
    gs: Seq<Seq<(usize, u32)>>,
    hmax: usize,
    dd: Seq<Seq<u32>>,
    done: Set<(usize, usize)>,
) -> bool {
    forall|v: usize, h: usize, k: int|
        done.contains((v, h)) && h < hmax && 0 <= k < gs[v as int].len()
            ==> #[trigger] hop_edge_relaxed(gs, dd, v, h, k)
}

/// The state invariant of the hop-bounded search, between pops.
pub open spec fn inv_hops(
    gs: Seq<Seq<(usize, u32)>>,
    s: usize,
    hmax: usize,
    dd: Seq<Seq<u32>>,
    done: Set<(usize, usize)>,
    fr: Seq<(u32, usize, usize)>,
) -> bool {
    &&& wf_adjacency(gs)
    &&& s < gs.len()
    &&& dd.len() == gs.len()
    &&& forall|v: usize| v < gs.len() ==> (#[trigger] dd[v as int]).len() == hmax + 1
    &&& dd[s as int][0] == 0
    // every finite cell is witnessed by a path of exactly that many hops
    &&& forall|v: usize, h: usize|
        v < gs.len() && h <= hmax && (#[trigger] dd[v as int][h as int]) < u32::MAX
            ==> reaches_in_steps(gs, s, v, dd[v as int][h as int] as int, h as int)
    // every frontier entry is sound
    &&& forall|i: int| 0 <= i < fr.len() ==> hop_entry_ok(gs, hmax, dd, #[trigger] fr[i])
    // every pending state sits in the frontier at its current cell
    &&& forall|v: usize, h: usize|
        v < gs.len() && h <= hmax && !done.contains((v, h)) && (#[trigger] dd[v as int][h as int])
            < u32::MAX ==> fr.contains((dd[v as int][h as int], v, h))
    // finalized states are optimal among paths of their exact hop count
    &&& forall|v: usize, h: usize|
        #[trigger] done.contains((v, h)) ==> v < gs.len() && h <= hmax && dd[v as int][h as int]
            < u32::MAX && no_step_path_below(gs, s, v, h as int, dd[v as int][h as int] as int)
    // entries for one state carry pairwise distinct costs
    &&& forall|i: int, j: int|
        0 <= i < fr.len() && 0 <= j < fr.len() && i != j && (#[trigger] fr[i]).1 == (
        #[trigger] fr[j]).1 && fr[i].2 == fr[j].2 ==> fr[i].0 != fr[j].0
    // entries for finalized states are strictly stale
    &&& forall|i: int|
        0 <= i < fr.len() && done.contains(((#[trigger] fr[i]).1, fr[i].2)) ==> fr[i].0
            > dd[fr[i].1 as int][fr[i].2 as int]
}

/// Any path of at most `hmax` edges to a not-yet-finalized state costs at
/// least as much as the cheapest frontier entry.
proof fn lemma_hop_cut(
    gs: Seq<Seq<(usize, u32)>>,
    s: usize,
    hmax: usize,
    dd: Seq<Seq<u32>>,
    done: Set<(usize, usize)>,
    fr: Seq<(u32, usize, usize)>,
    c: u32,
    p: Seq<usize>,
    pc: int,
)
    requires
        inv_hops(gs, s, hmax, dd, done, fr),
        all_hop_relaxed(gs, hmax, dd, done),
        c < u32::MAX,
        forall|j: int| 0 <= j < fr.len() ==> c <= (#[trigger] fr[j]).0,
        costed_path(gs, p, pc),
        p[0] == s,
        p.len() <= hmax + 1,
        !done.contains((p.last(), (p.len() - 1) as usize)),
    ensures
        pc >= c,
    decreases p.len(),
{
    lemma_costed_path_in_range(gs, p, pc);
    if p.len() == 1 {
        assert(dd[s as int][0] < u32::MAX);
        assert(fr.contains((dd[s as int][0], s, 0usize)));
        let j = choose|j: int| 0 <= j < fr.len() && fr[j] == (dd[s as int][0], s, 0usize);
        assert(c <= fr[j].0);
    } else {
        lemma_costed_path_unsnoc(gs, p, pc);
        let w = choose|w: u32|
            #[trigger] has_edge(gs, p[p.len() - 2], p.last(), w) && costed_path(
                gs,
                p.drop_last(),
                pc - w,
            );
        let u = p[p.len() - 2];
        let x = p.last();
        let q = p.drop_last();
        let eh = (p.len() - 2) as usize;  // hops of the prefix
        assert(q[0] == s && q.last() == u && q.len() == eh + 1);
        if done.contains((u, eh)) {
            assert(reaches_in_steps(gs, s, u, pc - w, eh as int)) by {
                assert(costed_path(gs, q, pc - w) && q[0] == s && q.last() == u && q.len() == eh
                    + 1);
            }
            assert(pc - w >= dd[u as int][eh as int]);
            let k = choose|k: int| 0 <= k < gs[u as int].len() && gs[u as int][k] == (x, w);
            assert(eh < hmax);
            assert(hop_edge_relaxed(gs, dd, u, eh, k));
            if dd[u as int][eh as int] + w < u32::MAX {
                assert(dd[x as int][eh + 1] <= dd[u as int][eh as int] + w);
                assert(dd[x as int][eh + 1] < u32::MAX);
                assert((eh + 1) as usize == (p.len() - 1) as usize);
                assert(fr.contains((dd[x as int][eh + 1], x, (eh + 1) as usize)));
                let j = choose|j: int|
                    0 <= j < fr.len() && fr[j] == (dd[x as int][eh + 1], x, (eh + 1) as usize);
                assert(c <= fr[j].0);
            }
        } else {
            lemma_hop_cut(gs, s, hmax, dd, done, fr, c, q, pc - w);
        }
    }
}

/// With an empty frontier the table dominates every finite bounded path.
proof fn lemma_hop_empty(
    gs: Seq<Seq<(usize, u32)>>,
    s: usize,
    hmax: usize,
    dd: Seq<Seq<u32>>,
    done: Set<(usize, usize)>,
    fr: Seq<(u32, usize, usize)>,
    p: Seq<usize>,
    pc: int,
)
    requires
        inv_hops(gs, s, hmax, dd, done, fr),
        all_hop_relaxed(gs, hmax, dd, done),
        fr.len() == 0,
        costed_path(gs, p, pc),
        p[0] == s,
        p.len() <= hmax + 1,
        pc < u32::MAX,
    ensures
        dd[p.last() as int][p.len() - 1] <= pc,
    decreases p.len(),
{
    lemma_costed_path_in_range(gs, p, pc);
    if p.len() == 1 {
    } else {
        lemma_costed_path_unsnoc(gs, p, pc);
        let w = choose|w: u32|
            #[trigger] has_edge(gs, p[p.len() - 2], p.last(), w) && costed_path(
                gs,
                p.drop_last(),
                pc - w,
            );
        let u = p[p.len() - 2];
        let x = p.last();
        let q = p.drop_last();
        let eh = (p.len() - 2) as usize;
        assert(q[0] == s && q.last() == u);
        lemma_hop_empty(gs, s, hmax, dd, done, fr, q, pc - w);
        assert(dd[u as int][eh as int] <= pc - w);
        assert(dd[u as int][eh as int] < u32::MAX);
        if !done.contains((u, eh)) {
            assert(fr.contains((dd[u as int][eh as int], u, eh)));
            let j = choose|j: int| 0 <= j < fr.len() && fr[j] == (dd[u as int][eh as int], u, eh);
            assert(false);
        }
        let k = choose|k: int| 0 <= k < gs[u as int].len() && gs[u as int][k] == (x, w);
        assert(eh < hmax);
        assert(hop_edge_relaxed(gs, dd, u, eh, k));
    }
}

/// Dropping a stale entry keeps the invariant.
proof fn lemma_hop_stale(
    gs: Seq<Seq<(usize, u32)>>,
    s: usize,
    hmax: usize,
    dd: Seq<Seq<u32>>,
    done: Set<(usize, usize)>,
    fr: Seq<(u32, usize, usize)>,
    i: int,
    e: (u32, usize, usize),
)
    requires
        inv_hops(gs, s, hmax, dd, done, fr),
        0 <= i < fr.len(),
        fr[i] == e,
        e.0 > dd[e.1 as int][e.2 as int],
    ensures
        inv_hops(gs, s, hmax, dd, done, fr.remove(i)),
{
    let fr2 = fr.remove(i);
    assert forall|j: int| 0 <= j < fr2.len() implies hop_entry_ok(gs, hmax, dd, #[trigger] fr2[j]) by {
        if j < i {
            assert(fr2[j] == fr[j]);
        } else {
            assert(fr2[j] == fr[j + 1]);
        }
    }
    assert forall|y: usize, h: usize|
        y < gs.len() && h <= hmax && !done.contains((y, h)) && (#[trigger] dd[y as int][h as int])
            < u32::MAX implies fr2.contains((dd[y as int][h as int], y, h)) by {
        assert(fr.contains((dd[y as int][h as int], y, h)));
        let j = choose|j: int| 0 <= j < fr.len() && fr[j] == (dd[y as int][h as int], y, h);
        assert(j != i);
        if j < i {
            assert(fr2[j] == fr[j]);
            assert(fr2.contains(fr2[j]));
        } else {
            assert(fr2[j - 1] == fr[j]);
            assert(fr2.contains(fr2[j - 1]));
        }
    }
    assert forall|a: int, b: int|
        0 <= a < fr2.len() && 0 <= b < fr2.len() && a != b && (#[trigger] fr2[a]).1 == (
        #[trigger] fr2[b]).1 && fr2[a].2 == fr2[b].2 implies fr2[a].0 != fr2[b].0 by {
        let a0: int = if a < i {
            a
        } else {
            a + 1
        };
        let b0: int = if b < i {
            b
        } else {
            b + 1
        };
        assert(fr2[a] == fr[a0]);
        assert(fr2[b] == fr[b0]);
    }
    assert forall|j: int|
        0 <= j < fr2.len() && done.contains(((#[trigger] fr2[j]).1, fr2[j].2)) implies fr2[j].0
        > dd[fr2[j].1 as int][fr2[j].2 as int] by {
        let j0: int = if j < i {
            j
        } else {
            j + 1
        };
        assert(fr2[j] == fr[j0]);
    }
}

/// Finalizing a freshly popped, non-stale minimum entry.
proof fn lemma_hop_finalize(
    gs: Seq<Seq<(usize, u32)>>,
    s: usize,
    hmax: usize,
    dd: Seq<Seq<u32>>,
    done: Set<(usize, usize)>,
    fr: Seq<(u32, usize, usize)>,
    i: int,
    e: (u32, usize, usize),
)
    requires
        inv_hops(gs, s, hmax, dd, done, fr),
        all_hop_relaxed(gs, hmax, dd, done),
        0 <= i < fr.len(),
        fr[i] == e,
        forall|j: int| 0 <= j < fr.len() ==> hop_entry_le(e, #[trigger] fr[j]),
        e.0 <= dd[e.1 as int][e.2 as int],
    ensures
        e.1 < gs.len(),
        e.2 <= hmax,
        e.0 == dd[e.1 as int][e.2 as int],
        e.0 < u32::MAX,
        !done.contains((e.1, e.2)),
        reaches_in_steps(gs, s, e.1, e.0 as int, e.2 as int),
        forall|p: Seq<usize>, pc: int|
            #[trigger] costed_path(gs, p, pc) && p[0] == s && p.len() <= hmax + 1
                && !done.contains((p.last(), (p.len() - 1) as usize)) ==> pc >= e.0,
        inv_hops(gs, s, hmax, dd, done.insert((e.1, e.2)), fr.remove(i)),
{
    let v = e.1;
    let h = e.2;
    let c = e.0;
    assert(hop_entry_ok(gs, hmax, dd, fr[i]));
    if done.contains((v, h)) {
        assert(fr[i].0 > dd[fr[i].1 as int][fr[i].2 as int]);
        assert(false);
    }
    assert(c == dd[v as int][h as int]);
    assert forall|p: Seq<usize>, pc: int|
        #[trigger] costed_path(gs, p, pc) && p[0] == s && p.len() <= hmax + 1 && !done.contains(
            (p.last(), (p.len() - 1) as usize),
        ) implies pc >= c by {
        assert forall|j: int| 0 <= j < fr.len() implies c <= (#[trigger] fr[j]).0 by {
            assert(hop_entry_le(e, fr[j]));
        }
        lemma_hop_cut(gs, s, hmax, dd, done, fr, c, p, pc);
    }
    assert(no_step_path_below(gs, s, v, h as int, c as int)) by {
        assert forall|pc: int| #[trigger] reaches_in_steps(gs, s, v, pc, h as int) implies pc
            >= c by {
            let p = choose|p: Seq<usize>|
                costed_path(gs, p, pc) && p[0] == s && p.last() == v && p.len() == h as int + 1;
            assert((p.len() - 1) as usize == h);
            assert(costed_path(gs, p, pc) && p[0] == s && p.len() <= hmax + 1 && !done.contains(
                (p.last(), (p.len() - 1) as usize),
            ));
        }
    }
    let done2 = done.insert((v, h));
    let fr2 = fr.remove(i);
    assert forall|j: int| 0 <= j < fr2.len() implies hop_entry_ok(gs, hmax, dd, #[trigger] fr2[j]) by {
        if j < i {
            assert(fr2[j] == fr[j]);
        } else {
            assert(fr2[j] == fr[j + 1]);
        }
    }
    assert forall|y: usize, hy: usize|
        y < gs.len() && hy <= hmax && !done2.contains((y, hy)) && (#[trigger] dd[y as int][hy as int])
            < u32::MAX implies fr2.contains((dd[y as int][hy as int], y, hy)) by {
        assert(fr.contains((dd[y as int][hy as int], y, hy)));
        let j = choose|j: int| 0 <= j < fr.len() && fr[j] == (dd[y as int][hy as int], y, hy);
        assert(j != i);
        if j < i {
            assert(fr2[j] == fr[j]);
            assert(fr2.contains(fr2[j]));
        } else {
            assert(fr2[j - 1] == fr[j]);
            assert(fr2.contains(fr2[j - 1]));
        }
    }
    assert forall|a: int, b: int|
        0 <= a < fr2.len() && 0 <= b < fr2.len() && a != b && (#[trigger] fr2[a]).1 == (
        #[trigger] fr2[b]).1 && fr2[a].2 == fr2[b].2 implies fr2[a].0 != fr2[b].0 by {
        let a0: int = if a < i {
            a
        } else {
            a + 1
        };
        let b0: int = if b < i {
            b
        } else {
            b + 1
        };
        assert(fr2[a] == fr[a0]);
        assert(fr2[b] == fr[b0]);
    }
    assert forall|j: int|
        0 <= j < fr2.len() && done2.contains(((#[trigger] fr2[j]).1, fr2[j].2)) implies fr2[j].0
        > dd[fr2[j].1 as int][fr2[j].2 as int] by {
        let j0: int = if j < i {
            j
        } else {
            j + 1
        };
        assert(fr2[j] == fr[j0]);
        if fr2[j].1 == v && fr2[j].2 == h {
            assert(fr[j0].0 != fr[i].0);
            assert(hop_entry_ok(gs, hmax, dd, fr[j0]));
        }
    }
}

/// One strict relaxation of the edge `k` out of state `(v, h)`.
proof fn lemma_hop_relax(
    gs: Seq<Seq<(usize, u32)>>,
    s: usize,
    hmax: usize,
    dd: Seq<Seq<u32>>,
    done: Set<(usize, usize)>,
    fr: Seq<(u32, usize, usize)>,
    v: usize,
    h: usize,
    k: int,
)
    requires
        inv_hops(gs, s, hmax, dd, done, fr),
        done.contains((v, h)),
        h < hmax,
        0 <= k < gs[v as int].len(),
        dd[v as int][h as int] + gs[v as int][k].1 < dd[gs[v as int][k].0 as int][h + 1],
    ensures
        ({
            let x = gs[v as int][k].0;
            let nc = (dd[v as int][h as int] + gs[v as int][k].1) as u32;
            let dd2 = dd.update(x as int, dd[x as int].update(h + 1, nc));
            &&& x < gs.len()
            &&& nc < u32::MAX
            &&& !done.contains((x, (h + 1) as usize))
            &&& reaches_in_steps(gs, s, x, nc as int, h + 1)
            &&& inv_hops(gs, s, hmax, dd2, done, fr.push((nc, x, (h + 1) as usize)))
            &&& forall|u: usize, h2: usize, k2: int|
                done.contains((u, h2)) && h2 < hmax && 0 <= k2 < gs[u as int].len() && !(u == x
                    && h2 == h + 1) && hop_edge_relaxed(gs, dd, u, h2, k2) ==> hop_edge_relaxed(
                    gs,
                    dd2,
                    u,
                    h2,
                    k2,
                )
            &&& hop_edge_relaxed(gs, dd2, v, h, k)
        }),
{
    let x = gs[v as int][k].0;
    let w = gs[v as int][k].1;
    let nc = (dd[v as int][h as int] + w) as u32;
    let dd2 = dd.update(x as int, dd[x as int].update(h + 1, nc));
    assert(x < gs.len());
    assert(dd[x as int][h + 1] <= u32::MAX);
    assert(nc < u32::MAX || dd[x as int][h + 1] == u32::MAX);
    assert(nc as int == dd[v as int][h as int] + w);
    assert(dd[v as int][h as int] < u32::MAX);
    assert(reaches_in_steps(gs, s, v, dd[v as int][h as int] as int, h as int));
    let p = choose|p: Seq<usize>|
        costed_path(gs, p, dd[v as int][h as int] as int) && p[0] == s && p.last() == v && p.len()
            == h as int + 1;
    assert(has_edge(gs, v, x, w)) by {
        assert(gs[v as int][k] == (x, w));
    }
    lemma_costed_path_snoc(gs, p, dd[v as int][h as int] as int, x, w);
    assert(reaches_in_steps(gs, s, x, nc as int, h + 1)) by {
        assert(costed_path(gs, p.push(x), nc as int) && p.push(x)[0] == s && p.push(x).last() == x
            && p.push(x).len() == (h + 1) + 1);
    }
    if done.contains((x, (h + 1) as usize)) {
        assert(no_step_path_below(gs, s, x, h + 1, dd[x as int][h + 1] as int));
        assert(false);
    }
    // lengths and untouched cells of the updated table
    assert(dd2.len() == dd.len());
    assert(dd2[x as int] == dd[x as int].update(h + 1, nc));
    assert forall|y: usize| y < gs.len() implies (#[trigger] dd2[y as int]).len() == hmax + 1 by {
        if y == x {
            assert(dd[x as int].len() == hmax + 1);
        }
    }
    assert(dd2[s as int][0] == dd[s as int][0]);
    assert forall|y: usize, hy: usize|
        y < gs.len() && hy <= hmax && (#[trigger] dd2[y as int][hy as int])
            < u32::MAX implies reaches_in_steps(gs, s, y, dd2[y as int][hy as int] as int, hy as int) by {
        if y == x && hy == (h + 1) as usize {
            assert(dd2[y as int][hy as int] == nc);
        } else {
            assert(dd2[y as int][hy as int] == dd[y as int][hy as int]);
        }
    }
    let fr2 = fr.push((nc, x, (h + 1) as usize));
    assert forall|j: int| 0 <= j < fr2.len() implies hop_entry_ok(gs, hmax, dd2, #[trigger] fr2[j]) by {
        if j < fr.len() {
            assert(fr2[j] == fr[j]);
            assert(hop_entry_ok(gs, hmax, dd, fr[j]));
            if fr[j].1 == x && fr[j].2 == (h + 1) as usize {
                assert(dd2[fr[j].1 as int][fr[j].2 as int] == nc);
            } else {
                assert(dd2[fr[j].1 as int][fr[j].2 as int] == dd[fr[j].1 as int][fr[j].2 as int]);
            }
        } else {
            assert(fr2[j] == (nc, x, (h + 1) as usize));
            assert(dd2[x as int][h + 1] == nc);
        }
    }
    assert forall|y: usize, hy: usize|
        y < gs.len() && hy <= hmax && !done.contains((y, hy)) && (#[trigger] dd2[y as int][hy as int])
            < u32::MAX implies fr2.contains((dd2[y as int][hy as int], y, hy)) by {
        if y == x && hy == (h + 1) as usize {
            assert(fr2[fr.len() as int] == (nc, x, (h + 1) as usize));
            assert(dd2[y as int][hy as int] == nc);
            assert(fr2.contains(fr2[fr.len() as int]));
        } else {
            assert(dd2[y as int][hy as int] == dd[y as int][hy as int]);
            assert(fr.contains((dd[y as int][hy as int], y, hy)));
            let j = choose|j: int| 0 <= j < fr.len() && fr[j] == (dd[y as int][hy as int], y, hy);
            assert(fr2[j] == fr[j]);
            assert(fr2.contains(fr2[j]));
        }
    }
    assert forall|y: usize, hy: usize|
        #[trigger] done.contains((y, hy)) implies y < gs.len() && hy <= hmax && dd2[y as int][hy as int]
            < u32::MAX && no_step_path_below(gs, s, y, hy as int, dd2[y as int][hy as int] as int) by {
        assert(!(y == x && hy == (h + 1) as usize));
        assert(dd2[y as int][hy as int] == dd[y as int][hy as int]);
    }
    assert forall|a: int, b: int|
        0 <= a < fr2.len() && 0 <= b < fr2.len() && a != b && (#[trigger] fr2[a]).1 == (
        #[trigger] fr2[b]).1 && fr2[a].2 == fr2[b].2 implies fr2[a].0 != fr2[b].0 by {
        if a < fr.len() && b < fr.len() {
            assert(fr2[a] == fr[a] && fr2[b] == fr[b]);
        } else if a < fr.len() {
            assert(fr2[b] == (nc, x, (h + 1) as usize));
            assert(hop_entry_ok(gs, hmax, dd, fr[a]));
        } else {
            assert(fr2[a] == (nc, x, (h + 1) as usize));
            assert(hop_entry_ok(gs, hmax, dd, fr[b]));
        }
    }
    assert forall|j: int|
        0 <= j < fr2.len() && done.contains(((#[trigger] fr2[j]).1, fr2[j].2)) implies fr2[j].0
        > dd2[fr2[j].1 as int][fr2[j].2 as int] by {
        if j < fr.len() {
            assert(fr2[j] == fr[j]);
            assert(!(fr[j].1 == x && fr[j].2 == (h + 1) as usize));
            assert(dd2[fr2[j].1 as int][fr2[j].2 as int] == dd[fr2[j].1 as int][fr2[j].2 as int]);
        } else {
            assert(fr2[j] == (nc, x, (h + 1) as usize));
            assert(false);
        }
    }
    assert forall|u: usize, h2: usize, k2: int|
        done.contains((u, h2)) && h2 < hmax && 0 <= k2 < gs[u as int].len() && !(u == x && h2 == h
            + 1) && hop_edge_relaxed(gs, dd, u, h2, k2) implies hop_edge_relaxed(
        gs,
        dd2,
        u,
        h2,
        k2,
    ) by {
        assert(dd2[u as int][h2 as int] == dd[u as int][h2 as int]);
        let t = gs[u as int][k2].0;
        if t == x && h2 + 1 == h + 1 {
            assert(dd2[t as int][h2 + 1] == nc);
        } else {
            assert(dd2[t as int][h2 + 1] == dd[t as int][h2 + 1]);
        }
    }
    assert(hop_edge_relaxed(gs, dd2, v, h, k)) by {
        assert(dd2[v as int][h as int] == dd[v as int][h as int]);
        assert(dd2[x as int][h + 1] == nc);
    }
}

/// The cheapest cost from `source` to `destination` over paths of at
/// most `max_hops` edges, `None` when no such path stays below the
/// sentinel. More hops can only help: with a large enough bound this
/// equals the unbounded query.
pub fn shortest_distance_bounded(
    graph: &Graph,
    source: usize,
    destination: usize,
    max_hops: usize,
) -> (r: Option<u32>)
    requires
        source < graph@.len(),
        destination < graph@.len(),
        max_hops < usize::MAX,
    ensures
        bounded_result_ok(graph@, source, destination, max_hops as int, r),
{
    proof {
        use_type_invariant(graph);
    }
    let ghost gs = graph@;
    let n = graph.node_count();
    let hcap = max_hops + 1;
    let mut dist2: Vec<Vec<u32>> = Vec::new();
    let mut u: usize = 0;
    while u < n
        invariant
            u <= n,
            dist2@.len() == u,
            forall|i: int| 0 <= i < u ==> (#[trigger] dist2@[i])@.len() == hcap,
            forall|i: int, j: int|
                0 <= i < u && 0 <= j < hcap ==> (#[trigger] dist2@[i]@[j]) == u32::MAX,
        decreases n - u,
    {
        let fresh: Vec<u32> = vec![u32::MAX; hcap];
        proof {
            assert(fresh@.len() == hcap);
            assert(forall|j: int| 0 <= j < hcap ==> (#[trigger] fresh@[j]) == u32::MAX);
        }
        dist2.push(fresh);
        u = u + 1;
    }
    let mut fr = HopFrontier::new();
    let ghost mut done: Set<(usize, usize)> = Set::empty();
    let ghost grid0 = grid_view(dist2@);
    proof {
        assert(dist2@[source as int]@.len() == hcap);
    }
    grid_set(&mut dist2, source, 0, 0);
    fr.push(0, source, 0);
    proof {
        let dd = grid_view(dist2@);
        assert(dd == grid0.update(source as int, grid0[source as int].update(0, 0u32)));
        assert forall|v: usize| v < gs.len() implies (#[trigger] dd[v as int]).len() == hcap by {
            if v == source {
                assert(grid0[v as int].len() == hcap);
            } else {
                assert(dd[v as int] == grid0[v as int]);
            }
        }
        assert(dd[source as int][0] == 0);
        assert forall|v: usize, h: usize|
            v < gs.len() && h <= max_hops && (#[trigger] dd[v as int][h as int])
                < u32::MAX implies v == source && h == 0 by {
            if v == source {
                if h != 0 {
                    assert(dd[v as int][h as int] == grid0[v as int][h as int]);
                    assert(dd[v as int][h as int] == u32::MAX);
                }
            } else {
                assert(dd[v as int][h as int] == grid0[v as int][h as int]);
                assert(dd[v as int][h as int] == u32::MAX);
            }
        }
        assert(fr@ =~= seq![(0u32, source, 0usize)]);
        assert(fr@[0] == (dd[source as int][0], source, 0usize));
        assert(fr@.contains(fr@[0]));
        let p0 = seq![source];
        assert(costed_path(gs, p0, 0) && p0[0] == source && p0.last() == source && p0.len() == 0
            + 1);
        assert(reaches_in_steps(gs, source, source, 0, 0));
    }
    while !fr.is_empty()
        invariant
            gs == graph@,
            n == gs.len(),
            source < n,
            destination < n,
            hcap == max_hops + 1,
            inv_hops(gs, source, max_hops, grid_view(dist2@), done, fr@),
            all_hop_relaxed(gs, max_hops, grid_view(dist2@), done),
            forall|h: usize| h <= max_hops ==> !done.contains((destination, h)),
        decreases fr@.len() + sum_grid(grid_view(dist2@)),
    {
        let ghost fr0 = fr@;
        let popped = fr.pop_min();
        proof {
            assert(popped.is_some());
        }
        let e = popped.unwrap();
        let c = e.0;
        let v = e.1;
        let h = e.2;
        let ghost i = choose|i: int| 0 <= i < fr0.len() && fr0[i] == e && fr@ == fr0.remove(i);
        proof {
            assert(hop_entry_ok(gs, max_hops, grid_view(dist2@), fr0[i]));
            lemma_sum_grid_nonneg(grid_view(dist2@));
        }
        proof {
            assert(grid_view(dist2@)[v as int].len() == max_hops + 1);
            assert(dist2@[v as int]@.len() == max_hops + 1);
        }
        let row_v = &dist2[v];
        let cur_vh = row_v[h];
        if c > cur_vh {
            proof {
                lemma_hop_stale(gs, source, max_hops, grid_view(dist2@), done, fr0, i, e);
            }
            continue;
        }
        proof {
            lemma_hop_finalize(gs, source, max_hops, grid_view(dist2@), done, fr0, i, e);
        }
        if v == destination {
            proof {
                let ghost dd = grid_view(dist2@);
                assert(reaches_within(gs, source, destination, c as int, max_hops as int)) by {
                    let p = choose|p: Seq<usize>|
                        costed_path(gs, p, c as int) && p[0] == source && p.last() == v && p.len()
                            == h as int + 1;
                    assert(p.len() <= max_hops as int + 1);
                }
                assert forall|pc: int|
                    #[trigger] reaches_within(gs, source, destination, pc, max_hops as int) implies pc
                    >= c by {
                    let p = choose|p: Seq<usize>|
                        costed_path(gs, p, pc) && p[0] == source && p.last() == destination
                            && p.len() <= max_hops as int + 1;
                    assert(!done.contains((p.last(), (p.len() - 1) as usize)));
                    assert(costed_path(gs, p, pc) && p[0] == source && p.len() <= max_hops + 1
                        && !done.contains((p.last(), (p.len() - 1) as usize)));
                }
            }
            return Some(c);
        }
        proof {
            done = done.insert((v, h));
        }
        let ghost dd1 = grid_view(dist2@);
        let ghost fr1 = fr@;
        if h < max_hops {
            let row = graph.edges_from(v);
            let mut k: usize = 0;
            while k < row.len()
                invariant
                    gs == graph@,
                    n == gs.len(),
                    source < n,
                    v < n,
                    h < max_hops,
                    hcap == max_hops + 1,
                    row@ == gs[v as int],
                    k <= row@.len(),
                    done.contains((v, h)),
                    grid_view(dist2@)[v as int][h as int] == c,
                    inv_hops(gs, source, max_hops, grid_view(dist2@), done, fr@),
                    forall|u2: usize, h2: usize, k2: int|
                        done.contains((u2, h2)) && !(u2 == v && h2 == h) && h2 < max_hops && 0 <= k2
                            < gs[u2 as int].len() ==> #[trigger] hop_edge_relaxed(
                            gs,
                            grid_view(dist2@),
                            u2,
                            h2,
                            k2,
                        ),
                    forall|k2: int|
                        0 <= k2 < k ==> #[trigger] hop_edge_relaxed(gs, grid_view(dist2@), v, h, k2),
                    forall|h2: usize| h2 <= max_hops ==> !done.contains((destination, h2)),
                    fr@.len() + sum_grid(grid_view(dist2@)) < fr1.len() + sum_grid(dd1) + 1,
                decreases row@.len() - k,
            {
                let ghost ddk = grid_view(dist2@);
                let edge = row[k];
                let x = edge.0;
                let w = edge.1;
                proof {
                    assert(gs[v as int][k as int] == (x, w));
                    assert(x < gs.len());
                }
                let h1 = h + 1;
                match c.checked_add(w) {
                    Some(nc) => {
                        proof {
                            assert(grid_view(dist2@)[x as int].len() == max_hops + 1);
                            assert(dist2@[x as int]@.len() == max_hops + 1);
                        }
                        let row_x = &dist2[x];
                        let cur = row_x[h1];
                        if nc < cur {
                            proof {
                                lemma_hop_relax(
                                    gs,
                                    source,
                                    max_hops,
                                    ddk,
                                    done,
                                    fr@,
                                    v,
                                    h,
                                    k as int,
                                );
                                lemma_sum_grid_update(
                                    ddk,
                                    x as int,
                                    ddk[x as int].update(h1 as int, nc),
                                );
                                lemma_sum_u32_update(ddk[x as int], h1 as int, nc);
                            }
                            grid_set(&mut dist2, x, h1, nc);
                            fr.push(nc, x, h1);
                            proof {
                                assert(grid_view(dist2@) == ddk.update(
                                    x as int,
                                    ddk[x as int].update(h1 as int, nc),
                                ));
                                assert(!done.contains((x, h1)));
                                assert forall|u2: usize, h2: usize, k2: int|
                                    done.contains((u2, h2)) && !(u2 == v && h2 == h) && h2
                                        < max_hops && 0 <= k2 < gs[u2 as int].len() implies
                                    #[trigger] hop_edge_relaxed(
                                    gs,
                                    grid_view(dist2@),
                                    u2,
                                    h2,
                                    k2,
                                ) by {
                                    assert(hop_edge_relaxed(gs, ddk, u2, h2, k2));
                                    assert(!(u2 == x && h2 == h1));
                                }
                                assert forall|k2: int| 0 <= k2 <= k implies
                                    #[trigger] hop_edge_relaxed(
                                    gs,
                                    grid_view(dist2@),
                                    v,
                                    h,
                                    k2,
                                ) by {
                                    if k2 < k {
                                        assert(hop_edge_relaxed(gs, ddk, v, h, k2));
                                        assert(!(v == x && h == h1));
                                    }
                                }
                            }
                        } else {
                            proof {
                                assert(hop_edge_relaxed(gs, grid_view(dist2@), v, h, k as int));
                            }
                        }
                    },
                    None => {
                        proof {
                            assert(hop_edge_relaxed(gs, grid_view(dist2@), v, h, k as int));
                        }
                    },
                }
                k = k + 1;
            }
        }
        proof {
            assert forall|u2: usize, h2: usize, k2: int|
                done.contains((u2, h2)) && h2 < max_hops && 0 <= k2
                    < gs[u2 as int].len() implies #[trigger] hop_edge_relaxed(
                gs,
                grid_view(dist2@),
                u2,
                h2,
                k2,
            ) by {}
            lemma_sum_grid_nonneg(grid_view(dist2@));
        }
    }
    proof {
        let dd = grid_view(dist2@);
        assert forall|pc: int|
            #[trigger] reaches_within(gs, source, destination, pc, max_hops as int) implies pc
            >= u32::MAX by {
            if pc < u32::MAX {
                let p = choose|p: Seq<usize>|
                    costed_path(gs, p, pc) && p[0] == source && p.last() == destination && p.len()
                        <= max_hops as int + 1;
                lemma_hop_empty(gs, source, max_hops, dd, done, fr@, p, pc);
                let eh = (p.len() - 1) as usize;
                assert(dd[destination as int][eh as int] <= pc);
                assert(!done.contains((destination, eh)));
                assert(fr@.contains((dd[destination as int][eh as int], destination, eh)));
                let j = choose|j: int|
                    0 <= j < fr@.len() && fr@[j] == (
                        dd[destination as int][eh as int],
                        destination,
                        eh,
                    );
                assert(false);
            }
        }
    }
    None
}

} // verus!
