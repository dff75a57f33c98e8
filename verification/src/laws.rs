//! The general laws of the library, proved once over the contracts of
//! the searches rather than over their code: any results meeting those
//! contracts are bound by them.

use vstd::prelude::*;
use crate::dijkstra::cap_count;
use crate::dijkstra::counts_recurrence;
use crate::dijkstra::edge_contrib;
use crate::dijkstra::preds_exact;
use crate::dijkstra::pred_link_ok;
use crate::dijkstra::tight_sum;
use crate::dijkstra::weights_positive;
use crate::dijkstra::row_contrib;
use crate::dijkstra::lemma_row_contrib_congruent;
use crate::dijkstra::lemma_nodes_contrib_congruent;
use crate::graph::wf_adjacency;
use crate::hops::bounded_result_ok;
use crate::hops::reaches_within;
use crate::paths::costed_path;
use crate::paths::dist_value_ok;
use crate::paths::dists_exact;
use crate::paths::lemma_costed_path_snoc;
use crate::paths::lemma_path_shorten;
use crate::paths::lemma_reaches_self;
use crate::paths::no_path_below;
use crate::paths::reaches_with;
use crate::paths::single_result_ok;
use crate::reconstruct::is_pred_path;

verus! {

/// The distance table of a source is unique: any two tables that meet
/// the exact-distance contract agree entry for entry. Hence the full
/// table, the table computed alongside the predecessor ledger, and any
/// repetition of either run over the same graph return identical values.
pub proof fn lemma_distance_table_unique(
    gs: Seq<Seq<(usize, u32)>>,
    s: usize,
    d1: Seq<u32>,
    d2: Seq<u32>,
)
    requires
        gs.len() <= usize::MAX,
        dists_exact(gs, s, d1),
        dists_exact(gs, s, d2),
    ensures
        d1 == d2,
{
    assert forall|v: usize| v < gs.len() implies d1[v as int] == d2[v as int] by {
        assert(dist_value_ok(gs, s, v, d1[v as int]));
        assert(dist_value_ok(gs, s, v, d2[v as int]));
        if d1[v as int] < u32::MAX {
            assert(reaches_with(gs, s, v, d1[v as int] as int));
            assert(d1[v as int] >= d2[v as int]);
        }
        if d2[v as int] < u32::MAX {
            assert(reaches_with(gs, s, v, d2[v as int] as int));
            assert(d2[v as int] >= d1[v as int]);
        }
    }
    assert(d1 =~= d2) by {
        assert forall|j: int| 0 <= j < d1.len() implies d1[j] == d2[j] by {
            assert(d1[(j as usize) as int] == d2[(j as usize) as int]);
        }
    }
}

/// The early-exit query agrees with the full table on every destination:
/// `Some` of the table's entry when it lies below the sentinel, `None`
/// when the table holds the sentinel.
pub proof fn lemma_single_matches_table(
    gs: Seq<Seq<(usize, u32)>>,
    s: usize,
    d: usize,
    dist: Seq<u32>,
    r: Option<u32>,
)
    requires
        d < gs.len(),
        dists_exact(gs, s, dist),
        single_result_ok(gs, s, d, r),
    ensures
        r == (if dist[d as int] < u32::MAX {
            Some(dist[d as int])
        } else {
            None::<u32>
        }),
{
    assert(dist_value_ok(gs, s, d, dist[d as int]));
    match r {
        Some(c) => {
            assert(reaches_with(gs, s, d, c as int));
            assert(c >= dist[d as int]);
            if dist[d as int] < u32::MAX {
                assert(reaches_with(gs, s, d, dist[d as int] as int));
                assert(dist[d as int] >= c);
            }
        },
        None => {
            if dist[d as int] < u32::MAX {
                assert(reaches_with(gs, s, d, dist[d as int] as int));
            }
        },
    }
}

/// A predecessor chain is a genuine path whose weights telescope: the
/// recursion behind the reconstruction law.
proof fn lemma_pred_chain_costed(
    gs: Seq<Seq<(usize, u32)>>,
    s: usize,
    dist: Seq<u32>,
    prev: Seq<Option<usize>>,
    p: Seq<usize>,
)
    requires
        wf_adjacency(gs),
        s < gs.len(),
        dist[s as int] == 0,
        preds_exact(gs, s, dist, prev),
        p.len() >= 1,
        p[0] == s,
        p.last() < gs.len(),
        forall|i: int| 0 < i < p.len() ==> (#[trigger] p[i]) != s,
        forall|i: int|
            0 <= i < p.len() - 1 ==> p[i + 1] < prev.len() && prev[p[i + 1] as int] == Some(
                #[trigger] p[i],
            ),
    ensures
        dist[p.last() as int] < u32::MAX,
        costed_path(gs, p, dist[p.last() as int] as int),
    decreases p.len(),
{
    if p.len() == 1 {
        assert(costed_path(gs, p, 0)) by {
            assert(p =~= seq![s]);
        }
    } else {
        let q = p.drop_last();
        assert(q.len() >= 1 && q[0] == s);
        assert(prev[p.last() as int] == Some(q.last())) by {
            assert(prev[p[p.len() - 2 + 1] as int] == Some(p[p.len() - 2]));
        }
        assert(pred_link_ok(gs, dist, q.last(), p.last()));
        assert forall|i: int| 0 < i < q.len() implies (#[trigger] q[i]) != s by {
            assert(q[i] == p[i]);
        }
        assert forall|i: int|
            0 <= i < q.len() - 1 implies q[i + 1] < prev.len() && prev[q[i + 1] as int] == Some(
                #[trigger] q[i],
            ) by {
            assert(q[i] == p[i] && q[i + 1] == p[i + 1]);
        }
        lemma_pred_chain_costed(gs, s, dist, prev, q);
        let w = choose|w: u32|
            crate::paths::has_edge(gs, q.last(), p.last(), w) && dist[q.last() as int] + w
                == dist[p.last() as int];
        lemma_costed_path_snoc(gs, q, dist[q.last() as int] as int, p.last(), w);
        assert(q.push(p.last()) =~= p);
    }
}

/// A route reconstructed from the search ledger is genuine: it starts at
/// the source, ends at the destination, has one node more than it has
/// edges, and some choice of weights along its edges sums to the
/// destination's exact shortest distance.
pub proof fn lemma_reconstructed_path_cost(
    gs: Seq<Seq<(usize, u32)>>,
    s: usize,
    dist: Seq<u32>,
    prev: Seq<Option<usize>>,
    d: usize,
    p: Seq<usize>,
)
    requires
        wf_adjacency(gs),
        s < gs.len(),
        d < gs.len(),
        dists_exact(gs, s, dist),
        preds_exact(gs, s, dist, prev),
        is_pred_path(prev, s, d, p),
    ensures
        p.len() >= 1,
        p[0] == s,
        p.last() == d,
        costed_path(gs, p, dist[d as int] as int),
        no_path_below(gs, s, d, dist[d as int] as int),
{
    assert(dist_value_ok(gs, s, s, dist[s as int]));
    lemma_reaches_self(gs, s);
    assert(dist[s as int] == 0) by {
        assert(reaches_with(gs, s, s, 0));
    }
    lemma_pred_chain_costed(gs, s, dist, prev, p);
    assert(dist_value_ok(gs, s, d, dist[d as int]));
}

/// A hop bound can only hurt: the bounded query never returns below the
/// unbounded one, and a destination the unbounded query cannot reach
/// stays unreachable under any bound.
pub proof fn lemma_bounded_at_least_unbounded(
    gs: Seq<Seq<(usize, u32)>>,
    s: usize,
    d: usize,
    h: int,
    ru: Option<u32>,
    rb: Option<u32>,
)
    requires
        single_result_ok(gs, s, d, ru),
        bounded_result_ok(gs, s, d, h, rb),
    ensures
        rb is Some ==> ru is Some && ru.unwrap() <= rb.unwrap(),
        ru is None ==> rb is None,
{
    if rb is Some {
        let cb = rb.unwrap();
        assert(reaches_within(gs, s, d, cb as int, h));
        let p = choose|p: Seq<usize>|
            costed_path(gs, p, cb as int) && p[0] == s && p.last() == d && p.len() <= h + 1;
        assert(reaches_with(gs, s, d, cb as int)) by {
            assert(costed_path(gs, p, cb as int) && p[0] == s && p.last() == d);
        }
        match ru {
            Some(cu) => {
                assert(cb >= cu);
            },
            None => {
                assert(cb >= u32::MAX);
                assert(false);
            },
        }
    }
}

/// Once the hop budget covers one fewer than the node count, the bound
/// no longer bites: the bounded query returns exactly the unbounded
/// answer, because any cheapest route shortens to one without repeated
/// nodes.
pub proof fn lemma_bounded_matches_unbounded_when_loose(
    gs: Seq<Seq<(usize, u32)>>,
    s: usize,
    d: usize,
    h: int,
    ru: Option<u32>,
    rb: Option<u32>,
)
    requires
        wf_adjacency(gs),
        single_result_ok(gs, s, d, ru),
        bounded_result_ok(gs, s, d, h, rb),
        h + 1 >= gs.len(),
        h >= 0,
    ensures
        rb == ru,
{
    lemma_bounded_at_least_unbounded(gs, s, d, h, ru, rb);
    match ru {
        None => {
            assert(rb is None);
        },
        Some(cu) => {
            assert(reaches_with(gs, s, d, cu as int));
            let p = choose|p: Seq<usize>|
                costed_path(gs, p, cu as int) && p[0] == s && p.last() == d;
            let sh = lemma_path_shorten(gs, p, cu as int);
            let q = sh.0;
            let cq = sh.1;
            assert(reaches_with(gs, s, d, cq)) by {
                assert(costed_path(gs, q, cq) && q[0] == s && q.last() == d);
            }
            assert(cq >= cu);
            assert(reaches_within(gs, s, d, cu as int, h)) by {
                assert(q.len() <= h + 1);
                assert(costed_path(gs, q, cu as int) && q[0] == s && q.last() == d);
            }
            match rb {
                None => {
                    assert(cu >= u32::MAX);
                    assert(false);
                },
                Some(cb) => {
                    assert(cu >= cb);
                    assert(cu <= cb);
                },
            }
        },
    }
}

/// Two tally tables obeying the recurrence over one distance table agree
/// at one reached node: the recursion behind tally uniqueness, well
/// founded because tight edges strictly lower the distance.
proof fn lemma_counts_agree_at(
    gs: Seq<Seq<(usize, u32)>>,
    s: usize,
    dist: Seq<u32>,
    c1: Seq<usize>,
    c2: Seq<usize>,
    v: usize,
)
    requires
        gs.len() <= usize::MAX,
        dist.len() == gs.len(),
        weights_positive(gs),
        counts_recurrence(gs, s, dist, c1),
        counts_recurrence(gs, s, dist, c2),
        v < gs.len(),
        dist[v as int] < u32::MAX,
    ensures
        c1[v as int] == c2[v as int],
    decreases dist[v as int],
{
    let full = Set::new(|u: usize| u < gs.len());
    assert forall|u: int|
        0 <= u < gs.len() implies row_contrib(
        gs,
        dist,
        c1,
        full,
        u as usize,
        gs[u].len() as int,
        v,
    ) == row_contrib(gs, dist, c2, full, u as usize, gs[u].len() as int, v) by {
        assert forall|k2: int|
            0 <= k2 < gs[u].len() implies (#[trigger] edge_contrib(
            gs,
            dist,
            c1,
            full,
            u as usize,
            k2,
            v,
        )) == edge_contrib(gs, dist, c2, full, u as usize, k2, v) by {
            let uu = u as usize;
            if full.contains(uu) && gs[u][k2].0 == v && dist[u] + gs[u][k2].1 == dist[v as int] {
                assert(gs[u][k2].1 >= 1);
                assert(dist[u] < dist[v as int]);
                lemma_counts_agree_at(gs, s, dist, c1, c2, uu);
            }
        }
        lemma_row_contrib_congruent(
            gs,
            dist,
            c1,
            full,
            dist,
            c2,
            full,
            u as usize,
            gs[u].len() as int,
            v,
        );
    }
    lemma_nodes_contrib_congruent(gs, dist, c1, full, dist, c2, full, gs.len() as int, v);
    assert(c1[v as int] as int == cap_count(
        (if v == s {
            1int
        } else {
            0int
        }) + tight_sum(gs, dist, c1, full, v),
    ));
    assert(c2[v as int] as int == cap_count(
        (if v == s {
            1int
        } else {
            0int
        }) + tight_sum(gs, dist, c2, full, v),
    ));
}

/// Under positive weights the tight-edge recurrence pins the tallies:
/// any two tables satisfying it over one distance table agree on every
/// reached node, so the counting query's result is fully determined by
/// the graph, the source and the destination.
pub proof fn lemma_counts_recurrence_unique(
    gs: Seq<Seq<(usize, u32)>>,
    s: usize,
    dist: Seq<u32>,
    c1: Seq<usize>,
    c2: Seq<usize>,
)
    requires
        gs.len() <= usize::MAX,
        dist.len() == gs.len(),
        weights_positive(gs),
        counts_recurrence(gs, s, dist, c1),
        counts_recurrence(gs, s, dist, c2),
    ensures
        forall|v: usize|
            v < gs.len() && (#[trigger] dist[v as int]) < u32::MAX ==> c1[v as int] == c2[v as int],
{
    assert forall|v: usize|
        v < gs.len() && (#[trigger] dist[v as int]) < u32::MAX implies c1[v as int] == c2[v as int] by {
        lemma_counts_agree_at(gs, s, dist, c1, c2, v);
    }
}

} // verus!
