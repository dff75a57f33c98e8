//! The relaxation core and the searches built on it.
//!
//! All variants share one loop shape: pop the cheapest frontier entry,
//! discard it if it is stale (its cost exceeds the node's current table
//! entry), otherwise finalize the node and relax its outgoing edges,
//! re-queueing every target whose table entry strictly drops. The
//! invariants below capture why this is exact: a finalized node is
//! optimal because any path to a not-yet-finalized node must pass through
//! a pending frontier entry, which the popped minimum bounds from below.

use vstd::prelude::*;
use crate::frontier::Frontier;
use crate::frontier::entry_le;
use crate::graph::Graph;
use crate::graph::wf_adjacency;
use crate::paths::costed_path;
use crate::paths::dist_value_ok;
use crate::paths::dists_exact;
use crate::paths::has_edge;
use crate::paths::lemma_costed_path_in_range;
use crate::paths::lemma_costed_path_snoc;
use crate::paths::lemma_costed_path_unsnoc;
use crate::paths::no_path_below;
use crate::paths::reachable_below_inf;
use crate::paths::reaches_with;
use crate::paths::single_result_ok;
use crate::reconstruct::resolves;
use crate::reconstruct::lemma_resolves_mono;
use crate::tables::table_set;

verus! {

/// Sum of a distance table; with the frontier length it forms the loop
/// termination measure, since every push strictly lowers a table entry.
pub open spec fn sum_u32(s: Seq<u32>) -> int
    decreases s.len(),
{
    if s.len() == 0 {
        0
    } else {
        sum_u32(s.drop_last()) + s.last()
    }
}

pub proof fn lemma_sum_u32_nonneg(s: Seq<u32>)
    ensures
        sum_u32(s) >= 0,
    decreases s.len(),
{
    if s.len() > 0 {
        lemma_sum_u32_nonneg(s.drop_last());
    }
}

pub proof fn lemma_sum_u32_update(s: Seq<u32>, i: int, x: u32)
    requires
        0 <= i < s.len(),
    ensures
        sum_u32(s.update(i, x)) == sum_u32(s) - s[i] + x,
    decreases s.len(),
{
    if i == s.len() - 1 {
        assert(s.update(i, x).drop_last() =~= s.drop_last());
        assert(s.update(i, x).last() == x);
    } else {
        assert(s.update(i, x).drop_last() =~= s.drop_last().update(i, x));
        lemma_sum_u32_update(s.drop_last(), i, x);
        assert(s.update(i, x).last() == s.last());
    }
}

/// A frontier entry names a valid node, never undercuts the node's table
/// entry, and carries a finite cost.
pub open spec fn entry_ok(gs: Seq<Seq<(usize, u32)>>, dist: Seq<u32>, e: (u32, usize)) -> bool {
    &&& e.1 < gs.len()
    &&& dist[e.1 as int] <= e.0
    &&& e.0 < u32::MAX
}

/// Edge `k` out of `v` cannot improve its target's table entry.
pub open spec fn edge_relaxed(gs: Seq<Seq<(usize, u32)>>, dist: Seq<u32>, v: usize, k: int) -> bool {
    dist[v as int] + gs[v as int][k].1 < u32::MAX ==> dist[gs[v as int][k].0 as int] <= dist[v as int]
        + gs[v as int][k].1
}

/// Every outgoing edge of every finalized node is fully relaxed.
pub open spec fn all_relaxed(gs: Seq<Seq<(usize, u32)>>, dist: Seq<u32>, done: Set<usize>) -> bool {
    forall|v: usize, k: int|
        done.contains(v) && 0 <= k < gs[v as int].len() ==> #[trigger] edge_relaxed(gs, dist, v, k)
}

/// The state invariant of the relaxation core, between pops.
pub open spec fn inv_base(
    gs: Seq<Seq<(usize, u32)>>,
    s: usize,
    dist: Seq<u32>,
    done: Set<usize>,
    fr: Seq<(u32, usize)>,
) -> bool {
    &&& wf_adjacency(gs)
    &&& s < gs.len()
    &&& dist.len() == gs.len()
    &&& dist[s as int] == 0
    // every finite table entry is witnessed by an actual path
    &&& forall|v: usize|
        v < gs.len() && (#[trigger] dist[v as int]) < u32::MAX ==> reaches_with(
            gs,
            s,
            v as usize,
            dist[v as int] as int,
        )
    // every frontier entry is sound
    &&& forall|i: int| 0 <= i < fr.len() ==> entry_ok(gs, dist, #[trigger] fr[i])
    // every pending node sits in the frontier at its current table entry
    &&& forall|v: usize|
        v < gs.len() && !done.contains(v) && (#[trigger] dist[v as int]) < u32::MAX
            ==> fr.contains((dist[v as int], v))
    // finalized nodes are optimal
    &&& forall|v: usize|
        #[trigger] done.contains(v) ==> v < gs.len() && dist[v as int] < u32::MAX && no_path_below(
            gs,
            s,
            v,
            dist[v as int] as int,
        )
    // entries for one node carry pairwise distinct costs
    &&& forall|i: int, j: int|
        0 <= i < fr.len() && 0 <= j < fr.len() && i != j && (#[trigger] fr[i]).1 == (
        #[trigger] fr[j]).1 ==> fr[i].0 != fr[j].0
    // entries for finalized nodes are strictly stale
    &&& forall|i: int|
        0 <= i < fr.len() && done.contains((#[trigger] fr[i]).1) ==> fr[i].0 > dist[fr[i].1 as int]
}

/// One predecessor link: an edge from `u` closes `v`'s exact distance.
pub open spec fn pred_link_ok(
    gs: Seq<Seq<(usize, u32)>>,
    dist: Seq<u32>,
    u: usize,
    v: usize,
) -> bool {
    &&& u < gs.len()
    &&& v < gs.len()
    &&& dist[u as int] < u32::MAX
    &&& dist[v as int] < u32::MAX
    &&& exists|w: u32| has_edge(gs, u, v, w) && dist[u as int] + w == dist[v as int]
}

/// The predecessor table is exactly the ledger of the finished search:
/// `None` for the source and the unreached, one exact incoming link for
/// everything else, and a backward walk from any recorded node settles.
pub open spec fn preds_exact(
    gs: Seq<Seq<(usize, u32)>>,
    s: usize,
    dist: Seq<u32>,
    prev: Seq<Option<usize>>,
) -> bool {
    &&& prev.len() == gs.len()
    &&& s < gs.len() ==> prev[s as int] is None
    &&& forall|v: usize|
        v < gs.len() && (#[trigger] prev[v as int]) is Some ==> v != s && pred_link_ok(
            gs,
            dist,
            prev[v as int].unwrap(),
            v as usize,
        )
    &&& forall|v: usize|
        v < gs.len() && v != s && (#[trigger] dist[v as int]) < u32::MAX ==> prev[v as int] is Some
    &&& forall|v: usize| v < gs.len() && (#[trigger] dist[v as int]) == u32::MAX ==> prev[v as int] is None
    &&& forall|v: usize|
        v < gs.len() && (#[trigger] dist[v as int]) < u32::MAX ==> exists|f: nat|
            #[trigger] resolves(prev, s, v as usize, f)
}

/// The ghost ledger invariant: predecessor links, path counts, and the
/// finalization ranks that make the predecessor chains well-founded.
pub open spec fn ledger_inv(
    gs: Seq<Seq<(usize, u32)>>,
    s: usize,
    dist: Seq<u32>,
    done: Set<usize>,
    prev: Seq<Option<usize>>,
    cnt: Seq<usize>,
    rank: Map<usize, nat>,
    stamp: nat,
) -> bool {
    &&& prev.len() == gs.len()
    &&& cnt.len() == gs.len()
    &&& prev[s as int] is None
    &&& forall|v: usize|
        v < gs.len() && (#[trigger] prev[v as int]) is Some ==> v != s && pred_link_ok(
            gs,
            dist,
            prev[v as int].unwrap(),
            v as usize,
        ) && done.contains(prev[v as int].unwrap())
    &&& forall|v: usize|
        v < gs.len() && v != s && (#[trigger] dist[v as int]) < u32::MAX ==> prev[v as int] is Some
    &&& forall|v: usize| v < gs.len() && (#[trigger] dist[v as int]) == u32::MAX ==> prev[v as int] is None
    &&& rank.dom() == done
    &&& forall|v: usize| #[trigger] rank.dom().contains(v) ==> rank[v] < stamp
    &&& forall|v: usize|
        v < gs.len() && (#[trigger] prev[v as int]) is Some && rank.dom().contains(v)
            ==> rank[prev[v as int].unwrap()] < rank[v]
    &&& forall|v: usize| v < gs.len() ==> (((#[trigger] cnt[v as int]) > 0) <==> dist[v as int] < u32::MAX)
}

/// Caps a mathematical tally at the saturation ceiling of the stored
/// counts.
pub open spec fn cap_count(x: int) -> int {
    if x < usize::MAX {
        x
    } else {
        usize::MAX as int
    }
}

/// Every edge weight is at least one. Path counting is exact only then:
/// zero-weight edges let equal-cost alternatives reach a node after it
/// was finalized, when its tally no longer listens.
pub open spec fn weights_positive(gs: Seq<Seq<(usize, u32)>>) -> bool {
    forall|u: int, k: int|
        0 <= u < gs.len() && 0 <= k < gs[u].len() ==> (#[trigger] gs[u][k]).1 >= 1
}

/// What edge `k` out of `u` feeds into `v`'s tally: `u`'s own count when
/// `u` is a settled member and the edge is tight (it closes `v`'s exact
/// distance), nothing otherwise.
pub open spec fn edge_contrib(
    gs: Seq<Seq<(usize, u32)>>,
    dist: Seq<u32>,
    cnt: Seq<usize>,
    members: Set<usize>,
    u: usize,
    k: int,
    v: usize,
) -> int {
    if members.contains(u) && gs[u as int][k].0 == v && dist[u as int] + gs[u as int][k].1
        == dist[v as int] {
        cnt[u as int] as int
    } else {
        0
    }
}

/// Tally fed into `v` by the first `upto` edges of `u`.
pub open spec fn row_contrib(
    gs: Seq<Seq<(usize, u32)>>,
    dist: Seq<u32>,
    cnt: Seq<usize>,
    members: Set<usize>,
    u: usize,
    upto: int,
    v: usize,
) -> int
    decreases upto,
{
    if upto <= 0 {
        0
    } else {
        row_contrib(gs, dist, cnt, members, u, upto - 1, v) + edge_contrib(
            gs,
            dist,
            cnt,
            members,
            u,
            upto - 1,
            v,
        )
    }
}

/// Tally fed into `v` by the first `un` nodes.
pub open spec fn nodes_contrib(
    gs: Seq<Seq<(usize, u32)>>,
    dist: Seq<u32>,
    cnt: Seq<usize>,
    members: Set<usize>,
    un: int,
    v: usize,
) -> int
    decreases un,
{
    if un <= 0 {
        0
    } else {
        nodes_contrib(gs, dist, cnt, members, un - 1, v) + row_contrib(
            gs,
            dist,
            cnt,
            members,
            (un - 1) as usize,
            gs[un - 1].len() as int,
            v,
        )
    }
}

/// The whole tally flowing into `v` along tight edges from `members`.
pub open spec fn tight_sum(
    gs: Seq<Seq<(usize, u32)>>,
    dist: Seq<u32>,
    cnt: Seq<usize>,
    members: Set<usize>,
    v: usize,
) -> int {
    nodes_contrib(gs, dist, cnt, members, gs.len() as int, v)
}

/// The law the finished tallies obey under positive weights: each
/// reached node holds the capped sum of the counts along its tight
/// incoming edges, plus one for being the source. Over the tight-edge
/// graph — acyclic, since weights are positive — this recurrence is
/// exactly the shortest-path count, saturating at `usize::MAX`.
pub open spec fn counts_recurrence(
    gs: Seq<Seq<(usize, u32)>>,
    s: usize,
    dist: Seq<u32>,
    cnt: Seq<usize>,
) -> bool {
    forall|v: usize|
        v < gs.len() && (#[trigger] dist[v as int]) < u32::MAX ==> cnt[v as int] == cap_count(
            (if v == s {
                1int
            } else {
                0int
            }) + tight_sum(gs, dist, cnt, Set::new(|u: usize| u < gs.len()), v),
        )
}

/// Row tallies agree wherever their per-edge contributions agree.
pub(crate) proof fn lemma_row_contrib_congruent(
    gs: Seq<Seq<(usize, u32)>>,
    d1: Seq<u32>,
    c1: Seq<usize>,
    m1: Set<usize>,
    d2: Seq<u32>,
    c2: Seq<usize>,
    m2: Set<usize>,
    u: usize,
    upto: int,
    v: usize,
)
    requires
        forall|k: int|
            0 <= k < upto ==> edge_contrib(gs, d1, c1, m1, u, k, v) == edge_contrib(
                gs,
                d2,
                c2,
                m2,
                u,
                k,
                v,
            ),
    ensures
        row_contrib(gs, d1, c1, m1, u, upto, v) == row_contrib(gs, d2, c2, m2, u, upto, v),
    decreases upto,
{
    if upto > 0 {
        lemma_row_contrib_congruent(gs, d1, c1, m1, d2, c2, m2, u, upto - 1, v);
    }
}

/// A row whose edges all contribute nothing tallies to zero.
proof fn lemma_row_contrib_zero(
    gs: Seq<Seq<(usize, u32)>>,
    dist: Seq<u32>,
    cnt: Seq<usize>,
    members: Set<usize>,
    u: usize,
    upto: int,
    v: usize,
)
    requires
        forall|k: int| 0 <= k < upto ==> edge_contrib(gs, dist, cnt, members, u, k, v) == 0,
    ensures
        row_contrib(gs, dist, cnt, members, u, upto, v) == 0,
    decreases upto,
{
    if upto > 0 {
        lemma_row_contrib_zero(gs, dist, cnt, members, u, upto - 1, v);
    }
}

/// Node tallies agree wherever their per-row tallies agree.
pub(crate) proof fn lemma_nodes_contrib_congruent(
    gs: Seq<Seq<(usize, u32)>>,
    d1: Seq<u32>,
    c1: Seq<usize>,
    m1: Set<usize>,
    d2: Seq<u32>,
    c2: Seq<usize>,
    m2: Set<usize>,
    un: int,
    v: usize,
)
    requires
        forall|u: int|
            0 <= u < un ==> row_contrib(gs, d1, c1, m1, u as usize, gs[u].len() as int, v)
                == row_contrib(gs, d2, c2, m2, u as usize, gs[u].len() as int, v),
    ensures
        nodes_contrib(gs, d1, c1, m1, un, v) == nodes_contrib(gs, d2, c2, m2, un, v),
    decreases un,
{
    if un > 0 {
        lemma_nodes_contrib_congruent(gs, d1, c1, m1, d2, c2, m2, un - 1, v);
    }
}

/// A node tally shifts by exactly the shift of one of its rows when
/// every other row tallies the same.
proof fn lemma_nodes_contrib_diff_one(
    gs: Seq<Seq<(usize, u32)>>,
    d1: Seq<u32>,
    c1: Seq<usize>,
    m1: Set<usize>,
    d2: Seq<u32>,
    c2: Seq<usize>,
    m2: Set<usize>,
    u0: usize,
    delta: int,
    un: int,
    v: usize,
)
    requires
        forall|u: int|
            0 <= u < un && u != u0 ==> row_contrib(gs, d1, c1, m1, u as usize, gs[u].len() as int, v)
                == row_contrib(gs, d2, c2, m2, u as usize, gs[u].len() as int, v),
        row_contrib(gs, d2, c2, m2, u0, gs[u0 as int].len() as int, v) == row_contrib(
            gs,
            d1,
            c1,
            m1,
            u0,
            gs[u0 as int].len() as int,
            v,
        ) + delta,
    ensures
        nodes_contrib(gs, d2, c2, m2, un, v) == nodes_contrib(gs, d1, c1, m1, un, v) + (
        if u0 < un {
            delta
        } else {
            0
        }),
    decreases un,
{
    if un > 0 {
        lemma_nodes_contrib_diff_one(gs, d1, c1, m1, d2, c2, m2, u0, delta, un - 1, v);
    }
}

/// A node tally over rows that all tally zero is zero.
proof fn lemma_nodes_contrib_zero(
    gs: Seq<Seq<(usize, u32)>>,
    dist: Seq<u32>,
    cnt: Seq<usize>,
    members: Set<usize>,
    un: int,
    v: usize,
)
    requires
        forall|u: int|
            0 <= u < un ==> row_contrib(gs, dist, cnt, members, u as usize, gs[u].len() as int, v)
                == 0,
    ensures
        nodes_contrib(gs, dist, cnt, members, un, v) == 0,
    decreases un,
{
    if un > 0 {
        lemma_nodes_contrib_zero(gs, dist, cnt, members, un - 1, v);
    }
}

/// A whole tally whose every member edge feeds nothing is zero.
proof fn lemma_tight_sum_zero(
    gs: Seq<Seq<(usize, u32)>>,
    dist: Seq<u32>,
    cnt: Seq<usize>,
    members: Set<usize>,
    v: usize,
)
    requires
        gs.len() <= usize::MAX,
        forall|u: usize, k: int|
            members.contains(u) && u < gs.len() && 0 <= k < gs[u as int].len() ==> edge_contrib(
                gs,
                dist,
                cnt,
                members,
                u,
                k,
                v,
            ) == 0,
    ensures
        tight_sum(gs, dist, cnt, members, v) == 0,
{
    assert forall|u: int|
        0 <= u < gs.len() implies row_contrib(
        gs,
        dist,
        cnt,
        members,
        u as usize,
        gs[u].len() as int,
        v,
    ) == 0 by {
        assert forall|k: int|
            0 <= k < gs[u].len() implies (#[trigger] edge_contrib(
            gs,
            dist,
            cnt,
            members,
            u as usize,
            k,
            v,
        )) == 0 by {
            if !members.contains(u as usize) {
            }
        }
        lemma_row_contrib_zero(gs, dist, cnt, members, u as usize, gs[u].len() as int, v);
    }
    lemma_nodes_contrib_zero(gs, dist, cnt, members, gs.len() as int, v);
}

/// The mid-run tally law: every reached node holds the capped sum of
/// what the settled members feed it, plus what the first `xk` edges of
/// the node in hand, under membership `rowm`, have fed it so far.
pub open spec fn counts_mid(
    gs: Seq<Seq<(usize, u32)>>,
    s: usize,
    dist: Seq<u32>,
    cnt: Seq<usize>,
    counted: Set<usize>,
    rowm: Set<usize>,
    xu: usize,
    xk: int,
) -> bool {
    forall|y: usize|
        y < gs.len() && (#[trigger] dist[y as int]) < u32::MAX ==> cnt[y as int] as int
            == cap_count(
            (if y == s {
                1int
            } else {
                0int
            }) + tight_sum(gs, dist, cnt, counted, y) + row_contrib(gs, dist, cnt, rowm, xu, xk, y),
        )
}

/// The tally law does not care which idle row it carries while that row
/// is still empty.
proof fn lemma_count_rebase(
    gs: Seq<Seq<(usize, u32)>>,
    s: usize,
    dist: Seq<u32>,
    cnt: Seq<usize>,
    counted: Set<usize>,
    m1: Set<usize>,
    u1: usize,
    m2: Set<usize>,
    u2: usize,
)
    requires
        counts_mid(gs, s, dist, cnt, counted, m1, u1, 0),
    ensures
        counts_mid(gs, s, dist, cnt, counted, m2, u2, 0),
{
    assert forall|y: usize|
        y < gs.len() && (#[trigger] dist[y as int]) < u32::MAX implies cnt[y as int] as int
        == cap_count(
        (if y == s {
            1int
        } else {
            0int
        }) + tight_sum(gs, dist, cnt, counted, y) + row_contrib(gs, dist, cnt, m2, u2, 0, y),
    ) by {
        assert(row_contrib(gs, dist, cnt, m1, u1, 0, y) == 0);
        assert(row_contrib(gs, dist, cnt, m2, u2, 0, y) == 0);
    }
}

/// The tally law at the very start: one route to the source, nothing
/// settled, everything else unreached.
proof fn lemma_count_init(
    gs: Seq<Seq<(usize, u32)>>,
    s: usize,
    dist: Seq<u32>,
    cnt: Seq<usize>,
)
    requires
        gs.len() <= usize::MAX,
        s < gs.len(),
        dist.len() == gs.len(),
        cnt.len() == gs.len(),
        cnt[s as int] == 1,
        forall|y: usize| y < gs.len() && y != s ==> (#[trigger] dist[y as int]) == u32::MAX,
    ensures
        counts_mid(gs, s, dist, cnt, Set::empty(), Set::empty(), s, 0),
{
    assert forall|y: usize|
        y < gs.len() && (#[trigger] dist[y as int]) < u32::MAX implies cnt[y as int] as int
        == cap_count(
        (if y == s {
            1int
        } else {
            0int
        }) + tight_sum(gs, dist, cnt, Set::<usize>::empty(), y) + row_contrib(
            gs,
            dist,
            cnt,
            Set::<usize>::empty(),
            s,
            0,
            y,
        ),
    ) by {
        assert(y == s);
        lemma_tight_sum_zero(gs, dist, cnt, Set::<usize>::empty(), y);
    }
}

/// Extending the in-flight row by an edge that feeds nothing keeps the
/// tally law.
proof fn lemma_count_idle_edge(
    gs: Seq<Seq<(usize, u32)>>,
    s: usize,
    dist: Seq<u32>,
    cnt: Seq<usize>,
    counted: Set<usize>,
    rowm: Set<usize>,
    xu: usize,
    xk: int,
)
    requires
        counts_mid(gs, s, dist, cnt, counted, rowm, xu, xk),
        0 <= xk,
        forall|y: usize|
            y < gs.len() && dist[y as int] < u32::MAX ==> #[trigger] edge_contrib(
                gs,
                dist,
                cnt,
                rowm,
                xu,
                xk,
                y,
            ) == 0,
    ensures
        counts_mid(gs, s, dist, cnt, counted, rowm, xu, xk + 1),
{
    assert forall|y: usize|
        y < gs.len() && (#[trigger] dist[y as int]) < u32::MAX implies cnt[y as int] as int
        == cap_count(
        (if y == s {
            1int
        } else {
            0int
        }) + tight_sum(gs, dist, cnt, counted, y) + row_contrib(gs, dist, cnt, rowm, xu, xk + 1, y),
    ) by {
        assert(row_contrib(gs, dist, cnt, rowm, xu, xk + 1, y) == row_contrib(
            gs,
            dist,
            cnt,
            rowm,
            xu,
            xk,
            y,
        ) + edge_contrib(gs, dist, cnt, rowm, xu, xk, y));
    }
}

/// One strict relaxation re-founds the target's tally on the single
/// fresh tight edge: everything settled, and every already-processed
/// edge of the row, now overshoots the target's lowered entry.
proof fn lemma_count_strict(
    gs: Seq<Seq<(usize, u32)>>,
    s: usize,
    dist: Seq<u32>,
    cnt: Seq<usize>,
    counted: Set<usize>,
    rowm: Set<usize>,
    v: usize,
    k: int,
    x: usize,
    w: u32,
    nc: u32,
)
    requires
        gs.len() <= usize::MAX,
        counts_mid(gs, s, dist, cnt, counted, rowm, v, k),
        dist.len() == gs.len(),
        cnt.len() == gs.len(),
        v < gs.len(),
        x < gs.len(),
        0 <= k < gs[v as int].len(),
        gs[v as int][k] == (x, w),
        nc as int == dist[v as int] + w,
        nc < dist[x as int],
        rowm.contains(v),
        !counted.contains(x),
        !rowm.contains(x),
        x != s,
        dist[v as int] < u32::MAX,
        forall|u: usize, k2: int|
            counted.contains(u) && 0 <= k2 < gs[u as int].len() ==> #[trigger] edge_relaxed(
                gs,
                dist,
                u,
                k2,
            ),
        forall|k2: int| 0 <= k2 < k ==> #[trigger] edge_relaxed(gs, dist, v, k2),
    ensures
        counts_mid(
            gs,
            s,
            dist.update(x as int, nc),
            cnt.update(x as int, cnt[v as int]),
            counted,
            rowm,
            v,
            k + 1,
        ),
{
    let d2 = dist.update(x as int, nc);
    let c2 = cnt.update(x as int, cnt[v as int]);
    assert forall|y: usize|
        y < gs.len() && (#[trigger] d2[y as int]) < u32::MAX implies c2[y as int] as int
        == cap_count(
        (if y == s {
            1int
        } else {
            0int
        }) + tight_sum(gs, d2, c2, counted, y) + row_contrib(gs, d2, c2, rowm, v, k + 1, y),
    ) by {
        if y == x {
            assert forall|u: usize, k2: int|
                counted.contains(u) && u < gs.len() && 0 <= k2 < gs[u as int].len() implies (
            #[trigger] edge_contrib(gs, d2, c2, counted, u, k2, x)) == 0 by {
                assert(u != x);
                assert(d2[u as int] == dist[u as int]);
                assert(edge_relaxed(gs, dist, u, k2));
                if gs[u as int][k2].0 == x {
                    if dist[u as int] + gs[u as int][k2].1 < u32::MAX {
                        assert(dist[x as int] <= dist[u as int] + gs[u as int][k2].1);
                    }
                }
            }
            lemma_tight_sum_zero(gs, d2, c2, counted, x);
            assert forall|k2: int|
                0 <= k2 < k implies (#[trigger] edge_contrib(gs, d2, c2, rowm, v, k2, x)) == 0 by {
                assert(edge_relaxed(gs, dist, v, k2));
                assert(d2[v as int] == dist[v as int]);
                if gs[v as int][k2].0 == x {
                    if dist[v as int] + gs[v as int][k2].1 < u32::MAX {
                        assert(dist[x as int] <= dist[v as int] + gs[v as int][k2].1);
                    }
                }
            }
            lemma_row_contrib_zero(gs, d2, c2, rowm, v, k, x);
            assert(edge_contrib(gs, d2, c2, rowm, v, k, x) == c2[v as int] as int);
            assert(c2[v as int] == cnt[v as int]);
            assert(c2[x as int] == cnt[v as int]);
        } else {
            assert(d2[y as int] == dist[y as int]);
            assert(c2[y as int] == cnt[y as int]);
            assert forall|u: int|
                0 <= u < gs.len() implies row_contrib(
                gs,
                d2,
                c2,
                counted,
                u as usize,
                gs[u].len() as int,
                y,
            ) == row_contrib(gs, dist, cnt, counted, u as usize, gs[u].len() as int, y) by {
                assert forall|k2: int|
                    0 <= k2 < gs[u].len() implies (#[trigger] edge_contrib(
                    gs,
                    d2,
                    c2,
                    counted,
                    u as usize,
                    k2,
                    y,
                )) == edge_contrib(gs, dist, cnt, counted, u as usize, k2, y) by {
                    if counted.contains(u as usize) {
                        assert(u as usize != x);
                        assert(d2[u] == dist[u]);
                        assert(c2[u] == cnt[u]);
                    }
                }
                lemma_row_contrib_congruent(
                    gs,
                    d2,
                    c2,
                    counted,
                    dist,
                    cnt,
                    counted,
                    u as usize,
                    gs[u].len() as int,
                    y,
                );
            }
            lemma_nodes_contrib_congruent(
                gs,
                d2,
                c2,
                counted,
                dist,
                cnt,
                counted,
                gs.len() as int,
                y,
            );
            assert forall|k2: int|
                0 <= k2 < k implies (#[trigger] edge_contrib(gs, d2, c2, rowm, v, k2, y)) == edge_contrib(
                gs,
                dist,
                cnt,
                rowm,
                v,
                k2,
                y,
            ) by {
                assert(d2[v as int] == dist[v as int]);
                assert(c2[v as int] == cnt[v as int]);
            }
            lemma_row_contrib_congruent(gs, d2, c2, rowm, dist, cnt, rowm, v, k, y);
            assert(edge_contrib(gs, d2, c2, rowm, v, k, y) == 0);
        }
    }
}

/// An equal-cost alternative adds the row node's count to the target's
/// tally, saturating exactly as the capped law says.
proof fn lemma_count_equal(
    gs: Seq<Seq<(usize, u32)>>,
    s: usize,
    dist: Seq<u32>,
    cnt: Seq<usize>,
    counted: Set<usize>,
    rowm: Set<usize>,
    v: usize,
    k: int,
    x: usize,
    w: u32,
    merged: usize,
)
    requires
        gs.len() <= usize::MAX,
        counts_mid(gs, s, dist, cnt, counted, rowm, v, k),
        dist.len() == gs.len(),
        cnt.len() == gs.len(),
        v < gs.len(),
        x < gs.len(),
        0 <= k < gs[v as int].len(),
        gs[v as int][k] == (x, w),
        dist[v as int] + w == dist[x as int],
        dist[x as int] < u32::MAX,
        rowm.contains(v),
        !counted.contains(x),
        !rowm.contains(x),
        merged as int == cap_count(cnt[x as int] + cnt[v as int]),
    ensures
        counts_mid(gs, s, dist, cnt.update(x as int, merged), counted, rowm, v, k + 1),
{
    let c2 = cnt.update(x as int, merged);
    assert forall|y: usize|
        y < gs.len() && (#[trigger] dist[y as int]) < u32::MAX implies c2[y as int] as int
        == cap_count(
        (if y == s {
            1int
        } else {
            0int
        }) + tight_sum(gs, dist, c2, counted, y) + row_contrib(gs, dist, c2, rowm, v, k + 1, y),
    ) by {
        assert forall|u: int|
            0 <= u < gs.len() implies row_contrib(
            gs,
            dist,
            c2,
            counted,
            u as usize,
            gs[u].len() as int,
            y,
        ) == row_contrib(gs, dist, cnt, counted, u as usize, gs[u].len() as int, y) by {
            assert forall|k2: int|
                0 <= k2 < gs[u].len() implies (#[trigger] edge_contrib(
                gs,
                dist,
                c2,
                counted,
                u as usize,
                k2,
                y,
            )) == edge_contrib(gs, dist, cnt, counted, u as usize, k2, y) by {
                if counted.contains(u as usize) {
                    assert(u as usize != x);
                    assert(c2[u] == cnt[u]);
                }
            }
            lemma_row_contrib_congruent(
                gs,
                dist,
                c2,
                counted,
                dist,
                cnt,
                counted,
                u as usize,
                gs[u].len() as int,
                y,
            );
        }
        lemma_nodes_contrib_congruent(gs, dist, c2, counted, dist, cnt, counted, gs.len() as int, y);
        assert forall|k2: int|
            0 <= k2 < k implies (#[trigger] edge_contrib(gs, dist, c2, rowm, v, k2, y)) == edge_contrib(
            gs,
            dist,
            cnt,
            rowm,
            v,
            k2,
            y,
        ) by {
            assert(c2[v as int] == cnt[v as int]);
        }
        lemma_row_contrib_congruent(gs, dist, c2, rowm, dist, cnt, rowm, v, k, y);
        if y == x {
            assert(edge_contrib(gs, dist, c2, rowm, v, k, x) == c2[v as int] as int);
            assert(c2[v as int] == cnt[v as int]);
            let base = (if x == s {
                1int
            } else {
                0int
            }) + tight_sum(gs, dist, cnt, counted, x) + row_contrib(gs, dist, cnt, rowm, v, k, x);
            assert(cnt[x as int] as int == cap_count(base));
            if base < usize::MAX {
                assert(merged as int == cap_count(base + cnt[v as int]));
            } else {
                assert(cnt[x as int] == usize::MAX);
                assert(merged == usize::MAX);
                assert(base + cnt[v as int] >= usize::MAX);
            }
        } else {
            assert(edge_contrib(gs, dist, c2, rowm, v, k, y) == 0);
        }
    }
}

/// Settling the node in hand folds its finished row into the membership
/// tally.
proof fn lemma_count_fold(
    gs: Seq<Seq<(usize, u32)>>,
    s: usize,
    dist: Seq<u32>,
    cnt: Seq<usize>,
    counted: Set<usize>,
    v: usize,
)
    requires
        gs.len() <= usize::MAX,
        counts_mid(gs, s, dist, cnt, counted, counted.insert(v), v, gs[v as int].len() as int),
        !counted.contains(v),
        v < gs.len(),
    ensures
        counts_mid(gs, s, dist, cnt, counted.insert(v), counted.insert(v), v, 0),
{
    let m2 = counted.insert(v);
    assert forall|y: usize|
        y < gs.len() && (#[trigger] dist[y as int]) < u32::MAX implies cnt[y as int] as int
        == cap_count(
        (if y == s {
            1int
        } else {
            0int
        }) + tight_sum(gs, dist, cnt, m2, y) + row_contrib(gs, dist, cnt, m2, v, 0, y),
    ) by {
        assert forall|u: int|
            0 <= u < gs.len() && u != v as int implies row_contrib(
            gs,
            dist,
            cnt,
            counted,
            u as usize,
            gs[u].len() as int,
            y,
        ) == row_contrib(gs, dist, cnt, m2, u as usize, gs[u].len() as int, y) by {
            assert forall|k2: int|
                0 <= k2 < gs[u].len() implies (#[trigger] edge_contrib(
                gs,
                dist,
                cnt,
                counted,
                u as usize,
                k2,
                y,
            )) == edge_contrib(gs, dist, cnt, m2, u as usize, k2, y) by {
                assert(counted.contains(u as usize) == m2.contains(u as usize));
            }
            lemma_row_contrib_congruent(
                gs,
                dist,
                cnt,
                counted,
                dist,
                cnt,
                m2,
                u as usize,
                gs[u].len() as int,
                y,
            );
        }
        assert forall|k2: int|
            0 <= k2 < gs[v as int].len() implies (#[trigger] edge_contrib(
            gs,
            dist,
            cnt,
            counted,
            v,
            k2,
            y,
        )) == 0 by {}
        lemma_row_contrib_zero(gs, dist, cnt, counted, v, gs[v as int].len() as int, y);
        lemma_nodes_contrib_diff_one(
            gs,
            dist,
            cnt,
            counted,
            dist,
            cnt,
            m2,
            v,
            row_contrib(gs, dist, cnt, m2, v, gs[v as int].len() as int, y),
            gs.len() as int,
            y,
        );
    }
}

/// At the end of a run the settled membership is invisible: every node a
/// tight edge could start from was settled, so the mid-run law becomes
/// the final recurrence over the whole node set.
proof fn lemma_count_finish(
    gs: Seq<Seq<(usize, u32)>>,
    s: usize,
    dist: Seq<u32>,
    cnt: Seq<usize>,
    counted: Set<usize>,
)
    requires
        gs.len() <= usize::MAX,
        counts_mid(gs, s, dist, cnt, counted, counted, s, 0),
        dist.len() == gs.len(),
        forall|u: usize|
            u < gs.len() && (#[trigger] dist[u as int]) < u32::MAX ==> counted.contains(u),
    ensures
        counts_recurrence(gs, s, dist, cnt),
{
    let full = Set::new(|u: usize| u < gs.len());
    assert forall|y: usize|
        y < gs.len() && (#[trigger] dist[y as int]) < u32::MAX implies cnt[y as int] == cap_count(
        (if y == s {
            1int
        } else {
            0int
        }) + tight_sum(gs, dist, cnt, full, y),
    ) by {
        assert forall|u: int|
            0 <= u < gs.len() implies row_contrib(
            gs,
            dist,
            cnt,
            counted,
            u as usize,
            gs[u].len() as int,
            y,
        ) == row_contrib(gs, dist, cnt, full, u as usize, gs[u].len() as int, y) by {
            assert forall|k2: int|
                0 <= k2 < gs[u].len() implies (#[trigger] edge_contrib(
                gs,
                dist,
                cnt,
                counted,
                u as usize,
                k2,
                y,
            )) == edge_contrib(gs, dist, cnt, full, u as usize, k2, y) by {
                if !counted.contains(u as usize) {
                    assert(dist[u] == u32::MAX);
                    assert(dist[y as int] < u32::MAX);
                }
            }
            lemma_row_contrib_congruent(
                gs,
                dist,
                cnt,
                counted,
                dist,
                cnt,
                full,
                u as usize,
                gs[u].len() as int,
                y,
            );
        }
        lemma_nodes_contrib_congruent(gs, dist, cnt, counted, dist, cnt, full, gs.len() as int, y);
        assert(row_contrib(gs, dist, cnt, counted, s, 0, y) == 0);
    }
}

/// Any path from the source to a not-yet-finalized node costs at least as
/// much as the cheapest frontier entry: the cut argument behind pop-time
/// optimality.
proof fn lemma_frontier_cut(
    gs: Seq<Seq<(usize, u32)>>,
    s: usize,
    dist: Seq<u32>,
    done: Set<usize>,
    fr: Seq<(u32, usize)>,
    c: u32,
    p: Seq<usize>,
    pc: int,
)
    requires
        inv_base(gs, s, dist, done, fr),
        all_relaxed(gs, dist, done),
        c < u32::MAX,
        forall|j: int| 0 <= j < fr.len() ==> c <= (#[trigger] fr[j]).0,
        costed_path(gs, p, pc),
        p[0] == s,
        !done.contains(p.last()),
    ensures
        pc >= c,
    decreases p.len(),
{
    lemma_costed_path_in_range(gs, p, pc);
    if p.len() == 1 {
        // p is just [s]; s is pending at table entry 0, so c <= 0 and pc == 0
        assert(dist[s as int] < u32::MAX);
        assert(fr.contains((dist[s as int], s)));
        let j = choose|j: int| 0 <= j < fr.len() && fr[j] == (dist[s as int], s);
        assert(c <= fr[j].0);
    } else {
        lemma_costed_path_unsnoc(gs, p, pc);
        let w = choose|w: u32|
            #[trigger] has_edge(gs, p[p.len() - 2], p.last(), w) && costed_path(
                gs,
                p.drop_last(),
                pc - w,
            );
        let u = p[p.len() - 2];
        let x = p.last();
        let q = p.drop_last();
        assert(q[0] == s && q.last() == u);
        if done.contains(u) {
            // the prefix is a path to u, which is optimal, and the edge
            // u -> x is fully relaxed, so x's table entry bounds pc
            assert(reaches_with(gs, s, u, pc - w)) by {
                assert(costed_path(gs, q, pc - w) && q[0] == s && q.last() == u);
            }
            assert(pc - w >= dist[u as int]);
            let k = choose|k: int| 0 <= k < gs[u as int].len() && gs[u as int][k] == (x, w);
            assert(edge_relaxed(gs, dist, u, k));
            if dist[u as int] + w < u32::MAX {
                assert(dist[x as int] <= dist[u as int] + w);
                assert(dist[x as int] < u32::MAX);
                assert(fr.contains((dist[x as int], x)));
                let j = choose|j: int| 0 <= j < fr.len() && fr[j] == (dist[x as int], x);
                assert(c <= fr[j].0);
            } else {
                // pc >= dist[u] + w >= the sentinel, and c is below it
            }
        } else {
            lemma_frontier_cut(gs, s, dist, done, fr, c, q, pc - w);
        }
    }
}

/// With an empty frontier the table dominates every finite path cost.
proof fn lemma_empty_frontier(
    gs: Seq<Seq<(usize, u32)>>,
    s: usize,
    dist: Seq<u32>,
    done: Set<usize>,
    fr: Seq<(u32, usize)>,
    p: Seq<usize>,
    pc: int,
)
    requires
        inv_base(gs, s, dist, done, fr),
        all_relaxed(gs, dist, done),
        fr.len() == 0,
        costed_path(gs, p, pc),
        p[0] == s,
        pc < u32::MAX,
    ensures
        dist[p.last() as int] <= pc,
    decreases p.len(),
{
    lemma_costed_path_in_range(gs, p, pc);
    if p.len() == 1 {
        // dist[s] == 0 and pc == 0
    } else {
        lemma_costed_path_unsnoc(gs, p, pc);
        let w = choose|w: u32|
            #[trigger] has_edge(gs, p[p.len() - 2], p.last(), w) && costed_path(
                gs,
                p.drop_last(),
                pc - w,
            );
        let u = p[p.len() - 2];
        let x = p.last();
        let q = p.drop_last();
        assert(q[0] == s && q.last() == u);
        lemma_empty_frontier(gs, s, dist, done, fr, q, pc - w);
        assert(dist[u as int] <= pc - w);
        assert(dist[u as int] < u32::MAX);
        if !done.contains(u) {
            assert(fr.contains((dist[u as int], u)));
            let j = choose|j: int| 0 <= j < fr.len() && fr[j] == (dist[u as int], u);
            assert(false);
        }
        let k = choose|k: int| 0 <= k < gs[u as int].len() && gs[u as int][k] == (x, w);
        assert(edge_relaxed(gs, dist, u, k));
    }
}

/// When the frontier has emptied, the table is the exact distance map.
proof fn lemma_final_state(
    gs: Seq<Seq<(usize, u32)>>,
    s: usize,
    dist: Seq<u32>,
    done: Set<usize>,
    fr: Seq<(u32, usize)>,
)
    requires
        inv_base(gs, s, dist, done, fr),
        all_relaxed(gs, dist, done),
        fr.len() == 0,
    ensures
        dists_exact(gs, s, dist),
        forall|v: usize| v < gs.len() && (#[trigger] dist[v as int]) < u32::MAX ==> done.contains(
            v as usize,
        ),
{
    assert forall|v: usize|
        v < gs.len() && (#[trigger] dist[v as int]) < u32::MAX implies done.contains(v as usize) by {
        if !done.contains(v) {
            assert(fr.contains((dist[v as int], v)));
            let j = choose|j: int| 0 <= j < fr.len() && fr[j] == (dist[v as int], v);
        }
    }
    assert forall|v: usize| v < gs.len() implies dist_value_ok(gs, s, v, #[trigger] dist[v as int]) by {
        assert forall|pc: int| #[trigger] reaches_with(gs, s, v as usize, pc) implies pc
            >= dist[v as int] by {
            if pc < u32::MAX {
                let p = choose|p: Seq<usize>|
                    costed_path(gs, p, pc) && p[0] == s && p.last() == v as usize;
                assert(costed_path(gs, p, pc) && p[0] == s && p.last() == v as usize);
                lemma_empty_frontier(gs, s, dist, done, fr, p, pc);
                assert(dist[p.last() as int] <= pc);
                assert(dist[v as int] <= pc);
            } else {
                assert(dist[v as int] <= u32::MAX);
            }
        }
        assert(no_path_below(gs, s, v as usize, dist[v as int] as int));
    }
}

/// Finalizing a freshly popped, non-stale minimum entry: its cost equals
/// the node's table entry, the node was pending, the entry is optimal,
/// and the invariant survives marking the node done and dropping the entry.
proof fn lemma_finalize_pop(
    gs: Seq<Seq<(usize, u32)>>,
    s: usize,
    dist: Seq<u32>,
    done: Set<usize>,
    fr: Seq<(u32, usize)>,
    i: int,
    e: (u32, usize),
)
    requires
        inv_base(gs, s, dist, done, fr),
        all_relaxed(gs, dist, done),
        0 <= i < fr.len(),
        fr[i] == e,
        forall|j: int| 0 <= j < fr.len() ==> entry_le(e, #[trigger] fr[j]),
        e.0 <= dist[e.1 as int],
    ensures
        e.1 < gs.len(),
        e.0 == dist[e.1 as int],
        e.0 < u32::MAX,
        !done.contains(e.1),
        no_path_below(gs, s, e.1, e.0 as int),
        reaches_with(gs, s, e.1, e.0 as int),
        inv_base(gs, s, dist, done.insert(e.1), fr.remove(i)),
        all_relaxed(gs, dist, done),
{
    let v = e.1;
    let c = e.0;
    assert(entry_ok(gs, dist, fr[i]));
    if done.contains(v) {
        assert(fr[i].0 > dist[fr[i].1 as int]);
        assert(false);
    }
    assert(c == dist[v as int]);
    assert forall|pc: int| #[trigger] reaches_with(gs, s, v, pc) implies pc >= c as int by {
        let p = choose|p: Seq<usize>| costed_path(gs, p, pc) && p[0] == s && p.last() == v;
        assert forall|j: int| 0 <= j < fr.len() implies c <= (#[trigger] fr[j]).0 by {
            assert(entry_le(e, fr[j]));
        }
        lemma_frontier_cut(gs, s, dist, done, fr, c, p, pc);
    }
    assert(no_path_below(gs, s, v, c as int));
    assert(dist[v as int] < u32::MAX);
    let done2 = done.insert(v);
    let fr2 = fr.remove(i);
    assert forall|j: int| 0 <= j < fr2.len() implies entry_ok(gs, dist, #[trigger] fr2[j]) by {
        if j < i {
            assert(fr2[j] == fr[j]);
        } else {
            assert(fr2[j] == fr[j + 1]);
        }
    }
    assert forall|x: usize|
        x < gs.len() && !done2.contains(x) && (#[trigger] dist[x as int])
            < u32::MAX implies fr2.contains((dist[x as int], x)) by {
        assert(fr.contains((dist[x as int], x)));
        let j = choose|j: int| 0 <= j < fr.len() && fr[j] == (dist[x as int], x);
        assert(j != i);
        if j < i {
            assert(fr2[j] == fr[j]);
            assert(fr2.contains(fr2[j]));
        } else {
            assert(fr2[j - 1] == fr[j]);
            assert(fr2.contains(fr2[j - 1]));
        }
    }
    assert forall|a: int, b: int|
        0 <= a < fr2.len() && 0 <= b < fr2.len() && a != b && (#[trigger] fr2[a]).1 == (
        #[trigger] fr2[b]).1 implies fr2[a].0 != fr2[b].0 by {
        let a0: int = if a < i {
            a
        } else {
            a + 1
        };
        let b0: int = if b < i {
            b
        } else {
            b + 1
        };
        assert(fr2[a] == fr[a0]);
        assert(fr2[b] == fr[b0]);
    }
    assert forall|j: int|
        0 <= j < fr2.len() && done2.contains((#[trigger] fr2[j]).1) implies fr2[j].0 > dist[fr2[j].1 as int] by {
        let j0: int = if j < i {
            j
        } else {
            j + 1
        };
        assert(fr2[j] == fr[j0]);
        if fr2[j].1 == v {
            // a second entry for v: distinct from the popped one, hence
            // strictly above the table entry it matched
            assert(fr[j0].0 != fr[i].0);
            assert(entry_ok(gs, dist, fr[j0]));
        }
    }
}

/// One strict relaxation keeps the invariant: the target was pending (or
/// unseen), its new entry is witnessed, and nothing already relaxed breaks.
proof fn lemma_relax_step(
    gs: Seq<Seq<(usize, u32)>>,
    s: usize,
    dist: Seq<u32>,
    done: Set<usize>,
    fr: Seq<(u32, usize)>,
    v: usize,
    k: int,
)
    requires
        inv_base(gs, s, dist, done, fr),
        done.contains(v),
        0 <= k < gs[v as int].len(),
        dist[v as int] + gs[v as int][k].1 < dist[gs[v as int][k].0 as int],
    ensures
        ({
            let x = gs[v as int][k].0;
            let nc = (dist[v as int] + gs[v as int][k].1) as u32;
            &&& x < gs.len()
            &&& x != v
            &&& x != s
            &&& !done.contains(x)
            &&& nc < u32::MAX
            &&& reaches_with(gs, s, x, nc as int)
            &&& inv_base(gs, s, dist.update(x as int, nc), done, fr.push((nc, x)))
            &&& forall|u: usize, k2: int|
                done.contains(u) && 0 <= k2 < gs[u as int].len() && u != x && edge_relaxed(
                    gs,
                    dist,
                    u,
                    k2,
                ) ==> edge_relaxed(gs, dist.update(x as int, nc), u, k2)
            &&& edge_relaxed(gs, dist.update(x as int, nc), v, k)
        }),
{
    let x = gs[v as int][k].0;
    let w = gs[v as int][k].1;
    let nc = (dist[v as int] + w) as u32;
    assert(x < gs.len());
    assert(dist[x as int] <= u32::MAX);
    assert(nc < u32::MAX || dist[x as int] == u32::MAX);
    assert(nc as int == dist[v as int] + w);
    // a witness path: v's witness extended by this edge
    assert(dist[v as int] < u32::MAX);
    assert(reaches_with(gs, s, v, dist[v as int] as int));
    let p = choose|p: Seq<usize>|
        costed_path(gs, p, dist[v as int] as int) && p[0] == s && p.last() == v;
    assert(has_edge(gs, v, x, w)) by {
        assert(gs[v as int][k] == (x, w));
    }
    lemma_costed_path_snoc(gs, p, dist[v as int] as int, x, w);
    assert(reaches_with(gs, s, x, nc as int)) by {
        assert(costed_path(gs, p.push(x), nc as int) && p.push(x)[0] == s && p.push(x).last()
            == x);
    }
    if done.contains(x) {
        assert(false);
    }
    let dist2 = dist.update(x as int, nc);
    let fr2 = fr.push((nc, x));
    assert forall|y: usize|
        y < gs.len() && (#[trigger] dist2[y as int]) < u32::MAX implies reaches_with(
        gs,
        s,
        y,
        dist2[y as int] as int,
    ) by {
        if y != x {
            assert(dist2[y as int] == dist[y as int]);
        }
    }
    assert forall|j: int| 0 <= j < fr2.len() implies entry_ok(gs, dist2, #[trigger] fr2[j]) by {
        if j < fr.len() {
            assert(fr2[j] == fr[j]);
            assert(entry_ok(gs, dist, fr[j]));
        } else {
            assert(fr2[j] == (nc, x));
        }
    }
    assert forall|y: usize|
        y < gs.len() && !done.contains(y) && (#[trigger] dist2[y as int])
            < u32::MAX implies fr2.contains((dist2[y as int], y)) by {
        if y == x {
            assert(fr2[fr.len() as int] == (nc, x));
            assert(fr2.contains(fr2[fr.len() as int]));
        } else {
            assert(dist2[y as int] == dist[y as int]);
            assert(fr.contains((dist[y as int], y)));
            let j = choose|j: int| 0 <= j < fr.len() && fr[j] == (dist[y as int], y);
            assert(fr2[j] == fr[j]);
            assert(fr2.contains(fr2[j]));
        }
    }
    assert forall|a: int, b: int|
        0 <= a < fr2.len() && 0 <= b < fr2.len() && a != b && (#[trigger] fr2[a]).1 == (
        #[trigger] fr2[b]).1 implies fr2[a].0 != fr2[b].0 by {
        if a < fr.len() && b < fr.len() {
            assert(fr2[a] == fr[a] && fr2[b] == fr[b]);
        } else if a < fr.len() {
            assert(fr2[b] == (nc, x));
            assert(entry_ok(gs, dist, fr[a]));
        } else {
            assert(fr2[a] == (nc, x));
            assert(entry_ok(gs, dist, fr[b]));
        }
    }
    assert forall|j: int|
        0 <= j < fr2.len() && done.contains((#[trigger] fr2[j]).1) implies fr2[j].0 > dist2[fr2[j].1 as int] by {
        if j < fr.len() {
            assert(fr2[j] == fr[j]);
            assert(fr[j].1 != x);
        } else {
            assert(fr2[j] == (nc, x));
            assert(false);
        }
    }
    assert forall|u: usize, k2: int|
        done.contains(u) && 0 <= k2 < gs[u as int].len() && u != x && edge_relaxed(
            gs,
            dist,
            u,
            k2,
        ) implies edge_relaxed(gs, dist2, u, k2) by {
        assert(dist2[u as int] == dist[u as int]);
        let t = gs[u as int][k2].0;
        if t == x {
            assert(dist2[t as int] == nc <= dist[t as int]);
        } else {
            assert(dist2[t as int] == dist[t as int]);
        }
    }
    assert(edge_relaxed(gs, dist2, v, k)) by {
        assert(dist2[v as int] == dist[v as int]);
        assert(dist2[x as int] == nc);
    }
}

/// Dropping a stale entry (one above its node's table entry) keeps the
/// invariant: stale entries carry no pending obligation.
proof fn lemma_stale_pop(
    gs: Seq<Seq<(usize, u32)>>,
    s: usize,
    dist: Seq<u32>,
    done: Set<usize>,
    fr: Seq<(u32, usize)>,
    i: int,
    e: (u32, usize),
)
    requires
        inv_base(gs, s, dist, done, fr),
        0 <= i < fr.len(),
        fr[i] == e,
        e.0 > dist[e.1 as int],
    ensures
        inv_base(gs, s, dist, done, fr.remove(i)),
{
    let fr2 = fr.remove(i);
    assert forall|j: int| 0 <= j < fr2.len() implies entry_ok(gs, dist, #[trigger] fr2[j]) by {
        if j < i {
            assert(fr2[j] == fr[j]);
        } else {
            assert(fr2[j] == fr[j + 1]);
        }
    }
    assert forall|y: usize|
        y < gs.len() && !done.contains(y) && (#[trigger] dist[y as int])
            < u32::MAX implies fr2.contains((dist[y as int], y)) by {
        assert(fr.contains((dist[y as int], y)));
        let j = choose|j: int| 0 <= j < fr.len() && fr[j] == (dist[y as int], y);
        assert(j != i);
        if j < i {
            assert(fr2[j] == fr[j]);
            assert(fr2.contains(fr2[j]));
        } else {
            assert(fr2[j - 1] == fr[j]);
            assert(fr2.contains(fr2[j - 1]));
        }
    }
    assert forall|a: int, b: int|
        0 <= a < fr2.len() && 0 <= b < fr2.len() && a != b && (#[trigger] fr2[a]).1 == (
        #[trigger] fr2[b]).1 implies fr2[a].0 != fr2[b].0 by {
        let a0: int = if a < i {
            a
        } else {
            a + 1
        };
        let b0: int = if b < i {
            b
        } else {
            b + 1
        };
        assert(fr2[a] == fr[a0]);
        assert(fr2[b] == fr[b0]);
    }
    assert forall|j: int|
        0 <= j < fr2.len() && done.contains((#[trigger] fr2[j]).1) implies fr2[j].0 > dist[fr2[j].1 as int] by {
        let j0: int = if j < i {
            j
        } else {
            j + 1
        };
        assert(fr2[j] == fr[j0]);
    }
}

/// The finalization ranks make every predecessor chain well-founded.
pub open spec fn ranked_links(prev: Seq<Option<usize>>, rank: Map<usize, nat>) -> bool {
    forall|v: usize|
        v < prev.len() && (#[trigger] prev[v as int]) is Some ==> prev[v as int].unwrap()
            < prev.len() && rank.dom().contains(prev[v as int].unwrap()) && (rank.dom().contains(v)
            ==> rank[prev[v as int].unwrap()] < rank[v])
}

/// A ranked node's backward walk settles within its rank's worth of steps.
proof fn lemma_rank_resolves(prev: Seq<Option<usize>>, s: usize, rank: Map<usize, nat>, v: usize)
    requires
        ranked_links(prev, rank),
        v < prev.len(),
        rank.dom().contains(v),
    ensures
        resolves(prev, s, v, rank[v] + 1),
    decreases rank[v],
{
    if v != s {
        match prev[v as int] {
            None => {},
            Some(u) => {
                lemma_rank_resolves(prev, s, rank, u);
                lemma_resolves_mono(prev, s, u, rank[u] + 1, rank[v]);
            },
        }
    }
}

/// The shared relaxation engine: runs the search to exhaustion and
/// returns the distance table, the predecessor ledger and the path-count
/// ledger of one run from `source`.
fn search_core(graph: &Graph, source: usize) -> (r: (Vec<u32>, Vec<Option<usize>>, Vec<usize>))
    requires
        source < graph@.len(),
    ensures
        dists_exact(graph@, source, r.0@),
        preds_exact(graph@, source, r.0@, r.1@),
        r.2@.len() == graph@.len(),
        forall|v: usize|
            v < graph@.len() ==> (((#[trigger] r.2@[v as int]) > 0) <==> r.0@[v as int]
                < u32::MAX),
        weights_positive(graph@) ==> counts_recurrence(graph@, source, r.0@, r.2@),
{
    proof {
        use_type_invariant(graph);
    }
    let ghost gs = graph@;
    let n = graph.node_count();
    let mut dist: Vec<u32> = vec![u32::MAX; n];
    let mut prev: Vec<Option<usize>> = vec![None; n];
    let mut cnt: Vec<usize> = vec![0; n];
    let mut fr = Frontier::new();
    let ghost mut done: Set<usize> = Set::empty();
    let ghost mut rank: Map<usize, nat> = Map::empty();
    let ghost mut stamp: nat = 0;
    let ghost mut counted: Set<usize> = Set::empty();
    let ghost mut floor: u32 = 0;
    table_set(&mut dist, source, 0);
    table_set(&mut cnt, source, 1);
    fr.push(0, source);
    proof {
        crate::paths::lemma_reaches_self(gs, source);
        assert(fr@ =~= seq![(0u32, source)]);
        assert(dist@[source as int] == 0);
        assert(fr@[0] == (dist@[source as int], source));
        assert(fr@.contains(fr@[0]));
        assert(rank.dom() =~= done);
        lemma_count_init(gs, source, dist@, cnt@);
        assert(done =~= counted);
    }
    while !fr.is_empty()
        invariant
            gs == graph@,
            n == gs.len(),
            source < n,
            inv_base(gs, source, dist@, done, fr@),
            all_relaxed(gs, dist@, done),
            ledger_inv(gs, source, dist@, done, prev@, cnt@, rank, stamp),
            done == counted,
            forall|j: int| 0 <= j < fr@.len() ==> (#[trigger] fr@[j]).0 >= floor,
            forall|y: usize| #[trigger] done.contains(y) ==> dist@[y as int] <= floor,
            weights_positive(gs) ==> counts_mid(gs, source, dist@, cnt@, counted, counted, source, 0),
        decreases fr@.len() + sum_u32(dist@),
    {
        let ghost fr0 = fr@;
        let popped = fr.pop_min();
        proof {
            assert(popped.is_some());
        }
        let e = popped.unwrap();
        let c = e.0;
        let v = e.1;
        let ghost i = choose|i: int| 0 <= i < fr0.len() && fr0[i] == e && fr@ == fr0.remove(i);
        proof {
            assert(entry_ok(gs, dist@, fr0[i]));
            lemma_sum_u32_nonneg(dist@);
        }
        if c > dist[v] {
            proof {
                lemma_stale_pop(gs, source, dist@, done, fr0, i, e);
                assert forall|j: int| 0 <= j < fr@.len() implies (#[trigger] fr@[j]).0 >= floor by {
                    if j < i {
                        assert(fr@[j] == fr0[j]);
                    } else {
                        assert(fr@[j] == fr0[j + 1]);
                    }
                }
            }
            continue;
        }
        proof {
            lemma_finalize_pop(gs, source, dist@, done, fr0, i, e);
            done = done.insert(v);
            rank = rank.insert(v, stamp);
            stamp = stamp + 1;
            assert(rank.dom() =~= done);
            assert forall|y: usize| #[trigger] rank.dom().contains(y) implies rank[y] < stamp by {
                if y != v {
                    assert(rank[y] < stamp - 1);
                }
            }
            assert(fr0[i].0 >= floor);
            floor = c;
            assert forall|j: int| 0 <= j < fr@.len() implies (#[trigger] fr@[j]).0 >= floor by {
                let j0: int = if j < i {
                    j
                } else {
                    j + 1
                };
                assert(fr@[j] == fr0[j0]);
                assert(entry_le(e, fr0[j0]));
            }
            assert forall|y: usize| #[trigger] done.contains(y) implies dist@[y as int] <= floor by {
                if y != v {
                    assert(dist@[y as int] <= fr0[i].0);
                }
            }
            if weights_positive(gs) {
                lemma_count_rebase(gs, source, dist@, cnt@, counted, counted, source, done, v);
            }
        }
        let ghost dist1 = dist@;
        let ghost fr1 = fr@;
        let row = graph.edges_from(v);
        let mut k: usize = 0;
        while k < row.len()
            invariant
                gs == graph@,
                n == gs.len(),
                source < n,
                v < n,
                row@ == gs[v as int],
                k <= row@.len(),
                done.contains(v),
                dist@[v as int] == c,
                inv_base(gs, source, dist@, done, fr@),
                ledger_inv(gs, source, dist@, done, prev@, cnt@, rank, stamp),
                forall|u: usize, k2: int|
                    done.contains(u) && u != v && 0 <= k2 < gs[u as int].len()
                        ==> #[trigger] edge_relaxed(gs, dist@, u, k2),
                forall|k2: int| 0 <= k2 < k ==> #[trigger] edge_relaxed(gs, dist@, v, k2),
                fr@.len() + sum_u32(dist@) < fr1.len() + sum_u32(dist1) + 1,
                done == counted.insert(v),
                !counted.contains(v),
                floor == c,
                forall|j: int| 0 <= j < fr@.len() ==> (#[trigger] fr@[j]).0 >= floor,
                forall|y: usize| #[trigger] done.contains(y) ==> dist@[y as int] <= floor,
                weights_positive(gs) ==> counts_mid(gs, source, dist@, cnt@, counted, done, v, k as int),
            decreases row@.len() - k,
        {
            let ghost distk = dist@;
            let ghost prevk = prev@;
            let ghost cntk = cnt@;
            let edge = row[k];
            let x = edge.0;
            let w = edge.1;
            proof {
                assert(gs[v as int][k as int] == (x, w));
                assert(x < gs.len());
            }
            match c.checked_add(w) {
                Some(nc) => {
                    if nc < dist[x] {
                        proof {
                            lemma_relax_step(gs, source, dist@, done, fr@, v, k as int);
                            lemma_sum_u32_update(dist@, x as int, nc);
                            assert(cnt@[v as int] > 0);
                            if weights_positive(gs) {
                                assert(!done.contains(x));
                                assert forall|u: usize, k2: int|
                                    counted.contains(u) && 0 <= k2
                                        < gs[u as int].len() implies #[trigger] edge_relaxed(
                                    gs,
                                    dist@,
                                    u,
                                    k2,
                                ) by {
                                    assert(done.contains(u) && u != v);
                                }
                                lemma_count_strict(
                                    gs,
                                    source,
                                    dist@,
                                    cnt@,
                                    counted,
                                    done,
                                    v,
                                    k as int,
                                    x,
                                    w,
                                    nc,
                                );
                            }
                        }
                        let base = cnt[v];
                        table_set(&mut dist, x, nc);
                        table_set(&mut prev, x, Some(v));
                        table_set(&mut cnt, x, base);
                        fr.push(nc, x);
                        proof {
                            assert(dist@ == distk.update(x as int, nc));
                            assert(!done.contains(x));
                            assert(pred_link_ok(gs, dist@, v, x)) by {
                                assert(has_edge(gs, v, x, w)) by {
                                    assert(gs[v as int][k as int] == (x, w));
                                }
                                assert(dist@[v as int] + w == dist@[x as int]);
                            }
                            assert forall|u: usize, k2: int|
                                done.contains(u) && u != v && 0 <= k2 < gs[u as int].len() implies
                                #[trigger] edge_relaxed(gs, dist@, u, k2) by {
                                assert(edge_relaxed(gs, distk, u, k2));
                                assert(u != x);
                            }
                            assert forall|k2: int| 0 <= k2 <= k implies #[trigger] edge_relaxed(
                                gs,
                                dist@,
                                v,
                                k2,
                            ) by {
                                if k2 < k {
                                    assert(edge_relaxed(gs, distk, v, k2));
                                    assert(v != x);
                                }
                            }
                            assert forall|y: usize|
                                y < gs.len() && (#[trigger] prev@[y as int]) is Some implies y
                                != source && pred_link_ok(gs, dist@, prev@[y as int].unwrap(), y)
                                && done.contains(prev@[y as int].unwrap()) by {
                                if y != x {
                                    assert(prev@[y as int] == prevk[y as int]);
                                    let u = prevk[y as int].unwrap();
                                    assert(pred_link_ok(gs, distk, u, y));
                                    assert(u != x);
                                    assert(dist@[y as int] == distk[y as int]);
                                    assert(dist@[u as int] == distk[u as int]);
                                    let w2 = choose|w2: u32|
                                        has_edge(gs, u, y, w2) && distk[u as int] + w2 == distk[y as int];
                                    assert(has_edge(gs, u, y, w2) && dist@[u as int] + w2 == dist@[y as int]);
                                }
                            }
                            assert forall|y: usize|
                                y < gs.len() && y != source && (#[trigger] dist@[y as int])
                                < u32::MAX implies prev@[y as int] is Some by {
                                if y != x {
                                    assert(dist@[y as int] == distk[y as int]);
                                    assert(prev@[y as int] == prevk[y as int]);
                                }
                            }
                            assert forall|y: usize|
                                y < gs.len() && (#[trigger] dist@[y as int])
                                == u32::MAX implies prev@[y as int] is None by {
                                if y != x {
                                    assert(dist@[y as int] == distk[y as int]);
                                    assert(prev@[y as int] == prevk[y as int]);
                                }
                            }
                            assert forall|y: usize|
                                y < gs.len() && (#[trigger] prev@[y as int]) is Some
                                && rank.dom().contains(y) implies rank[prev@[y as int].unwrap()]
                                < rank[y] by {
                                if y == x {
                                    assert(rank.dom() == done);
                                    assert(false);
                                } else {
                                    assert(prev@[y as int] == prevk[y as int]);
                                }
                            }
                            assert forall|y: usize|
                                y < gs.len() implies (((#[trigger] cnt@[y as int]) > 0)
                                <==> dist@[y as int] < u32::MAX) by {
                                if y == x {
                                    assert(cnt@[x as int] == cntk[v as int]);
                                    assert(dist@[x as int] == nc);
                                } else {
                                    assert(cnt@[y as int] == cntk[y as int]);
                                    assert(dist@[y as int] == distk[y as int]);
                                }
                            }
                            assert(prev@[source as int] == prevk[source as int]);
                            assert forall|j: int|
                                0 <= j < fr@.len() implies (#[trigger] fr@[j]).0 >= floor by {
                                if j < fr@.len() - 1 {
                                } else {
                                    assert(fr@[j] == (nc, x));
                                }
                            }
                            assert forall|y: usize|
                                #[trigger] done.contains(y) implies dist@[y as int] <= floor by {
                                assert(y != x);
                                assert(dist@[y as int] == distk[y as int]);
                            }
                        }
                    } else {
                        if nc == dist[x] && nc < u32::MAX {
                            // an equal-cost alternative below the sentinel:
                            // accumulate its count, saturating at the top
                            let base = cnt[v];
                            let cur = cnt[x];
                            let merged = if cur > usize::MAX - base {
                                usize::MAX
                            } else {
                                cur + base
                            };
                            proof {
                                assert(cnt@[x as int] > 0);
                                if weights_positive(gs) {
                                    assert(gs[v as int][k as int].1 >= 1);
                                    assert(dist@[x as int] > floor);
                                    assert(!done.contains(x));
                                    assert(merged as int == cap_count(
                                        cnt@[x as int] + cnt@[v as int],
                                    ));
                                    lemma_count_equal(
                                        gs,
                                        source,
                                        dist@,
                                        cnt@,
                                        counted,
                                        done,
                                        v,
                                        k as int,
                                        x,
                                        w,
                                        merged,
                                    );
                                }
                            }
                            table_set(&mut cnt, x, merged);
                            proof {
                                assert forall|y: usize|
                                    y < gs.len() implies (((#[trigger] cnt@[y as int]) > 0)
                                    <==> dist@[y as int] < u32::MAX) by {
                                    if y == x {
                                        assert(cnt@[x as int] == merged);
                                        assert(merged > 0);
                                    } else {
                                        assert(cnt@[y as int] == cntk[y as int]);
                                    }
                                }
                            }
                        } else {
                            proof {
                                if weights_positive(gs) {
                                    assert forall|y: usize|
                                        y < gs.len() && dist@[y as int]
                                            < u32::MAX implies #[trigger] edge_contrib(
                                        gs,
                                        dist@,
                                        cnt@,
                                        done,
                                        v,
                                        k as int,
                                        y,
                                    ) == 0 by {
                                        if gs[v as int][k as int].0 == y {
                                            assert(dist@[v as int] + w != dist@[y as int]);
                                        }
                                    }
                                    lemma_count_idle_edge(
                                        gs,
                                        source,
                                        dist@,
                                        cnt@,
                                        counted,
                                        done,
                                        v,
                                        k as int,
                                    );
                                }
                            }
                        }
                        proof {
                            assert(edge_relaxed(gs, dist@, v, k as int));
                        }
                    }
                },
                None => {
                    proof {
                        assert(edge_relaxed(gs, dist@, v, k as int));
                        if weights_positive(gs) {
                            assert forall|y: usize|
                                y < gs.len() && dist@[y as int]
                                    < u32::MAX implies #[trigger] edge_contrib(
                                gs,
                                dist@,
                                cnt@,
                                done,
                                v,
                                k as int,
                                y,
                            ) == 0 by {
                                if gs[v as int][k as int].0 == y {
                                    assert(dist@[v as int] + w > u32::MAX);
                                }
                            }
                            lemma_count_idle_edge(
                                gs,
                                source,
                                dist@,
                                cnt@,
                                counted,
                                done,
                                v,
                                k as int,
                            );
                        }
                    }
                },
            }
            k = k + 1;
        }
        proof {
            assert forall|u: usize, k2: int|
                done.contains(u) && 0 <= k2 < gs[u as int].len() implies #[trigger] edge_relaxed(
                gs,
                dist@,
                u,
                k2,
            ) by {}
            lemma_sum_u32_nonneg(dist@);
            if weights_positive(gs) {
                lemma_count_fold(gs, source, dist@, cnt@, counted, v);
                lemma_count_rebase(
                    gs,
                    source,
                    dist@,
                    cnt@,
                    counted.insert(v),
                    counted.insert(v),
                    v,
                    counted.insert(v),
                    source,
                );
            }
            counted = counted.insert(v);
        }
    }
    proof {
        lemma_final_state(gs, source, dist@, done, fr@);
        if weights_positive(gs) {
            assert forall|u: usize|
                u < gs.len() && (#[trigger] dist@[u as int]) < u32::MAX implies counted.contains(
                u,
            ) by {
                assert(done.contains(u));
            }
            lemma_count_finish(gs, source, dist@, cnt@, counted);
        }
        assert(ranked_links(prev@, rank));
        assert forall|v: usize|
            v < gs.len() && (#[trigger] dist@[v as int]) < u32::MAX implies exists|f: nat|
            #[trigger] resolves(prev@, source, v, f) by {
            assert(done.contains(v));
            assert(rank.dom().contains(v));
            lemma_rank_resolves(prev@, source, rank, v);
            assert(resolves(prev@, source, v, rank[v] + 1));
        }
    }
    (dist, prev, cnt)
}

/// The full distance table from `source`: each entry below the sentinel
/// is the exact cheapest path cost to that node, and the sentinel means
/// no path costs less than it.
pub fn shortest_distances(graph: &Graph, source: usize) -> (r: Vec<u32>)
    requires
        source < graph@.len(),
    ensures
        dists_exact(graph@, source, r@),
{
    let (dist, _prev, _cnt) = search_core(graph, source);
    dist
}

/// The distance table together with the predecessor ledger of the same
/// run; the distances are exactly those of `shortest_distances`.
pub fn shortest_distances_with_predecessors(graph: &Graph, source: usize) -> (r: (
    Vec<u32>,
    Vec<Option<usize>>,
))
    requires
        source < graph@.len(),
    ensures
        dists_exact(graph@, source, r.0@),
        preds_exact(graph@, source, r.0@, r.1@),
{
    let (dist, prev, _cnt) = search_core(graph, source);
    (dist, prev)
}

/// How many cheapest paths reach `destination`: zero exactly when no
/// path below the sentinel exists, positive otherwise. Counts accumulate
/// over equal-cost alternatives and saturate at `usize::MAX`. When every
/// weight is positive the result is an entry of a tally table satisfying
/// the tight-edge recurrence over the exact distance table — which makes
/// it the number of distinct cheapest paths, capped at the ceiling.
pub fn count_shortest_paths(graph: &Graph, source: usize, destination: usize) -> (r: usize)
    requires
        source < graph@.len(),
        destination < graph@.len(),
    ensures
        (r > 0) <==> reachable_below_inf(graph@, source, destination),
        weights_positive(graph@) ==> exists|dist: Seq<u32>, cnt: Seq<usize>|
            {
                &&& dists_exact(graph@, source, dist)
                &&& #[trigger] counts_recurrence(graph@, source, dist, cnt)
                &&& cnt.len() == graph@.len()
                &&& r == cnt[destination as int]
            },
{
    let (dist, _prev, cnt) = search_core(graph, source);
    let ghost gs = graph@;
    proof {
        let dd = dist@[destination as int];
        assert(dist_value_ok(gs, source, destination, dd));
        if dd < u32::MAX {
            assert(reaches_with(gs, source, destination, dd as int));
            assert(reachable_below_inf(gs, source, destination));
        } else {
            if reachable_below_inf(gs, source, destination) {
                let c = choose|c: int|
                    0 <= c < u32::MAX && #[trigger] reaches_with(gs, source, destination, c);
                assert(c >= dd);
                assert(false);
            }
        }
    }
    proof {
        if weights_positive(gs) {
            assert(dists_exact(gs, source, dist@) && counts_recurrence(gs, source, dist@, cnt@)
                && cnt@.len() == gs.len() && cnt@[destination as int] == cnt@[destination as int]);
        }
    }
    cnt[destination]
}

/// The cheapest cost from `source` to `destination` alone, stopping the
/// search the moment the destination is finalized. Returns exactly what
/// the destination's entry of the full table would say: `Some` of the
/// least path cost below the sentinel, `None` when there is none.
pub fn shortest_distance(graph: &Graph, source: usize, destination: usize) -> (r: Option<u32>)
    requires
        source < graph@.len(),
        destination < graph@.len(),
    ensures
        single_result_ok(graph@, source, destination, r),
{
    proof {
        use_type_invariant(graph);
    }
    let ghost gs = graph@;
    let n = graph.node_count();
    let mut dist: Vec<u32> = vec![u32::MAX; n];
    let mut fr = Frontier::new();
    let ghost mut done: Set<usize> = Set::empty();
    table_set(&mut dist, source, 0);
    fr.push(0, source);
    proof {
        crate::paths::lemma_reaches_self(gs, source);
        assert(fr@ =~= seq![(0u32, source)]);
        assert(dist@[source as int] == 0);
        assert(fr@[0] == (dist@[source as int], source));
        assert(fr@.contains(fr@[0]));
    }
    while !fr.is_empty()
        invariant
            gs == graph@,
            n == gs.len(),
            source < n,
            destination < n,
            inv_base(gs, source, dist@, done, fr@),
            all_relaxed(gs, dist@, done),
            !done.contains(destination),
        decreases fr@.len() + sum_u32(dist@),
    {
        let ghost fr0 = fr@;
        let popped = fr.pop_min();
        proof {
            assert(popped.is_some());
        }
        let e = popped.unwrap();
        let c = e.0;
        let v = e.1;
        let ghost i = choose|i: int| 0 <= i < fr0.len() && fr0[i] == e && fr@ == fr0.remove(i);
        proof {
            assert(entry_ok(gs, dist@, fr0[i]));
            lemma_sum_u32_nonneg(dist@);
        }
        if c > dist[v] {
            proof {
                lemma_stale_pop(gs, source, dist@, done, fr0, i, e);
            }
            continue;
        }
        proof {
            lemma_finalize_pop(gs, source, dist@, done, fr0, i, e);
        }
        if v == destination {
            return Some(c);
        }
        proof {
            done = done.insert(v);
        }
        let ghost dist1 = dist@;
        let ghost fr1 = fr@;
        let row = graph.edges_from(v);
        let mut k: usize = 0;
        while k < row.len()
            invariant
                gs == graph@,
                n == gs.len(),
                source < n,
                v < n,
                row@ == gs[v as int],
                k <= row@.len(),
                done.contains(v),
                dist@[v as int] == c,
                inv_base(gs, source, dist@, done, fr@),
                forall|u: usize, k2: int|
                    done.contains(u) && u != v && 0 <= k2 < gs[u as int].len()
                        ==> #[trigger] edge_relaxed(gs, dist@, u, k2),
                forall|k2: int| 0 <= k2 < k ==> #[trigger] edge_relaxed(gs, dist@, v, k2),
                fr@.len() + sum_u32(dist@) < fr1.len() + sum_u32(dist1) + 1,
            decreases row@.len() - k,
        {
            let ghost distk = dist@;
            let edge = row[k];
            let x = edge.0;
            let w = edge.1;
            proof {
                assert(gs[v as int][k as int] == (x, w));
                assert(x < gs.len());
            }
            match c.checked_add(w) {
                Some(nc) => {
                    if nc < dist[x] {
                        proof {
                            lemma_relax_step(gs, source, dist@, done, fr@, v, k as int);
                            lemma_sum_u32_update(dist@, x as int, nc);
                        }
                        table_set(&mut dist, x, nc);
                        fr.push(nc, x);
                        proof {
                            assert(dist@ == distk.update(x as int, nc));
                            assert(!done.contains(x));
                            assert forall|u: usize, k2: int|
                                done.contains(u) && u != v && 0 <= k2 < gs[u as int].len() implies
                                #[trigger] edge_relaxed(gs, dist@, u, k2) by {
                                assert(edge_relaxed(gs, distk, u, k2));
                                assert(u != x);
                            }
                            assert forall|k2: int| 0 <= k2 <= k implies #[trigger] edge_relaxed(
                                gs,
                                dist@,
                                v,
                                k2,
                            ) by {
                                if k2 < k {
                                    assert(edge_relaxed(gs, distk, v, k2));
                                    assert(v != x);
                                }
                            }
                        }
                    } else {
                        proof {
                            assert(edge_relaxed(gs, dist@, v, k as int));
                        }
                    }
                },
                None => {
                    proof {
                        assert(edge_relaxed(gs, dist@, v, k as int));
                    }
                },
            }
            k = k + 1;
        }
        proof {
            assert forall|u: usize, k2: int|
                done.contains(u) && 0 <= k2 < gs[u as int].len() implies #[trigger] edge_relaxed(
                gs,
                dist@,
                u,
                k2,
            ) by {}
            lemma_sum_u32_nonneg(dist@);
        }
    }
    proof {
        lemma_final_state(gs, source, dist@, done, fr@);
        assert(dist@[destination as int] == u32::MAX);
        assert(dist_value_ok(gs, source, destination, u32::MAX));
    }
    None
}

} // verus!
