//! The mathematical model of weighted paths.
//!
//! A path is a non-empty sequence of node indices in which consecutive
//! nodes are joined by edges of the graph; its cost is the sum of one
//! chosen weight per step. The contracts of every search variant are
//! stated over these predicates, with `u32::MAX` as the infinite
//! sentinel: a table entry below the sentinel is the exact least path
//! cost, and the sentinel itself means that no path costs less than it.

use vstd::prelude::*;
use crate::graph::wf_adjacency;

verus! {

/// Node `u` has an outgoing edge to `v` of weight `w`.
pub open spec fn has_edge(gs: Seq<Seq<(usize, u32)>>, u: usize, v: usize, w: u32) -> bool {
    u < gs.len() && exists|k: int| 0 <= k < gs[u as int].len() && gs[u as int][k] == (v, w)
}

/// `p` walks edges of `gs` and some choice of one weight per step sums to `c`.
pub open spec fn costed_path(gs: Seq<Seq<(usize, u32)>>, p: Seq<usize>, c: int) -> bool
    decreases p.len(),
{
    if p.len() == 0 {
        false
    } else if p.len() == 1 {
        p[0] < gs.len() && c == 0
    } else {
        exists|w: u32| has_edge(gs, p[0], p[1], w) && costed_path(gs, p.drop_first(), c - w)
    }
}

/// Some path of cost `c` leads from `s` to `v`.
pub open spec fn reaches_with(gs: Seq<Seq<(usize, u32)>>, s: usize, v: usize, c: int) -> bool {
    exists|p: Seq<usize>| costed_path(gs, p, c) && p[0] == s && p.last() == v
}

/// Every path from `s` to `v` costs at least `bound`.
pub open spec fn no_path_below(gs: Seq<Seq<(usize, u32)>>, s: usize, v: usize, bound: int) -> bool {
    forall|c: int| #[trigger] reaches_with(gs, s, v, c) ==> c >= bound
}

/// `v` can be reached from `s` at a cost below the infinite sentinel.
pub open spec fn reachable_below_inf(gs: Seq<Seq<(usize, u32)>>, s: usize, v: usize) -> bool {
    exists|c: int| 0 <= c < u32::MAX && #[trigger] reaches_with(gs, s, v, c)
}

/// The meaning of one distance-table entry: nothing cheaper exists, and a
/// value below the sentinel is witnessed by an actual path.
pub open spec fn dist_value_ok(gs: Seq<Seq<(usize, u32)>>, s: usize, v: usize, dv: u32) -> bool {
    no_path_below(gs, s, v, dv as int) && (dv < u32::MAX ==> reaches_with(gs, s, v, dv as int))
}

/// The whole table is exactly the single-source shortest-distance map.
pub open spec fn dists_exact(gs: Seq<Seq<(usize, u32)>>, s: usize, dist: Seq<u32>) -> bool {
    &&& dist.len() == gs.len()
    &&& forall|v: usize| v < gs.len() ==> dist_value_ok(gs, s, v, #[trigger] dist[v as int])
}

/// The meaning of a point-to-point query result.
pub open spec fn single_result_ok(
    gs: Seq<Seq<(usize, u32)>>,
    s: usize,
    d: usize,
    r: Option<u32>,
) -> bool {
    match r {
        Some(c) => c < u32::MAX && reaches_with(gs, s, d, c as int) && no_path_below(
            gs,
            s,
            d,
            c as int,
        ),
        None => no_path_below(gs, s, d, u32::MAX as int),
    }
}

/// A path's cost is never negative: every step weight is unsigned.
pub proof fn lemma_costed_path_nonneg(gs: Seq<Seq<(usize, u32)>>, p: Seq<usize>, c: int)
    requires
        costed_path(gs, p, c),
    ensures
        c >= 0,
    decreases p.len(),
{
    if p.len() > 1 {
        let w = choose|w: u32| has_edge(gs, p[0], p[1], w) && costed_path(gs, p.drop_first(), c - w);
        lemma_costed_path_nonneg(gs, p.drop_first(), c - w);
    }
}

/// In a well-formed graph every node of a path is a valid index.
pub proof fn lemma_costed_path_in_range(gs: Seq<Seq<(usize, u32)>>, p: Seq<usize>, c: int)
    requires
        wf_adjacency(gs),
        costed_path(gs, p, c),
    ensures
        forall|i: int| 0 <= i < p.len() ==> (#[trigger] p[i]) < gs.len(),
    decreases p.len(),
{
    if p.len() > 1 {
        let w = choose|w: u32| has_edge(gs, p[0], p[1], w) && costed_path(gs, p.drop_first(), c - w);
        lemma_costed_path_in_range(gs, p.drop_first(), c - w);
        assert(forall|i: int|
            1 <= i < p.len() ==> (#[trigger] p[i]) == p.drop_first()[i - 1]);
    }
}

/// Appending one edge to a path extends its cost by that edge's weight.
pub proof fn lemma_costed_path_snoc(
    gs: Seq<Seq<(usize, u32)>>,
    p: Seq<usize>,
    c: int,
    x: usize,
    w: u32,
)
    requires
        wf_adjacency(gs),
        costed_path(gs, p, c),
        has_edge(gs, p.last(), x, w),
    ensures
        costed_path(gs, p.push(x), c + w),
    decreases p.len(),
{
    if p.len() == 1 {
        assert(x < gs.len());
        assert(p.push(x).drop_first() =~= seq![x]);
        assert(costed_path(gs, seq![x], 0));
        assert(has_edge(gs, p.push(x)[0], p.push(x)[1], w) && costed_path(
            gs,
            p.push(x).drop_first(),
            (c + w) - w,
        ));
    } else {
        let w0 = choose|w0: u32|
            has_edge(gs, p[0], p[1], w0) && costed_path(gs, p.drop_first(), c - w0);
        lemma_costed_path_snoc(gs, p.drop_first(), c - w0, x, w);
        assert(p.push(x).drop_first() =~= p.drop_first().push(x));
        assert(has_edge(gs, p.push(x)[0], p.push(x)[1], w0) && costed_path(
            gs,
            p.push(x).drop_first(),
            (c + w) - w0,
        ));
    }
}

/// A path of at least one edge splits into its last edge and the rest.
pub proof fn lemma_costed_path_unsnoc(gs: Seq<Seq<(usize, u32)>>, p: Seq<usize>, c: int)
    requires
        costed_path(gs, p, c),
        p.len() >= 2,
    ensures
        exists|w: u32|
            #[trigger] has_edge(gs, p[p.len() - 2], p.last(), w) && costed_path(
                gs,
                p.drop_last(),
                c - w,
            ),
    decreases p.len(),
{
    let w0 = choose|w0: u32| has_edge(gs, p[0], p[1], w0) && costed_path(gs, p.drop_first(), c - w0);
    if p.len() == 2 {
        assert(p.drop_last() =~= seq![p[0]]);
        assert(costed_path(gs, p.drop_last(), 0));
        assert(has_edge(gs, p[p.len() - 2], p.last(), w0) && costed_path(
            gs,
            p.drop_last(),
            c - w0,
        ));
    } else {
        lemma_costed_path_unsnoc(gs, p.drop_first(), c - w0);
        let df = p.drop_first();
        let w = choose|w: u32|
            #[trigger] has_edge(gs, df[df.len() - 2], df.last(), w) && costed_path(
                gs,
                df.drop_last(),
                (c - w0) - w,
            );
        assert(p.drop_last().drop_first() =~= df.drop_last());
        assert(costed_path(gs, p.drop_last(), c - w)) by {
            assert(has_edge(gs, p.drop_last()[0], p.drop_last()[1], w0));
            assert(costed_path(gs, p.drop_last().drop_first(), (c - w) - w0));
        }
        assert(has_edge(gs, p[p.len() - 2], p.last(), w) && costed_path(gs, p.drop_last(), c - w));
    }
}

/// A path splits at any position into a prefix and a suffix whose costs
/// add up; the returned pair carries the two costs.
pub proof fn lemma_costed_path_split(gs: Seq<Seq<(usize, u32)>>, p: Seq<usize>, c: int, m: int) -> (r: (
    int,
    int,
))
    requires
        costed_path(gs, p, c),
        0 <= m < p.len(),
    ensures
        r.0 + r.1 == c,
        costed_path(gs, p.take(m + 1), r.0),
        costed_path(gs, p.skip(m), r.1),
    decreases p.len(),
{
    if m == 0 {
        assert(p[0] < gs.len()) by {
            if p.len() >= 2 {
                let w = choose|w: u32|
                    has_edge(gs, p[0], p[1], w) && costed_path(gs, p.drop_first(), c - w);
            }
        }
        assert(p.take(1) =~= seq![p[0]]);
        assert(costed_path(gs, p.take(1), 0));
        assert(p.skip(0) =~= p);
        (0, c)
    } else {
        let w0 = choose|w0: u32|
            has_edge(gs, p[0], p[1], w0) && costed_path(gs, p.drop_first(), c - w0);
        let sub = lemma_costed_path_split(gs, p.drop_first(), c - w0, m - 1);
        assert(p.take(m + 1).drop_first() =~= p.drop_first().take(m));
        assert(p.skip(m) =~= p.drop_first().skip(m - 1));
        assert(costed_path(gs, p.take(m + 1), w0 + sub.0)) by {
            assert(has_edge(gs, p.take(m + 1)[0], p.take(m + 1)[1], w0));
            assert(costed_path(gs, p.take(m + 1).drop_first(), (w0 + sub.0) - w0));
        }
        (w0 + sub.0, sub.1)
    }
}

/// Two paths that meet end to start join into one, adding their costs.
pub proof fn lemma_costed_path_concat(
    gs: Seq<Seq<(usize, u32)>>,
    a: Seq<usize>,
    ca: int,
    b: Seq<usize>,
    cb: int,
)
    requires
        costed_path(gs, a, ca),
        costed_path(gs, b, cb),
        a.last() == b[0],
    ensures
        costed_path(gs, a + b.drop_first(), ca + cb),
    decreases a.len(),
{
    if a.len() == 1 {
        assert(a + b.drop_first() =~= b);
    } else {
        let w0 = choose|w0: u32|
            has_edge(gs, a[0], a[1], w0) && costed_path(gs, a.drop_first(), ca - w0);
        lemma_costed_path_concat(gs, a.drop_first(), ca - w0, b, cb);
        assert((a + b.drop_first()).drop_first() =~= a.drop_first() + b.drop_first());
        assert(costed_path(gs, a + b.drop_first(), ca + cb)) by {
            assert(has_edge(gs, (a + b.drop_first())[0], (a + b.drop_first())[1], w0));
            assert(costed_path(gs, (a + b.drop_first()).drop_first(), (ca + cb) - w0));
        }
    }
}

/// A path that visits more nodes than the graph has must repeat one;
/// the returned pair gives two positions holding the same node.
proof fn lemma_path_repeats(gs: Seq<Seq<(usize, u32)>>, p: Seq<usize>, c: int) -> (r: (int, int))
    requires
        wf_adjacency(gs),
        costed_path(gs, p, c),
        p.len() > gs.len(),
    ensures
        0 <= r.0 < r.1 < p.len(),
        p[r.0] == p[r.1],
{
    broadcast use vstd::set::group_set_axioms;

    lemma_costed_path_in_range(gs, p, c);
    if exists|i: int, j: int| 0 <= i < j < p.len() && p[i] == p[j] {
        let (i, j) = choose|i: int, j: int| 0 <= i < j < p.len() && p[i] == p[j];
        (i, j)
    } else {
        assert(p.no_duplicates()) by {
            assert forall|i: int, j: int|
                0 <= i < p.len() && 0 <= j < p.len() && i != j implies p[i] != p[j] by {
                if p[i] == p[j] {
                    if i < j {
                        assert(0 <= i < j < p.len() && p[i] == p[j]);
                    } else {
                        assert(0 <= j < i < p.len() && p[j] == p[i]);
                    }
                }
            }
        }
        let pi = p.map_values(|x: usize| x as int);
        assert(pi.no_duplicates()) by {
            assert forall|a: int, b: int|
                0 <= a < pi.len() && 0 <= b < pi.len() && a != b implies pi[a] != pi[b] by {
                assert(pi[a] == p[a] as int && pi[b] == p[b] as int);
                assert(p[a] != p[b]);
            }
        }
        pi.unique_seq_to_set();
        vstd::set_lib::lemma_int_range(0, gs.len() as int);
        assert(pi.to_set().subset_of(vstd::set_lib::set_int_range(0, gs.len() as int))) by {
            assert forall|x: int| pi.to_set().contains(x) implies vstd::set_lib::set_int_range(
                0,
                gs.len() as int,
            ).contains(x) by {
                assert(pi.contains(x));
                let idx = choose|idx: int| 0 <= idx < pi.len() && pi[idx] == x;
                assert(p[idx] < gs.len());
            }
        }
        vstd::set_lib::lemma_len_subset(
            pi.to_set(),
            vstd::set_lib::set_int_range(0, gs.len() as int),
        );
        assert(false);
        (0, 1)
    }
}

/// Any path shortens, without raising its cost or moving its endpoints,
/// to one that visits at most as many nodes as the graph has: repeated
/// nodes enclose a detour of non-negative cost that can be cut out. The
/// returned pair is the shortened path and its cost.
pub proof fn lemma_path_shorten(gs: Seq<Seq<(usize, u32)>>, p: Seq<usize>, c: int) -> (r: (
    Seq<usize>,
    int,
))
    requires
        wf_adjacency(gs),
        costed_path(gs, p, c),
    ensures
        costed_path(gs, r.0, r.1),
        r.0[0] == p[0],
        r.0.last() == p.last(),
        r.1 <= c,
        r.0.len() <= gs.len(),
    decreases p.len(),
{
    if p.len() <= gs.len() {
        (p, c)
    } else {
        let rep = lemma_path_repeats(gs, p, c);
        let i = rep.0;
        let j = rep.1;
        let first = lemma_costed_path_split(gs, p, c, i);
        let second = lemma_costed_path_split(gs, p.skip(i), first.1, j - i);
        assert(p.skip(i).skip(j - i) =~= p.skip(j));
        let a = p.take(i + 1);
        let b = p.skip(j);
        assert(a.last() == p[i] && b[0] == p[j]);
        lemma_costed_path_concat(gs, a, first.0, b, second.1);
        let q = a + b.drop_first();
        lemma_costed_path_nonneg(gs, p.skip(i).take(j - i + 1), second.0);
        assert(q[0] == p[0]);
        assert(q.last() == p.last()) by {
            if j == p.len() - 1 {
                assert(b =~= seq![p[j]]);
                assert(q =~= a);
            } else {
                assert(q.last() == b.drop_first().last());
                assert(b.drop_first().last() == b.last());
            }
        }
        assert(q.len() < p.len());
        let r = lemma_path_shorten(gs, q, first.0 + second.1);
        r
    }
}

/// The one-node path reaches a node from itself at no cost.
pub proof fn lemma_reaches_self(gs: Seq<Seq<(usize, u32)>>, s: usize)
    requires
        s < gs.len(),
    ensures
        reaches_with(gs, s, s, 0),
{
    let p = seq![s];
    assert(costed_path(gs, p, 0));
    assert(p[0] == s && p.last() == s);
}

} // verus!
