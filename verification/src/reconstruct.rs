//! Path reconstruction from a predecessor table.
//!
//! The search ledger records, for every node whose distance was lowered to
//! a final value, the node it was relaxed from. Walking that table
//! backward from a destination yields the route, which is reversed before
//! it is returned.

use vstd::prelude::*;

verus! {

/// The backward walk from `v` settles within `fuel` steps: it reaches
/// `start`, or a node without a predecessor, before the fuel runs out.
/// Tables produced by the searches settle from every node.
pub open spec fn resolves(prev: Seq<Option<usize>>, start: usize, v: usize, fuel: nat) -> bool
    decreases fuel,
{
    ||| v == start
    ||| (v < prev.len() && match prev[v as int] {
        None => true,
        Some(u) => fuel > 0 && resolves(prev, start, u, (fuel - 1) as nat),
    })
}

/// A larger fuel never hurts: settling is monotone in the step budget.
pub proof fn lemma_resolves_mono(
    prev: Seq<Option<usize>>,
    start: usize,
    v: usize,
    f1: nat,
    f2: nat,
)
    requires
        resolves(prev, start, v, f1),
        f1 <= f2,
    ensures
        resolves(prev, start, v, f2),
    decreases f1,
{
    if v != start && v < prev.len() {
        match prev[v as int] {
            None => {},
            Some(u) => {
                lemma_resolves_mono(prev, start, u, (f1 - 1) as nat, (f2 - 1) as nat);
            },
        }
    }
}

/// `p` is the backward-deterministic predecessor chain from `start` to
/// `end`: consecutive nodes are linked by the table, and `start` appears
/// only at the front, where the walk stops.
pub open spec fn is_pred_path(
    prev: Seq<Option<usize>>,
    start: usize,
    end: usize,
    p: Seq<usize>,
) -> bool {
    &&& p.len() >= 1
    &&& p[0] == start
    &&& p.last() == end
    &&& forall|i: int| 0 < i < p.len() ==> (#[trigger] p[i]) != start
    &&& forall|i: int|
        0 <= i < p.len() - 1 ==> p[i + 1] < prev.len() && prev[p[i + 1] as int] == Some(
            #[trigger] p[i],
        )
}

/// Concatenation shifts a pushed element onto the front of the tail.
proof fn lemma_push_concat(a: Seq<usize>, x: usize, b: Seq<usize>)
    ensures
        a.push(x) + b == a + (seq![x] + b),
{
    assert(a.push(x) + b =~= a + (seq![x] + b));
}

/// A predecessor chain to a non-start node steps back through its
/// recorded predecessor.
proof fn lemma_chain_step(
    prevs: Seq<Option<usize>>,
    start: usize,
    cur0: usize,
    px: usize,
    q: Seq<usize>,
)
    requires
        cur0 != start,
        cur0 < prevs.len(),
        prevs[cur0 as int] == Some(px),
        is_pred_path(prevs, start, cur0, q),
    ensures
        q.len() >= 2,
        q == q.drop_last().push(cur0),
        is_pred_path(prevs, start, px, q.drop_last()),
{
    assert(q.len() >= 2) by {
        if q.len() == 1 {
            assert(q[0] == start && q.last() == cur0);
        }
    }
    let q2 = q.drop_last();
    assert(q =~= q2.push(cur0));
    assert(prevs[q.last() as int] == Some(q[q.len() - 2])) by {
        assert(prevs[q[q.len() - 2 + 1] as int] == Some(q[q.len() - 2]));
    }
    assert(q[q.len() - 2] == px);
    assert(q2.len() >= 1);
    assert(q2[0] == q[0]);
    assert(q2.last() == q[q.len() - 2]);
    assert forall|i: int| 0 < i < q2.len() implies (#[trigger] q2[i]) != start by {
        assert(q2[i] == q[i]);
    }
    assert forall|i: int|
        0 <= i < q2.len() - 1 implies q2[i + 1] < prevs.len() && prevs[q2[i + 1] as int] == Some(
            #[trigger] q2[i],
        ) by {
        assert(q2[i] == q[i] && q2[i + 1] == q[i + 1]);
    }
}

/// No predecessor chain ends at a non-start node that has no recorded
/// predecessor.
proof fn lemma_chain_dead_end(
    prevs: Seq<Option<usize>>,
    start: usize,
    cur0: usize,
    q: Seq<usize>,
)
    requires
        cur0 != start,
        cur0 < prevs.len(),
        prevs[cur0 as int] is None,
    ensures
        !is_pred_path(prevs, start, cur0, q),
{
    if is_pred_path(prevs, start, cur0, q) {
        if q.len() == 1 {
            assert(q[0] == start && q.last() == cur0);
        } else {
            assert(prevs[q[q.len() - 2 + 1] as int] == Some(q[q.len() - 2]));
        }
    }
}

/// Walks the predecessor table backward from `end` until it meets
/// `start`, then returns the route in forward order. A node without a
/// predecessor before `start` is reached means the destination was never
/// relaxed from the source: the result is then empty — which is distinct
/// from the one-node route returned when `end` equals `start`.
#[verifier::rlimit(100)]
pub fn reconstruct_path(previous: &Vec<Option<usize>>, start: usize, end: usize) -> (r: Vec<usize>)
    requires
        start < previous@.len(),
        end < previous@.len(),
        exists|f: nat| #[trigger] resolves(previous@, start, end, f),
    ensures
        r@.len() != 0 ==> is_pred_path(previous@, start, end, r@),
        forall|p: Seq<usize>| #[trigger] is_pred_path(previous@, start, end, p) ==> p == r@,
{
    let ghost prevs = previous@;
    let mut path: Vec<usize> = Vec::new();
    let mut current = end;
    let ghost mut fuel: nat = choose|f: nat| resolves(prevs, start, end, f);
    while current != start
        invariant
            prevs == previous@,
            start < prevs.len(),
            current < prevs.len(),
            resolves(prevs, start, current, fuel),
            path@.len() == 0 ==> current == end,
            path@.len() > 0 ==> path@[0] == end,
            path@.len() > 0 ==> prevs[path@.last() as int] == Some(current),
            forall|i: int|
                0 <= i < path@.len() ==> (#[trigger] path@[i]) < prevs.len() && path@[i] != start,
            forall|i: int|
                0 <= i < path@.len() - 1 ==> prevs[(#[trigger] path@[i]) as int] == Some(
                    path@[i + 1],
                ),
            forall|p: Seq<usize>|
                #[trigger] is_pred_path(prevs, start, end, p) ==> exists|q: Seq<usize>|
                    is_pred_path(prevs, start, current, q) && p == q + path@.reverse(),
        decreases fuel,
    {
        let ghost path0 = path@;
        let ghost cur0 = current;
        path.push(current);
        proof {
            assert(path@ =~= path0.push(cur0));
            assert(path@.reverse() =~= seq![cur0] + path0.reverse());
        }
        match previous[current] {
            Some(px) => {
                proof {
                    assert(fuel > 0);
                    fuel = (fuel - 1) as nat;
                    assert(resolves(prevs, start, px, fuel));
                    assert(px == start || px < prevs.len());
                    assert forall|p: Seq<usize>|
                        #[trigger] is_pred_path(prevs, start, end, p) implies exists|q2: Seq<usize>|
                        is_pred_path(prevs, start, px, q2) && p == q2 + path@.reverse() by {
                        let q = choose|q: Seq<usize>|
                            is_pred_path(prevs, start, cur0, q) && p == q + path0.reverse();
                        lemma_chain_step(prevs, start, cur0, px, q);
                        lemma_push_concat(q.drop_last(), cur0, path0.reverse());
                        assert(is_pred_path(prevs, start, px, q.drop_last()) && p == q.drop_last()
                            + path@.reverse());
                    }
                }
                current = px;
            },
            None => {
                proof {
                    assert forall|p: Seq<usize>|
                        #[trigger] is_pred_path(prevs, start, end, p) implies false by {
                        let q = choose|q: Seq<usize>|
                            is_pred_path(prevs, start, cur0, q) && p == q + path0.reverse();
                        lemma_chain_dead_end(prevs, start, cur0, q);
                    }
                }
                return Vec::new();
            },
        }
    }
    let ghost walked = path@;
    path.push(start);
    proof {
        assert(path@ =~= walked.push(start));
        assert(path@.reverse() =~= seq![start] + walked.reverse());
    }
    let mut out: Vec<usize> = Vec::new();
    let mut i: usize = path.len();
    while i > 0
        invariant
            i <= path@.len(),
            path@ == walked.push(start),
            out@.len() == path@.len() - i,
            forall|j: int|
                0 <= j < out@.len() ==> (#[trigger] out@[j]) == path@[path@.len() - 1 - j],
        decreases i,
    {
        i = i - 1;
        out.push(path[i]);
    }
    proof {
        assert(out@ =~= path@.reverse());
        assert(out@ =~= seq![start] + walked.reverse());
        let r = out@;
        assert(is_pred_path(prevs, start, end, r)) by {
            assert(r[0] == start);
            if walked.len() == 0 {
                assert(r.last() == start && end == start);
            } else {
                assert(r.last() == walked.reverse()[walked.len() - 1]);
                assert(r.last() == walked[0]);
            }
            assert forall|j: int| 0 < j < r.len() implies (#[trigger] r[j]) != start by {
                assert(r[j] == walked.reverse()[j - 1]);
                assert(r[j] == walked[walked.len() - j]);
            }
            assert forall|j: int|
                0 <= j < r.len() - 1 implies r[j + 1] < prevs.len() && prevs[r[j + 1] as int]
                == Some(#[trigger] r[j]) by {
                if j == 0 {
                    assert(r[1] == walked[walked.len() - 1]);
                    assert(prevs[walked.last() as int] == Some(start));
                } else {
                    assert(r[j] == walked[walked.len() - j]);
                    assert(r[j + 1] == walked[walked.len() - j - 1]);
                    assert(prevs[walked[walked.len() - j - 1] as int] == Some(
                        walked[walked.len() - j],
                    ));
                }
            }
        }
        assert forall|p: Seq<usize>| #[trigger] is_pred_path(prevs, start, end, p) implies p
            == out@ by {
            let q = choose|q: Seq<usize>|
                is_pred_path(prevs, start, start, q) && p == q + walked.reverse();
            assert(q.len() == 1) by {
                if q.len() >= 2 {
                    assert(q[q.len() - 1] != start);
                }
            }
            assert(q =~= seq![start]);
            assert(p == q + walked.reverse());
            assert(seq![start] + walked.reverse() =~= out@);
        }
    }
    out
}

} // verus!
