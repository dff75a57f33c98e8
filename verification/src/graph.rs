//! Adjacency-list graph, immutable once constructed.
//!
//! Nodes are dense indices in `[0, N)`. Each node owns the list of its
//! outgoing `(target, weight)` edges, kept in insertion order. The type
//! invariant guarantees that every edge target is a valid node index, so
//! a search never steps outside the per-node tables.

use vstd::prelude::*;

verus! {

/// Every edge target named in an adjacency structure is a valid node index.
pub open spec fn wf_adjacency(gs: Seq<Seq<(usize, u32)>>) -> bool {
    forall|u: int, k: int|
        0 <= u < gs.len() && 0 <= k < gs[u].len() ==> (#[trigger] gs[u][k]).0 < gs.len()
}

/// The mathematical view of a vector of adjacency rows.
pub open spec fn rows_view(rows: Seq<Vec<(usize, u32)>>) -> Seq<Seq<(usize, u32)>> {
    Seq::new(rows.len(), |u: int| rows[u]@)
}

/// The adjacency structure described by a node count and a list of directed
/// edges: each `(from, to, weight)` triple appends `(to, weight)` to `from`'s
/// row, in input order.
pub open spec fn adjacency_of(n: nat, edges: Seq<(usize, usize, u32)>) -> Seq<Seq<(usize, u32)>>
    decreases edges.len(),
{
    if edges.len() == 0 {
        Seq::new(n, |u: int| Seq::<(usize, u32)>::empty())
    } else {
        let e = edges.last();
        let rest = adjacency_of(n, edges.drop_last());
        rest.update(e.0 as int, rest[e.0 as int].push((e.1, e.2)))
    }
}

/// Both endpoints of every edge lie inside the node set.
pub open spec fn valid_edges(n: nat, edges: Seq<(usize, usize, u32)>) -> bool {
    forall|k: int|
        0 <= k < edges.len() ==> (#[trigger] edges[k]).0 < n && edges[k].1 < n
}

proof fn lemma_adjacency_of_wf(n: nat, edges: Seq<(usize, usize, u32)>)
    requires
        valid_edges(n, edges),
    ensures
        adjacency_of(n, edges).len() == n,
        wf_adjacency(adjacency_of(n, edges)),
    decreases edges.len(),
{
    if edges.len() > 0 {
        assert(valid_edges(n, edges.drop_last()));
        lemma_adjacency_of_wf(n, edges.drop_last());
        let e = edges.last();
        let rest = adjacency_of(n, edges.drop_last());
        let gs = adjacency_of(n, edges);
        assert(edges[edges.len() - 1].0 < n);
        assert forall|u: int, k: int|
            0 <= u < gs.len() && 0 <= k < gs[u].len() implies (#[trigger] gs[u][k]).0
            < gs.len() by {
            if u == e.0 as int {
                if k < rest[u].len() {
                    assert(gs[u][k] == rest[u][k]);
                } else {
                    assert(gs[u][k] == (e.1, e.2));
                }
            } else {
                assert(gs[u][k] == rest[u][k]);
            }
        }
    }
}

/// Adjacency-list graph over nodes `0 .. self@.len()`.
pub struct Graph {
    adj: Vec<Vec<(usize, u32)>>,
}

impl View for Graph {
    type V = Seq<Seq<(usize, u32)>>;

    closed spec fn view(&self) -> Seq<Seq<(usize, u32)>> {
        rows_view(self.adj@)
    }
}

impl Graph {
    /// Every search may index any edge target it reads from the graph.
    #[verifier::type_invariant]
    pub open spec fn wf(&self) -> bool {
        wf_adjacency(self@)
    }

    /// Builds a graph with `node_count` nodes from directed `(from, to, weight)`
    /// edges, kept per source node in input order. An edge endpoint outside
    /// the node set is a contract violation and rejects the whole input.
    pub fn new(node_count: usize, edges: &Vec<(usize, usize, u32)>) -> (r: Option<Graph>)
        ensures
            match r {
                Some(g) => valid_edges(node_count as nat, edges@) && g@ == adjacency_of(
                    node_count as nat,
                    edges@,
                ),
                None => !valid_edges(node_count as nat, edges@),
            },
    {
        let mut adj: Vec<Vec<(usize, u32)>> = Vec::new();
        let mut u: usize = 0;
        while u < node_count
            invariant
                u <= node_count,
                adj@.len() == u,
                forall|i: int| 0 <= i < u ==> (#[trigger] adj@[i])@ =~= Seq::<(usize, u32)>::empty(),
            decreases node_count - u,
        {
            adj.push(Vec::new());
            u = u + 1;
        }
        assert(rows_view(adj@) =~= adjacency_of(node_count as nat, edges@.take(0)));
        let mut k: usize = 0;
        while k < edges.len()
            invariant
                k <= edges@.len(),
                adj@.len() == node_count,
                valid_edges(node_count as nat, edges@.take(k as int)),
                rows_view(adj@) == adjacency_of(node_count as nat, edges@.take(k as int)),
            decreases edges@.len() - k,
        {
            let (from, to, w) = edges[k];
            if from >= node_count || to >= node_count {
                assert(!valid_edges(node_count as nat, edges@)) by {
                    assert(edges@[k as int].0 >= node_count || edges@[k as int].1 >= node_count);
                }
                return None;
            }
            let ghost rv_before = rows_view(adj@);
            let row: &mut Vec<(usize, u32)> = &mut adj[from];
            row.push((to, w));
            proof {
                assert(rows_view(adj@) =~= rv_before.update(
                    from as int,
                    rv_before[from as int].push((to, w)),
                ));
                assert(edges@.take(k + 1).drop_last() =~= edges@.take(k as int));
                assert(edges@.take(k + 1).last() == edges@[k as int]);
                assert(valid_edges(node_count as nat, edges@.take(k + 1)));
            }
            k = k + 1;
        }
        proof {
            assert(edges@.take(edges@.len() as int) =~= edges@);
            lemma_adjacency_of_wf(node_count as nat, edges@);
        }
        Some(Graph { adj })
    }

    /// Builds a graph directly from adjacency rows, validating every edge
    /// target against the node count `rows.len()`.
    pub fn from_adjacency(rows: Vec<Vec<(usize, u32)>>) -> (r: Option<Graph>)
        ensures
            match r {
                Some(g) => g@ == rows_view(rows@) && wf_adjacency(rows_view(rows@)),
                None => !wf_adjacency(rows_view(rows@)),
            },
    {
        let n = rows.len();
        let mut u: usize = 0;
        while u < n
            invariant
                u <= n,
                n == rows@.len(),
                forall|i: int, k: int|
                    0 <= i < u && 0 <= k < rows_view(rows@)[i].len() ==> (#[trigger] rows_view(
                        rows@,
                    )[i][k]).0 < n,
            decreases n - u,
        {
            let row = &rows[u];
            let mut k: usize = 0;
            while k < row.len()
                invariant
                    u < n,
                    n == rows@.len(),
                    row@ == rows_view(rows@)[u as int],
                    k <= row@.len(),
                    forall|j: int| 0 <= j < k ==> (#[trigger] row@[j]).0 < n,
                decreases row@.len() - k,
            {
                if row[k].0 >= n {
                    assert(!wf_adjacency(rows_view(rows@))) by {
                        assert(rows_view(rows@)[u as int][k as int].0 >= n);
                    }
                    return None;
                }
                k = k + 1;
            }
            u = u + 1;
        }
        Some(Graph { adj: rows })
    }

    /// The number of nodes.
    pub fn node_count(&self) -> (r: usize)
        ensures
            r == self@.len(),
    {
        self.adj.len()
    }

    /// The outgoing edge list of node `u`, in insertion order.
    pub fn edges_from(&self, u: usize) -> (r: &Vec<(usize, u32)>)
        requires
            u < self@.len(),
        ensures
            r@ == self@[u as int],
    {
        &self.adj[u]
    }
}

} // verus!
