//! Pre-flight negative-weight guard.
//!
//! The relaxation core assumes non-negative weights; this scan lets a
//! caller reject a signed edge list before building a graph from it.

use vstd::prelude::*;

verus! {

/// Reports whether any `(from, to, weight)` triple carries a negative weight.
pub fn has_negative_edge(edges: &Vec<(usize, usize, i32)>) -> (r: bool)
    ensures
        r == exists|k: int| 0 <= k < edges@.len() && (#[trigger] edges@[k]).2 < 0,
{
    let mut i: usize = 0;
    while i < edges.len()
        invariant
            i <= edges@.len(),
            forall|k: int| 0 <= k < i ==> (#[trigger] edges@[k]).2 >= 0,
        decreases edges@.len() - i,
    {
        if edges[i].2 < 0 {
            return true;
        }
        i = i + 1;
    }
    false
}

} // verus!
