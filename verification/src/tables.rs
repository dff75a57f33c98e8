//! A small verified helper for dense per-node tables.

use vstd::prelude::*;

verus! {

/// Overwrites one slot of a table, leaving every other slot unchanged.
pub fn table_set<T>(table: &mut Vec<T>, i: usize, value: T)
    requires
        i < old(table)@.len(),
    ensures
        final(table)@ == old(table)@.update(i as int, value),
{
    let slot = &mut table[i];
    *slot = value;
}

/// The mathematical view of a two-dimensional table.
pub open spec fn grid_view(rows: Seq<Vec<u32>>) -> Seq<Seq<u32>> {
    Seq::new(rows.len(), |i: int| rows[i]@)
}

/// Overwrites one cell of a two-dimensional table.
pub fn grid_set(table: &mut Vec<Vec<u32>>, i: usize, j: usize, value: u32)
    requires
        i < old(table)@.len(),
        j < old(table)@[i as int]@.len(),
    ensures
        grid_view(final(table)@) == grid_view(old(table)@).update(
            i as int,
            grid_view(old(table)@)[i as int].update(j as int, value),
        ),
{
    let ghost before = grid_view(table@);
    let row = &mut table[i];
    let slot = &mut row[j];
    *slot = value;
    proof {
        assert(grid_view(table@) =~= before.update(i as int, before[i as int].update(j as int, value)));
    }
}

} // verus!
