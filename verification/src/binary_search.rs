//! Verified binary-search routines.
//!
//! These searches stand apart from the shortest-path engine: a peak
//! finder over an array, a least-satisfying-input search over an
//! arbitrary predicate, and a staircase search over a matrix sorted by
//! rows and by columns.

use vstd::prelude::*;

verus! {

/// Finds an index whose value does not rise on the right and strictly
/// rose from the left: on a mountain-shaped array this is the unique
/// peak. Empty input has no peak.
pub fn find_peak(arr: &[i32]) -> (r: Option<usize>)
    ensures
        match r {
            Some(i) => i < arr@.len() && (i + 1 == arr@.len() || arr@[i as int] >= arr@[i as int
                + 1]) && (i == 0 || arr@[i as int - 1] < arr@[i as int]),
            None => arr@.len() == 0,
        },
{
    if arr.len() == 0 {
        return None;
    }
    let mut left: usize = 0;
    let mut right: usize = arr.len() - 1;
    while left < right
        invariant
            left <= right < arr@.len(),
            right + 1 == arr@.len() || arr@[right as int] >= arr@[right as int + 1],
            left == 0 || arr@[left as int - 1] < arr@[left as int],
        decreases right - left,
    {
        let mid = left + (right - left) / 2;
        if arr[mid] < arr[mid + 1] {
            left = mid + 1;
        } else {
            right = mid;
        }
    }
    Some(left)
}

/// The predicate answers every probe of one input the same way.
pub open spec fn predicate_consistent<F: Fn(i32) -> bool>(f: F) -> bool {
    forall|x: i32, b1: bool, b2: bool|
        #[trigger] call_ensures(f, (x,), b1) && #[trigger] call_ensures(f, (x,), b2) ==> b1 == b2
}

/// Once the predicate holds it keeps holding further right in the range.
pub open spec fn predicate_monotone<F: Fn(i32) -> bool>(f: F, left: int, right: int) -> bool {
    forall|x: i32, y: i32|
        left <= x <= y <= right && #[trigger] call_ensures(f, (x,), true) ==> !(
        #[trigger] call_ensures(f, (y,), false))
}

/// Searches `[left, right]` for the least input on which `condition`
/// holds. Whatever the predicate does, a returned input was seen to
/// satisfy it; for a consistent, monotone predicate the result is
/// exactly the least satisfying input, or `None` when there is none.
pub fn binary_search_condition<F: Fn(i32) -> bool>(left: i32, right: i32, condition: F) -> (r:
    Option<i32>)
    requires
        forall|x: i32| left <= x <= right ==> #[trigger] call_requires(condition, (x,)),
    ensures
        r is Some ==> left <= r.unwrap() <= right && call_ensures(condition, (r.unwrap(),), true),
        predicate_consistent(condition) && predicate_monotone(condition, left as int, right as int)
            ==> match r {
            Some(x) => forall|y: i32|
                left <= y < x ==> !(#[trigger] call_ensures(condition, (y,), true)),
            None => forall|y: i32|
                left <= y <= right ==> !(#[trigger] call_ensures(condition, (y,), true)),
        },
{
    let mut lo: i64 = left as i64;
    let mut hi: i64 = right as i64;
    let mut result: Option<i32> = None;
    while lo <= hi
        invariant
            left as i64 <= lo,
            hi <= right as i64,
            forall|x: i32| left <= x <= right ==> #[trigger] call_requires(condition, (x,)),
            result is Some ==> left <= result.unwrap() <= right && call_ensures(
                condition,
                (result.unwrap(),),
                true,
            ),
            result is Some ==> hi == result.unwrap() as i64 - 1,
            result is None ==> hi == right as i64,
            predicate_consistent(condition) && predicate_monotone(
                condition,
                left as int,
                right as int,
            ) ==> forall|y: i32|
                left as i64 <= y < lo ==> !(#[trigger] call_ensures(condition, (y,), true)),
        decreases hi + 1 - lo,
    {
        let mid = lo + (hi - lo) / 2;
        let m = mid as i32;
        let b = condition(m);
        if b {
            result = Some(m);
            hi = mid - 1;
        } else {
            proof {
                if predicate_consistent(condition) && predicate_monotone(
                    condition,
                    left as int,
                    right as int,
                ) {
                    assert forall|y: i32| left as i64 <= y < mid + 1 implies !(
                    #[trigger] call_ensures(condition, (y,), true)) by {
                        if y < lo {
                        } else {
                            assert(call_ensures(condition, (m,), false));
                            if call_ensures(condition, (y,), true) {
                                assert(y <= m);
                            }
                        }
                    }
                }
            }
            lo = mid + 1;
        }
    }
    result
}

/// The mathematical view of a matrix given as vector rows.
pub open spec fn matrix_view(rows: Seq<Vec<i32>>) -> Seq<Seq<i32>> {
    Seq::new(rows.len(), |i: int| rows[i]@)
}

/// Every row has the same width.
pub open spec fn rectangular(m: Seq<Seq<i32>>) -> bool {
    forall|i: int| 0 <= i < m.len() ==> (#[trigger] m[i]).len() == m[0].len()
}

/// Values never decrease left to right within a row.
pub open spec fn rows_sorted(m: Seq<Seq<i32>>) -> bool {
    forall|i: int, a: int, b: int|
        0 <= i < m.len() && 0 <= a < b < m[i].len() ==> #[trigger] m[i][a] <= #[trigger] m[i][b]
}

/// Values never decrease top to bottom within a column.
pub open spec fn cols_sorted(m: Seq<Seq<i32>>) -> bool {
    forall|a: int, b: int, j: int|
        0 <= a < b < m.len() && 0 <= j < m[a].len() && j < m[b].len() ==> #[trigger] m[a][j]
            <= #[trigger] m[b][j]
}

/// Staircase search from the top-right corner of a matrix sorted along
/// rows and columns: reports exactly whether `target` occurs anywhere.
pub fn search_matrix(matrix: &[Vec<i32>], target: i32) -> (r: bool)
    requires
        rectangular(matrix_view(matrix@)),
        rows_sorted(matrix_view(matrix@)),
        cols_sorted(matrix_view(matrix@)),
    ensures
        r == exists|i: int, j: int|
            0 <= i < matrix@.len() && 0 <= j < matrix_view(matrix@)[i].len() && matrix_view(
                matrix@,
            )[i][j] == target,
{
    let ghost mv = matrix_view(matrix@);
    let n = matrix.len();
    if n == 0 {
        return false;
    }
    let cols = matrix[0].len();
    if cols == 0 {
        proof {
            assert forall|i: int, j: int|
                0 <= i < mv.len() && 0 <= j < mv[i].len() implies mv[i][j] != target by {
                assert(mv[i].len() == mv[0].len());
            }
        }
        return false;
    }
    let mut row: usize = 0;
    let mut col: usize = cols - 1;
    while row < n
        invariant
            mv == matrix_view(matrix@),
            rectangular(mv),
            rows_sorted(mv),
            cols_sorted(mv),
            n == mv.len(),
            0 < n,
            cols == mv[0].len(),
            col < cols,
            // any occurrence lies in the remaining region
            forall|i: int, j: int|
                0 <= i < mv.len() && 0 <= j < mv[i].len() && #[trigger] mv[i][j] == target ==> i
                    >= row && j <= col,
        decreases (n - row) + col,
    {
        proof {
            assert(mv[row as int].len() == mv[0].len());
            assert(matrix@[row as int]@.len() == cols);
        }
        let cur = matrix[row][col];
        if cur == target {
            proof {
                assert(mv[row as int][col as int] == target);
            }
            return true;
        }
        if cur > target {
            if col == 0 {
                proof {
                    assert forall|i: int, j: int|
                        0 <= i < mv.len() && 0 <= j < mv[i].len() implies #[trigger] mv[i][j]
                        != target by {
                        if mv[i][j] == target {
                            assert(j == 0 && i >= row);
                            if i > row {
                                assert(mv[row as int][0] <= mv[i][0]);
                            }
                        }
                    }
                }
                return false;
            }
            proof {
                assert forall|i: int, j: int|
                    0 <= i < mv.len() && 0 <= j < mv[i].len() && #[trigger] mv[i][j]
                        == target implies i >= row && j <= col - 1 by {
                    if j == col {
                        if i > row {
                            assert(mv[row as int][col as int] <= mv[i][col as int]);
                        }
                    }
                }
            }
            col = col - 1;
        } else {
            proof {
                assert forall|i: int, j: int|
                    0 <= i < mv.len() && 0 <= j < mv[i].len() && #[trigger] mv[i][j]
                        == target implies i >= row + 1 && j <= col by {
                    if i == row {
                        if j < col {
                            assert(mv[row as int][j] <= mv[row as int][col as int]);
                        }
                    }
                }
            }
            row = row + 1;
        }
    }
    false
}

} // verus!
