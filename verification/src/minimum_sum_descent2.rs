//! Minimum-sum descent, solved with a single value table and the path
//! recovered by re-examining the table from the base upwards.

use vstd::prelude::*;

use crate::minimum_sum_descent::{
    all_positive, build_triangle, descent_min, dp_row_solved, dp_rows_solved, is_descent_path,
    is_triangular_input, lemma_descent_min_le_path, lemma_dm_in_range, lemma_row_min_le,
    lemma_sum_i32_reverse, minimum_descent_post, path_values, pred_ok, reversed_vec,
    row_min_upto, sum_i32, tri_cell, tri_repr, copy_vec,
};

verus! {

/// Find the path of least total from the apex to the base.  The value table
/// is solved in place over the triangle; the path is then read back from the
/// base by stepping, at each row, to the cheaper of the two cells above.
#[verifier::rlimit(100)]
pub fn calculate_minimum_sum_descent(nums: Vec<i32>) -> (result: Vec<i32>)
    requires
        is_triangular_input(nums@),
        all_positive(nums@),
        sum_i32(nums@) <= i32::MAX,
    ensures
        minimum_descent_post(nums@, result@),
{
    let triangle = build_triangle(&nums);
    let n = triangle.len();

    // The value table starts as a copy of the triangle.
    let mut dp: Vec<Vec<i32>> = Vec::new();
    let mut row: usize = 0;
    while row < n
        invariant
            row <= n,
            triangle@.len() == n,
            tri_repr(nums@, triangle@),
            dp@.len() == row,
            forall|a: int| 0 <= a < row ==> (#[trigger] dp@[a])@ == triangle@[a]@,
        decreases n - row,
    {
        dp.push(copy_vec(&triangle[row]));
        row = row + 1;
    }

    // Fill the table: each cell adds the cheaper of the two cells above it.
    let mut i: usize = 1;
    while i < n
        invariant
            1 <= i <= n,
            tri_repr(nums@, triangle@),
            triangle@.len() == n,
            all_positive(nums@),
            sum_i32(nums@) <= i32::MAX,
            dp@.len() == n,
            forall|a: int| 0 <= a < n ==> (#[trigger] dp@[a])@.len() == a + 1,
            forall|a: int| i <= a < n ==> (#[trigger] dp@[a])@ == triangle@[a]@,
            dp_rows_solved(nums@, dp@, i as int),
        decreases n - i,
    {
        let mut j: usize = 0;
        while j <= i
            invariant
                1 <= i < n,
                j <= i + 1,
                tri_repr(nums@, triangle@),
                triangle@.len() == n,
                all_positive(nums@),
                sum_i32(nums@) <= i32::MAX,
                dp@.len() == n,
                forall|a: int| 0 <= a < n ==> (#[trigger] dp@[a])@.len() == a + 1,
                forall|a: int| i < a < n ==> (#[trigger] dp@[a])@ == triangle@[a]@,
                forall|b: int|
                    j <= b <= i ==> (#[trigger] dp@[i as int]@[b]) == triangle@[i as int]@[b],
                dp_rows_solved(nums@, dp@, i as int),
                dp_row_solved(nums@, dp@, i as int, j as int),
            decreases i + 1 - j,
        {
            proof {
                assert(dp_row_solved(nums@, dp@, i - 1, (i - 1) + 1));
                assert(dp_row_solved(nums@, dp@, i - 1, i as int));
                lemma_dm_in_range(nums@, i as int, j as int, n as int);
                if j > 0 {
                    lemma_dm_in_range(nums@, i - 1, j - 1, n as int);
                }
                if j < i {
                    lemma_dm_in_range(nums@, i - 1, j as int, n as int);
                }
            }
            let ghost dp0 = dp@;
            if j == 0 {
                let v = dp[i][j] + dp[i - 1][j];
                dp[i][j] = v;
            } else if j == i {
                let v = dp[i][j] + dp[i - 1][j - 1];
                dp[i][j] = v;
            } else {
                if dp[i - 1][j - 1] < dp[i - 1][j] {
                    let v = dp[i][j] + dp[i - 1][j - 1];
                    dp[i][j] = v;
                } else {
                    let v = dp[i][j] + dp[i - 1][j];
                    dp[i][j] = v;
                }
            }
            proof {
                assert((dp@[i as int]@[j as int]) as int == descent_min(
                    nums@,
                    i as int,
                    j as int,
                ));
                assert(forall|a: int| 0 <= a < n && a != i ==> dp@[a] == dp0[a]);
                assert forall|a: int| 0 <= a < i implies #[trigger] dp_row_solved(
                    nums@,
                    dp@,
                    a,
                    a + 1,
                ) by {
                    assert(dp_row_solved(nums@, dp0, a, a + 1));
                }
            }
            j = j + 1;
        }
        proof {
            assert(dp_row_solved(nums@, dp@, i as int, i as int + 1));
            assert(dp_rows_solved(nums@, dp@, i as int + 1));
        }
        i = i + 1;
    }

    // Find the least total in the last row.
    proof {
        assert(dp_row_solved(nums@, dp@, n - 1, (n - 1) + 1));
        assert(dp_row_solved(nums@, dp@, n - 1, n as int));
    }
    let mut min_sum = dp[n - 1][0];
    let mut min_index: usize = 0;
    let mut j: usize = 1;
    while j < n
        invariant
            1 <= j <= n,
            dp@.len() == n,
            forall|a: int| 0 <= a < n ==> (#[trigger] dp@[a])@.len() == a + 1,
            dp_rows_solved(nums@, dp@, n as int),
            min_index < j,
            min_sum == dp@[n - 1]@[min_index as int],
            min_sum as int == row_min_upto(nums@, n - 1, j - 1),
        decreases n - j,
    {
        proof {
            assert(dp_row_solved(nums@, dp@, n - 1, (n - 1) + 1));
        }
        if dp[n - 1][j] < min_sum {
            min_sum = dp[n - 1][j];
            min_index = j;
        }
        j = j + 1;
    }

    // Backtrack: walk from the chosen base cell up to the apex, stepping to
    // the predecessor the table shows the best descent came through.
    let mut path: Vec<i32> = Vec::new();
    let mut j: usize = min_index;
    let ghost mut q: Seq<int> = seq![min_index as int];
    path.push(triangle[n - 1][j]);
    proof {
        assert(path@.drop_last() =~= Seq::<i32>::empty());
        assert(sum_i32(Seq::<i32>::empty()) == 0);
    }
    let mut i: usize = n - 1;
    while i > 0
        invariant
            i < n,
            tri_repr(nums@, triangle@),
            triangle@.len() == n,
            all_positive(nums@),
            sum_i32(nums@) <= i32::MAX,
            dp@.len() == n,
            forall|a: int| 0 <= a < n ==> (#[trigger] dp@[a])@.len() == a + 1,
            dp_rows_solved(nums@, dp@, n as int),
            q.len() == n - i,
            j as int == q[0],
            forall|k: int| 0 <= k < q.len() ==> 0 <= #[trigger] q[k] <= i + k,
            forall|k: int|
                0 < k < q.len() ==> (#[trigger] q[k]) == q[k - 1] || q[k] == q[k - 1] + 1,
            path@.len() == n - i,
            forall|m: int|
                0 <= m < path@.len() ==> (#[trigger] path@[m]) == tri_cell(
                    nums@,
                    n - 1 - m,
                    q[n - 1 - m - i],
                ),
            sum_i32(path@) == min_sum - descent_min(nums@, i as int, q[0]) + tri_cell(
                nums@,
                i as int,
                q[0],
            ),
        decreases i,
    {
        proof {
            assert(dp_row_solved(nums@, dp@, i - 1, (i - 1) + 1));
            assert(dp_row_solved(nums@, dp@, i - 1, i as int));
            assert(dp_row_solved(nums@, dp@, i as int, i as int + 1));
        }
        // Step to the cell the best descent to `(i, j)` came through: the
        // only predecessor at the row edges, else the cheaper of the two.
        if j > 0 && (j == i || dp[i - 1][j - 1] <= dp[i - 1][j]) {
            proof {
                assert(pred_ok(nums@, j - 1, i as int, j as int));
            }
            j = j - 1;
        } else {
            proof {
                assert(pred_ok(nums@, j as int, i as int, j as int));
            }
        }
        i = i - 1;
        let ghost old_path = path@;
        path.push(triangle[i][j]);
        proof {
            q = seq![j as int] + q;
            assert(path@.drop_last() =~= old_path);
        }
    }
    proof {
        assert(q[0] == 0);
        assert(is_descent_path(q, n as int));
        assert(sum_i32(path@) == min_sum);
    }
    let reversed = reversed_vec(&path);
    proof {
        assert(reversed@ =~= path_values(nums@, q));
        lemma_sum_i32_reverse(path@);
        assert(sum_i32(reversed@) == min_sum);
        assert forall|p: Seq<int>| is_descent_path(p, reversed@.len() as int) implies sum_i32(
            reversed@,
        ) <= sum_i32(path_values(nums@, p)) by {
            lemma_descent_min_le_path(nums@, p, n as int);
            lemma_row_min_le(nums@, n - 1, n - 1, p[n - 1]);
        }
    }
    reversed
}

} // verus!
