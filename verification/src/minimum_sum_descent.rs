//! Minimum-sum descent through a triangle of positive integers.
//!
//! The input is a flat vector holding an equilateral triangle row by row (row
//! `i` has `i + 1` entries).  A descent starts at the apex and moves to one of
//! the two adjacent entries of the next row until it reaches the base; the
//! task is a descent of minimum total, returned as the list of entries it
//! visits.

use vstd::prelude::*;
use vstd::math::min;

verus! {

/// How many entries a triangle of `r` rows holds.  Kept opaque so that the
/// nonlinear definition does not leak into every proof; the lemmas below
/// state what callers need of it.
#[verifier::opaque]
pub open spec fn tri_len(r: int) -> int {
    r * (r + 1) / 2
}

/// The entry of row `i`, column `j`, read from the flat vector.
pub open spec fn tri_cell(nums: Seq<i32>, i: int, j: int) -> i32 {
    nums[tri_len(i) + j]
}

/// The least total of a descent from the apex to row `i`, column `j`
/// (the Bellman recurrence: a cell is entered from the one or two cells
/// adjacent to it in the row above).
pub open spec fn descent_min(nums: Seq<i32>, i: int, j: int) -> int
    decreases i,
{
    if i <= 0 {
        tri_cell(nums, 0, 0) as int
    } else if j == 0 {
        descent_min(nums, i - 1, 0) + tri_cell(nums, i, j)
    } else if j == i {
        descent_min(nums, i - 1, j - 1) + tri_cell(nums, i, j)
    } else {
        min(descent_min(nums, i - 1, j - 1), descent_min(nums, i - 1, j)) + tri_cell(nums, i, j)
    }
}

/// The least of `descent_min(nums, i, 0), ..., descent_min(nums, i, j)`.
pub open spec fn row_min_upto(nums: Seq<i32>, i: int, j: int) -> int
    decreases j,
{
    if j <= 0 {
        descent_min(nums, i, 0)
    } else {
        min(row_min_upto(nums, i, j - 1), descent_min(nums, i, j))
    }
}

/// `p` is the column of each row of a descent over `rows` rows: it starts at
/// the apex and each step stays or moves one column right.
pub open spec fn is_descent_path(p: Seq<int>, rows: int) -> bool {
    &&& p.len() == rows
    &&& (rows > 0 ==> p[0] == 0)
    &&& forall|i: int| 0 <= i < rows ==> 0 <= #[trigger] p[i] <= i
    &&& forall|i: int| 0 < i < rows ==> (#[trigger] p[i]) == p[i - 1] || p[i] == p[i - 1] + 1
}

/// The entries a descent visits.
pub open spec fn path_values(nums: Seq<i32>, p: Seq<int>) -> Seq<i32> {
    Seq::new(p.len(), |i: int| tri_cell(nums, i, p[i]))
}

/// The sum of a sequence of numbers.
pub open spec fn sum_i32(s: Seq<i32>) -> int
    decreases s.len(),
{
    if s.len() == 0 {
        0
    } else {
        sum_i32(s.drop_last()) + s.last()
    }
}

/// The input is triangular: some positive number of complete rows.
pub open spec fn is_triangular_input(nums: Seq<i32>) -> bool {
    exists|r: int| 1 <= r && #[trigger] tri_len(r) == nums.len()
}

/// All entries are positive, as the problem statement has them.
pub open spec fn all_positive(nums: Seq<i32>) -> bool {
    forall|i: int| 0 <= i < nums.len() ==> 0 < #[trigger] nums[i]
}

/// The sum of the first `k` entries.
pub open spec fn prefix_sum(nums: Seq<i32>, k: int) -> int
    decreases k,
{
    if k <= 0 {
        0
    } else {
        prefix_sum(nums, k - 1) + nums[k - 1]
    }
}

pub proof fn lemma_prefix_sum_monotone(nums: Seq<i32>, a: int, b: int)
    requires
        all_positive(nums),
        0 <= a <= b <= nums.len(),
    ensures
        prefix_sum(nums, a) <= prefix_sum(nums, b),
    decreases b - a,
{
    if a < b {
        lemma_prefix_sum_monotone(nums, a, b - 1);
    }
}

pub proof fn lemma_prefix_sum_is_sum(nums: Seq<i32>, k: int)
    requires
        0 <= k <= nums.len(),
    ensures
        prefix_sum(nums, k) == sum_i32(nums.take(k)),
    decreases k,
{
    if k > 0 {
        lemma_prefix_sum_is_sum(nums, k - 1);
        assert(nums.take(k).drop_last() =~= nums.take(k - 1));
        assert(nums.take(k).last() == nums[k - 1]);
    } else {
        assert(nums.take(0) =~= Seq::<i32>::empty());
    }
}

/// The empty triangle holds nothing.
pub proof fn lemma_tri_len_zero()
    ensures
        tri_len(0) == 0,
{
    reveal(tri_len);
}

/// Row `i + 1` starts `i + 1` entries after row `i`.
pub proof fn lemma_tri_len_step(i: int)
    ensures
        tri_len(i + 1) == tri_len(i) + i + 1,
{
    reveal(tri_len);
    assert((i + 1) * (i + 1 + 1) / 2 == i * (i + 1) / 2 + i + 1) by (nonlinear_arith);
}

pub proof fn lemma_tri_len_monotone(a: int, b: int)
    requires
        0 <= a <= b,
    ensures
        0 <= tri_len(a) <= tri_len(b),
        a < b ==> tri_len(a) + a + 1 <= tri_len(b),
    decreases b - a,
{
    assert(tri_len(0) == 0) by {
        reveal(tri_len);
    }
    lemma_tri_len_monotone_from_zero(a);
    if a < b {
        lemma_tri_len_monotone(a + 1, b);
        lemma_tri_len_step(a);
    }
}

proof fn lemma_tri_len_monotone_from_zero(a: int)
    requires
        0 <= a,
    ensures
        0 <= tri_len(a),
    decreases a,
{
    if a == 0 {
        reveal(tri_len);
    } else {
        lemma_tri_len_monotone_from_zero(a - 1);
        lemma_tri_len_step(a - 1);
    }
}

/// A descent's least total to a cell is positive and at most the sum of all
/// entries.
pub proof fn lemma_descent_min_bounds(nums: Seq<i32>, i: int, j: int)
    requires
        all_positive(nums),
        0 <= j <= i,
        tri_len(i + 1) <= nums.len(),
    ensures
        0 < descent_min(nums, i, j) <= prefix_sum(nums, tri_len(i) + j + 1),
    decreases i,
{
    lemma_tri_len_zero();
    lemma_tri_len_step(i);
    lemma_tri_len_monotone(0, i);
    assert(0 <= tri_len(i));
    assert(tri_len(i) + j < nums.len());
    if i == 0 {
        assert(descent_min(nums, 0, 0) == nums[0]);
        assert(prefix_sum(nums, 1) == nums[0]);
    } else {
        lemma_tri_len_step(i - 1);
        if j == 0 {
            lemma_descent_min_bounds(nums, i - 1, 0);
            lemma_prefix_sum_monotone(nums, tri_len(i - 1) + 1, tri_len(i) + j);
        } else if j == i {
            lemma_descent_min_bounds(nums, i - 1, j - 1);
            lemma_prefix_sum_monotone(nums, tri_len(i - 1) + j, tri_len(i) + j);
        } else {
            lemma_descent_min_bounds(nums, i - 1, j - 1);
            lemma_descent_min_bounds(nums, i - 1, j);
            lemma_prefix_sum_monotone(nums, tri_len(i - 1) + j, tri_len(i) + j);
            lemma_prefix_sum_monotone(nums, tri_len(i - 1) + j + 1, tri_len(i) + j);
        }
    }
}

/// The Bellman value is a lower bound for every descent: `descent_min` at a
/// path's last cell is at most the sum of the entries the path visits.
pub proof fn lemma_descent_min_le_path(nums: Seq<i32>, p: Seq<int>, k: int)
    requires
        is_descent_path(p, k),
        1 <= k,
        tri_len(k) <= nums.len(),
    ensures
        descent_min(nums, k - 1, p[k - 1]) <= sum_i32(path_values(nums, p)),
    decreases k,
{
    if k == 1 {
        assert(sum_i32(Seq::<i32>::empty()) == 0);
        assert(path_values(nums, p).drop_last() =~= Seq::<i32>::empty());
        assert(path_values(nums, p).last() == tri_cell(nums, 0, p[0]));
    } else {
        let q = p.take(k - 1);
        assert(forall|i: int| 0 <= i < k - 1 ==> q[i] == p[i]);
        assert(is_descent_path(q, k - 1));
        lemma_tri_len_monotone(k - 1, k);
        lemma_descent_min_le_path(nums, q, k - 1);
        assert(path_values(nums, p).drop_last() =~= path_values(nums, q));
        assert(path_values(nums, p).last() == tri_cell(nums, k - 1, p[k - 1]));
        assert(sum_i32(path_values(nums, p)) == sum_i32(path_values(nums, q)) + tri_cell(
            nums,
            k - 1,
            p[k - 1],
        ));
        let j = p[k - 1];
        let prev = p[k - 2];
        assert(prev == j || prev == j - 1);
        if j == 0 {
            assert(prev == 0);
        } else if j == k - 1 {
            assert(prev == j - 1);
        }
        assert(descent_min(nums, k - 1, j) <= descent_min(nums, k - 2, prev) + tri_cell(
            nums,
            k - 1,
            j,
        ));
    }
}

/// The least value in a row prefix is a lower bound for each of its cells.
pub proof fn lemma_row_min_le(nums: Seq<i32>, i: int, j: int, b: int)
    requires
        0 <= b <= j,
    ensures
        row_min_upto(nums, i, j) <= descent_min(nums, i, b),
    decreases j,
{
    if b < j {
        lemma_row_min_le(nums, i, j - 1, b);
    }
}

pub proof fn lemma_sum_i32_first(s: Seq<i32>)
    requires
        s.len() > 0,
    ensures
        sum_i32(s) == s[0] + sum_i32(s.drop_first()),
    decreases s.len(),
{
    if s.len() == 1 {
        assert(s.drop_last() =~= Seq::<i32>::empty());
        assert(s.drop_first() =~= Seq::<i32>::empty());
    } else {
        lemma_sum_i32_first(s.drop_last());
        assert(s.drop_last().drop_first() =~= s.drop_first().drop_last());
        assert(s.drop_first().last() == s.last());
        assert(s.drop_last()[0] == s[0]);
    }
}

pub proof fn lemma_sum_i32_reverse(s: Seq<i32>)
    ensures
        sum_i32(s.reverse()) == sum_i32(s),
    decreases s.len(),
{
    if s.len() > 0 {
        lemma_sum_i32_reverse(s.drop_first());
        assert(s.reverse().drop_last() =~= s.drop_first().reverse());
        assert(s.reverse().last() == s[0]);
        lemma_sum_i32_first(s);
    }
}

/// `t` is the row-by-row triangle reading of `nums`.
pub open spec fn tri_repr(nums: Seq<i32>, t: Seq<Vec<i32>>) -> bool {
    &&& tri_len(t.len() as int) == nums.len()
    &&& forall|i: int| 0 <= i < t.len() ==> (#[trigger] t[i])@.len() == i + 1
    &&& forall|i: int, j: int|
        0 <= i < t.len() && 0 <= j <= i ==> (#[trigger] t[i]@[j]) == tri_cell(nums, i, j)
}

/// Some descent over the first `i + 1` rows ends at column `j` of row `i` and
/// visits exactly the entries `pv`.
pub open spec fn good_path_to(nums: Seq<i32>, i: int, j: int, pv: Seq<i32>) -> bool {
    exists|q: Seq<int>|
        #[trigger] is_descent_path(q, i + 1) && q[i] == j && pv == path_values(nums, q)
}

/// The cell `(i, j)` is solved: `dpv` is its Bellman value and `pv` is a
/// descent to it whose entries sum to that value.
pub open spec fn cell_solved(nums: Seq<i32>, i: int, j: int, dpv: int, pv: Seq<i32>) -> bool {
    &&& dpv == descent_min(nums, i, j)
    &&& sum_i32(pv) == dpv
    &&& good_path_to(nums, i, j, pv)
}

/// The Bellman value of any cell fits in `i32` when the entries are positive
/// and their total does.
pub proof fn lemma_dm_in_range(nums: Seq<i32>, i: int, j: int, rows: int)
    requires
        all_positive(nums),
        sum_i32(nums) <= i32::MAX,
        0 <= j <= i < rows,
        tri_len(rows as int) == nums.len(),
    ensures
        0 < descent_min(nums, i, j) <= i32::MAX,
{
    lemma_tri_len_monotone(i + 1, rows);
    lemma_descent_min_bounds(nums, i, j);
    lemma_tri_len_step(i);
    lemma_prefix_sum_monotone(nums, tri_len(i) + j + 1, nums.len() as int);
    lemma_prefix_sum_is_sum(nums, nums.len() as int);
    assert(nums.take(nums.len() as int) =~= nums);
}

/// A solved descent to a predecessor cell extends by one step down.
pub proof fn lemma_extend_path(nums: Seq<i32>, i: int, j: int, pj: int, pv: Seq<i32>)
    requires
        good_path_to(nums, i - 1, pj, pv),
        1 <= i,
        0 <= j <= i,
        pj == j || pj == j - 1,
        0 <= pj <= i - 1,
    ensures
        good_path_to(nums, i, j, pv.push(tri_cell(nums, i, j))),
        sum_i32(pv.push(tri_cell(nums, i, j))) == sum_i32(pv) + tri_cell(nums, i, j),
{
    let q = choose|q: Seq<int>|
        #[trigger] is_descent_path(q, i) && q[i - 1] == pj && pv == path_values(nums, q);
    let q2 = q.push(j);
    assert(forall|a: int| 0 <= a < i ==> q2[a] == q[a]);
    assert(is_descent_path(q2, i + 1));
    assert(path_values(nums, q2) =~= pv.push(tri_cell(nums, i, j)));
    assert(pv.push(tri_cell(nums, i, j)).drop_last() =~= pv);
}

/// Whoever returns a solved cell of the last row whose value is the least of
/// that row has solved the whole problem.
pub proof fn lemma_result_is_minimal(nums: Seq<i32>, n: int, j: int, pv: Seq<i32>)
    requires
        1 <= n,
        tri_len(n) == nums.len(),
        0 <= j < n,
        cell_solved(nums, n - 1, j, sum_i32(pv), pv),
        sum_i32(pv) == row_min_upto(nums, n - 1, n - 1),
    ensures
        forall|p: Seq<int>|
            is_descent_path(p, n) ==> sum_i32(pv) <= sum_i32(path_values(nums, p)),
{
    assert forall|p: Seq<int>| is_descent_path(p, n) implies sum_i32(pv) <= sum_i32(
        path_values(nums, p),
    ) by {
        lemma_descent_min_le_path(nums, p, n);
        lemma_row_min_le(nums, n - 1, n - 1, p[n - 1]);
    }
}

/// Copy a vector of numbers.
pub(crate) fn copy_vec(v: &Vec<i32>) -> (r: Vec<i32>)
    ensures
        r@ == v@,
{
    let mut r: Vec<i32> = Vec::new();
    let mut i: usize = 0;
    while i < v.len()
        invariant
            i <= v@.len(),
            r@ == v@.take(i as int),
        decreases v@.len() - i,
    {
        r.push(v[i]);
        proof {
            assert(r@ =~= v@.take(i + 1));
        }
        i = i + 1;
    }
    proof {
        assert(v@.take(i as int) =~= v@);
    }
    r
}

/// Build the row-by-row triangle from the flat vector.
pub(crate) fn build_triangle(nums: &Vec<i32>) -> (t: Vec<Vec<i32>>)
    requires
        is_triangular_input(nums@),
    ensures
        t@.len() >= 1,
        tri_repr(nums@, t@),
        tri_len(t@.len() as int) == nums@.len(),
        forall|i: int| 0 <= i < t@.len() ==> (#[trigger] t@[i])@.len() == i + 1,
        forall|i: int, j: int|
            0 <= i < t@.len() && 0 <= j <= i ==> (#[trigger] t@[i]@[j]) == tri_cell(nums@, i, j),
{
    let ghost r = choose|r: int| 1 <= r && tri_len(r) == nums@.len();
    let mut t: Vec<Vec<i32>> = Vec::new();
    let mut start: usize = 0;
    proof {
        lemma_tri_len_zero();
    }

    while start < nums.len()
        invariant
            1 <= r && tri_len(r) == nums@.len(),
            t@.len() <= r,
            start as int == tri_len(t@.len() as int),
            start <= nums@.len(),
            forall|i: int| 0 <= i < t@.len() ==> (#[trigger] t@[i])@.len() == i + 1,
            forall|i: int, j: int|
                0 <= i < t@.len() && 0 <= j <= i ==> (#[trigger] t@[i]@[j]) == tri_cell(
                    nums@,
                    i,
                    j,
                ),
        decreases nums@.len() - start,
    {
        let rows = t.len();
        proof {
            assert(t@.len() < r) by {
                if r <= t@.len() {
                    lemma_tri_len_monotone(r, t@.len() as int);
                }
            }
            lemma_tri_len_monotone(t@.len() as int + 1, r);
            lemma_tri_len_step(t@.len() as int);
            assert(start as int + t@.len() as int + 1 <= nums@.len());
        }
        let mut row: Vec<i32> = Vec::new();
        let mut j: usize = 0;
        while j <= rows
            invariant
                nums@.len() <= usize::MAX,
                start as int == tri_len(rows as int),
                start as int + rows as int + 1 <= nums@.len(),
                j <= rows + 1,
                row@.len() == j,
                forall|b: int| 0 <= b < j ==> (#[trigger] row@[b]) == nums@[start + b],
            decreases rows + 1 - j,
        {
            row.push(nums[start + j]);
            j = j + 1;
        }
        t.push(row);
        start = start + rows + 1;
    }
    proof {
        assert(t@.len() == r) by {
            if t@.len() < r {
                lemma_tri_len_monotone(t@.len() as int + 1, r);
                lemma_tri_len_step(t@.len() as int);
            }
        }
    }
    t
}


/// Every cell of row `a` below column `upto` is solved.
pub open spec fn row_solved(
    nums: Seq<i32>,
    dp: Seq<Vec<i32>>,
    paths: Seq<Vec<Vec<i32>>>,
    a: int,
    upto: int,
) -> bool {
    forall|b: int|
        0 <= b < upto ==> cell_solved(nums, a, b, dp[a]@[b] as int, (#[trigger] paths[a]@[b])@)
}

/// The value and path tables have one slot per triangle cell.
pub open spec fn tables_shape(dp: Seq<Vec<i32>>, paths: Seq<Vec<Vec<i32>>>, n: int) -> bool {
    &&& dp.len() == n
    &&& paths.len() == n
    &&& forall|a: int| 0 <= a < n ==> (#[trigger] dp[a])@.len() == a + 1
    &&& forall|a: int| 0 <= a < n ==> (#[trigger] paths[a])@.len() == a + 1
}

/// The first and last cell of every row below `upto` is solved.
pub open spec fn edges_solved(
    nums: Seq<i32>,
    dp: Seq<Vec<i32>>,
    paths: Seq<Vec<Vec<i32>>>,
    upto: int,
) -> bool {
    forall|a: int|
        0 <= a < upto ==> cell_solved(nums, a, 0, dp[a]@[0] as int, (#[trigger] paths[a])@[0]@)
            && cell_solved(nums, a, a, dp[a]@[a] as int, paths[a]@[a]@)
}

/// Every cell of every row below `upto` is solved.
pub open spec fn rows_solved(
    nums: Seq<i32>,
    dp: Seq<Vec<i32>>,
    paths: Seq<Vec<Vec<i32>>>,
    upto: int,
) -> bool {
    forall|a: int| 0 <= a < upto ==> #[trigger] row_solved(nums, dp, paths, a, a + 1)
}

/// `result` solves the minimum-sum descent problem on `nums`: it is the list
/// of entries of an actual descent through the whole triangle, and no descent
/// has a smaller total.
pub open spec fn minimum_descent_post(nums: Seq<i32>, result: Seq<i32>) -> bool {
    &&& tri_len(result.len() as int) == nums.len()
    &&& exists|p: Seq<int>|
        #[trigger] is_descent_path(p, result.len() as int) && result == path_values(nums, p)
    &&& forall|p: Seq<int>|
        is_descent_path(p, result.len() as int) ==> sum_i32(result) <= sum_i32(
            path_values(nums, p),
        )
}

/// Solve one interior cell `(row, col)` of the triangle: take the smaller of
/// the two solved cells above it, extend that cell's descent, and record both.
#[verifier::rlimit(100)]
fn fill_cell(
    dp: &mut Vec<Vec<i32>>,
    paths: &mut Vec<Vec<Vec<i32>>>,
    triangle: &Vec<Vec<i32>>,
    row: usize,
    col: usize,
    Ghost(nums): Ghost<Seq<i32>>,
    Ghost(n): Ghost<int>,
)
    requires
        1 <= col < row < n,
        triangle@.len() == n,
        tri_repr(nums, triangle@),
        all_positive(nums),
        sum_i32(nums) <= i32::MAX,
        tables_shape(old(dp)@, old(paths)@, n),
        edges_solved(nums, old(dp)@, old(paths)@, n),
        rows_solved(nums, old(dp)@, old(paths)@, row as int),
        row_solved(nums, old(dp)@, old(paths)@, row as int, col as int),
    ensures
        tables_shape(final(dp)@, final(paths)@, n),
        edges_solved(nums, final(dp)@, final(paths)@, n),
        rows_solved(nums, final(dp)@, final(paths)@, row as int),
        row_solved(nums, final(dp)@, final(paths)@, row as int, col as int + 1),
{
    proof {
        assert(row_solved(nums, dp@, paths@, row - 1, row as int));
        assert(cell_solved(nums, row - 1, col - 1, dp@[row - 1]@[col - 1] as int, (
        paths@[row - 1])@[col - 1]@));
        assert(cell_solved(nums, row - 1, col as int, dp@[row - 1]@[col as int] as int, (
        paths@[row - 1])@[col as int]@));
        lemma_dm_in_range(nums, row - 1, col - 1, n);
        lemma_dm_in_range(nums, row - 1, col as int, n);
        lemma_dm_in_range(nums, row as int, col as int, n);
    }
    let ghost dp0 = dp@;
    let ghost paths0 = paths@;
    if dp[row - 1][col - 1] < dp[row - 1][col] {
        let v = dp[row - 1][col - 1] + triangle[row][col];
        dp[row][col] = v;
        let mut pc = copy_vec(&paths[row - 1][col - 1]);
        pc.push(triangle[row][col]);
        proof {
            lemma_extend_path(nums, row as int, col as int, col - 1, paths@[row - 1]@[col - 1]@);
        }
        paths[row][col] = pc;
    } else {
        let v = dp[row - 1][col] + triangle[row][col];
        dp[row][col] = v;
        let mut pc = copy_vec(&paths[row - 1][col]);
        pc.push(triangle[row][col]);
        proof {
            lemma_extend_path(nums, row as int, col as int, col as int, paths@[row - 1]@[col
                as int]@);
        }
        paths[row][col] = pc;
    }
    proof {
        assert(cell_solved(nums, row as int, col as int, dp@[row as int]@[col as int] as int, (
        paths@[row as int])@[col as int]@));
        assert forall|a: int| 0 <= a < row implies #[trigger] row_solved(nums, dp@, paths@, a, a + 1) by {
            assert(row_solved(nums, dp0, paths0, a, a + 1));
            assert(dp@[a] == dp0[a]);
            assert(paths@[a] == paths0[a]);
            assert forall|b: int| 0 <= b < a + 1 implies cell_solved(
                nums,
                a,
                b,
                dp@[a]@[b] as int,
                (#[trigger] paths@[a]@[b])@,
            ) by {
                assert(cell_solved(nums, a, b, dp0[a]@[b] as int, paths0[a]@[b]@));
            }
        }
        assert(row_solved(nums, dp@, paths@, row as int, col as int + 1));
        assert forall|a: int| 0 <= a < n implies cell_solved(
            nums,
            a,
            0,
            dp@[a]@[0] as int,
            (#[trigger] paths@[a])@[0]@,
        ) && cell_solved(nums, a, a, dp@[a]@[a] as int, paths@[a]@[a]@) by {
            assert(cell_solved(nums, a, 0, dp0[a]@[0] as int, paths0[a]@[0]@));
            assert(cell_solved(nums, a, a, dp0[a]@[a] as int, paths0[a]@[a]@));
            if a != row {
                assert(dp@[a] == dp0[a]);
                assert(paths@[a] == paths0[a]);
            }
        }
    }
}

/// Find the path of least total from the apex to the base, keeping for every
/// cell the best descent to it (as its list of entries) beside its Bellman
/// value.
#[verifier::rlimit(100)]
pub fn calculate_minimum_sum_descent_2(nums: Vec<i32>) -> (result: Vec<i32>)
    requires
        is_triangular_input(nums@),
        all_positive(nums@),
        sum_i32(nums@) <= i32::MAX,
    ensures
        minimum_descent_post(nums@, result@),
{
    // Convert the vector of integers into a triangle representation.
    let triangle = build_triangle(&nums);
    let n = triangle.len();

    // Placeholder tables, one slot per cell.
    let mut paths: Vec<Vec<Vec<i32>>> = Vec::new();
    let mut row: usize = 0;
    while row < n
        invariant
            row <= n,
            paths@.len() == row,
            forall|a: int| 0 <= a < row ==> (#[trigger] paths@[a])@.len() == a + 1,
        decreases n - row,
    {
        let mut r: Vec<Vec<i32>> = Vec::new();
        let mut col: usize = 0;
        while col <= row
            invariant
                row < n <= usize::MAX,
                col <= row + 1,
                r@.len() == col,
            decreases row + 1 - col,
        {
            r.push(Vec::new());
            col = col + 1;
        }
        paths.push(r);
        row = row + 1;
    }

    let mut dp: Vec<Vec<i32>> = Vec::new();
    let mut row: usize = 0;
    while row < n
        invariant
            row <= n,
            dp@.len() == row,
            forall|a: int| 0 <= a < row ==> (#[trigger] dp@[a])@.len() == a + 1,
        decreases n - row,
    {
        let mut r: Vec<i32> = Vec::new();
        let mut col: usize = 0;
        while col <= row
            invariant
                row < n <= usize::MAX,
                col <= row + 1,
                r@.len() == col,
            decreases row + 1 - col,
        {
            r.push(0);
            col = col + 1;
        }
        dp.push(r);
        row = row + 1;
    }

    // Initialize the base case.
    dp[0][0] = triangle[0][0];
    let mut apex: Vec<i32> = Vec::new();
    apex.push(triangle[0][0]);
    proof {
        let q = seq![0int];
        assert(is_descent_path(q, 1));
        assert(path_values(nums@, q) =~= apex@);
        assert(apex@.drop_last() =~= Seq::<i32>::empty());
        assert(sum_i32(Seq::<i32>::empty()) == 0);
        assert(cell_solved(nums@, 0, 0, dp@[0]@[0] as int, apex@));
    }
    paths[0][0] = apex;

    // Compute the boundary cases of the first and the last column of each row.
    let mut i: usize = 1;
    while i < n
        invariant
            1 <= i <= n,
            tri_repr(nums@, triangle@),
            triangle@.len() == n,
            all_positive(nums@),
            sum_i32(nums@) <= i32::MAX,
            tables_shape(dp@, paths@, n as int),
            edges_solved(nums@, dp@, paths@, i as int),
        decreases n - i,
    {
        proof {
            assert(cell_solved(nums@, i - 1, 0, dp@[i - 1]@[0] as int, paths@[i - 1]@[0]@));
            assert(cell_solved(nums@, i - 1, i - 1, dp@[i - 1]@[i - 1] as int, paths@[i
                - 1]@[i - 1]@));
            lemma_dm_in_range(nums@, i - 1, 0, n as int);
            lemma_dm_in_range(nums@, i as int, 0, n as int);
            lemma_dm_in_range(nums@, i - 1, i - 1, n as int);
            lemma_dm_in_range(nums@, i as int, i as int, n as int);
        }
        let v0 = dp[i - 1][0] + triangle[i][0];
        dp[i][0] = v0;
        let mut p0 = copy_vec(&paths[i - 1][0]);
        p0.push(triangle[i][0]);
        proof {
            lemma_extend_path(nums@, i as int, 0, 0, paths@[i - 1]@[0]@);
        }
        paths[i][0] = p0;
        proof {
            assert(cell_solved(nums@, i as int, 0, dp@[i as int]@[0] as int, paths@[i as int]@[0]@));
        }

        let vi = dp[i - 1][i - 1] + triangle[i][i];
        dp[i][i] = vi;
        let mut pi = copy_vec(&paths[i - 1][i - 1]);
        pi.push(triangle[i][i]);
        proof {
            lemma_extend_path(nums@, i as int, i as int, i - 1, paths@[i - 1]@[i - 1]@);
        }
        paths[i][i] = pi;
        proof {
            assert(cell_solved(nums@, i as int, i as int, dp@[i as int]@[i as int] as int, (
            paths@[i as int])@[i as int]@));
            assert(edges_solved(nums@, dp@, paths@, i as int + 1));
        }

        i = i + 1;
    }

    // Compute the interior cells row by row.
    let mut row: usize = 1;
    while row < n
        invariant
            1 <= row <= n,
            tri_repr(nums@, triangle@),
            triangle@.len() == n,
            all_positive(nums@),
            sum_i32(nums@) <= i32::MAX,
            tables_shape(dp@, paths@, n as int),
            edges_solved(nums@, dp@, paths@, n as int),
            rows_solved(nums@, dp@, paths@, row as int),
        decreases n - row,
    {
        let mut col: usize = 1;
        while col < row
            invariant
                1 <= row < n,
                1 <= col <= row,
                tri_repr(nums@, triangle@),
                triangle@.len() == n,
                all_positive(nums@),
                sum_i32(nums@) <= i32::MAX,
                tables_shape(dp@, paths@, n as int),
                edges_solved(nums@, dp@, paths@, n as int),
                rows_solved(nums@, dp@, paths@, row as int),
                row_solved(nums@, dp@, paths@, row as int, col as int),
            decreases row - col,
        {
            fill_cell(&mut dp, &mut paths, &triangle, row, col, Ghost(nums@), Ghost(n as int));
            col = col + 1;
        }
        proof {
            assert(cell_solved(nums@, row as int, row as int, dp@[row as int]@[row as int] as int, (
            paths@[row as int])@[row as int]@));
            assert(cell_solved(nums@, row as int, 0, dp@[row as int]@[0] as int, (
            paths@[row as int])@[0]@));
            assert(row_solved(nums@, dp@, paths@, row as int, row as int + 1));
            assert(rows_solved(nums@, dp@, paths@, row as int + 1));
        }
        row = row + 1;
    }

    // Find the least total in the last row and return its descent.
    proof {
        assert(row_solved(nums@, dp@, paths@, n - 1, n as int));
    }
    let mut min_sum = dp[n - 1][0];
    let mut min_path = copy_vec(&paths[n - 1][0]);
    let ghost mut min_col: int = 0;
    let mut col: usize = 1;
    while col < n
        invariant
            1 <= col <= n,
            tri_repr(nums@, triangle@),
            tables_shape(dp@, paths@, n as int),
            rows_solved(nums@, dp@, paths@, n as int),
            0 <= min_col < col,
            min_sum == dp@[n - 1]@[min_col],
            min_path@ == paths@[n - 1]@[min_col]@,
            min_sum as int == row_min_upto(nums@, n - 1, col - 1),
        decreases n - col,
    {
        proof {
            assert(row_solved(nums@, dp@, paths@, n - 1, n as int));
            assert(cell_solved(nums@, n - 1, col as int, dp@[n - 1]@[col as int] as int, (
            paths@[n - 1])@[col as int]@));
        }
        if dp[n - 1][col] < min_sum {
            min_sum = dp[n - 1][col];
            min_path = copy_vec(&paths[n - 1][col]);
            proof {
                min_col = col as int;
            }
        }
        col = col + 1;
    }
    proof {
        assert(row_solved(nums@, dp@, paths@, n - 1, n as int));
        assert(cell_solved(nums@, n - 1, min_col, min_sum as int, min_path@));
        let q = choose|q: Seq<int>|
            #[trigger] is_descent_path(q, n as int) && q[n - 1] == min_col && min_path@
                == path_values(nums@, q);
        assert(min_path@.len() == n);
        lemma_result_is_minimal(nums@, n as int, min_col, min_path@);
    }
    min_path
}

/// Solve one interior cell as `fill_cell` does, but for the table variant
/// that seeds interior cells with `i32::MAX` and lowers them with `min`.
#[verifier::rlimit(100)]
fn fill_cell_capped(
    dp: &mut Vec<Vec<i32>>,
    paths: &mut Vec<Vec<Vec<i32>>>,
    triangle: &Vec<Vec<i32>>,
    row: usize,
    col: usize,
    Ghost(nums): Ghost<Seq<i32>>,
    Ghost(n): Ghost<int>,
)
    requires
        1 <= col < row < n,
        triangle@.len() == n,
        tri_repr(nums, triangle@),
        all_positive(nums),
        sum_i32(nums) <= i32::MAX,
        tables_shape(old(dp)@, old(paths)@, n),
        edges_solved(nums, old(dp)@, old(paths)@, n),
        rows_solved(nums, old(dp)@, old(paths)@, row as int),
        row_solved(nums, old(dp)@, old(paths)@, row as int, col as int),
        old(dp)@[row as int]@[col as int] == i32::MAX,
    ensures
        tables_shape(final(dp)@, final(paths)@, n),
        edges_solved(nums, final(dp)@, final(paths)@, n),
        rows_solved(nums, final(dp)@, final(paths)@, row as int),
        row_solved(nums, final(dp)@, final(paths)@, row as int, col as int + 1),
        forall|b: int|
            col < b <= row ==> final(dp)@[row as int]@[b] == old(dp)@[row as int]@[b],
        forall|a: int|
            0 <= a < n && a != row ==> final(dp)@[a] == old(dp)@[a] && final(paths)@[a] == old(
                paths,
            )@[a],
{
    proof {
        lemma_tri_len_monotone(row as int, n);
        lemma_tri_len_monotone(row as int + 1, n);
        lemma_tri_len_step(row as int);
        assert(0 <= tri_len(row as int) + col < nums.len());
        assert(tri_cell(nums, row as int, col as int) > 0);
        assert(row_solved(nums, dp@, paths@, row - 1, row as int));
        assert(cell_solved(nums, row - 1, col - 1, dp@[row - 1]@[col - 1] as int, (
        paths@[row - 1])@[col - 1]@));
        assert(cell_solved(nums, row - 1, col as int, dp@[row - 1]@[col as int] as int, (
        paths@[row - 1])@[col as int]@));
        lemma_dm_in_range(nums, row - 1, col - 1, n);
        lemma_dm_in_range(nums, row - 1, col as int, n);
        lemma_dm_in_range(nums, row as int, col as int, n);
    }
    let ghost dp0 = dp@;
    let ghost paths0 = paths@;
    let temp: i32;
    let temp_sequence: Vec<i32>;
    let ghost pj: int;
    if dp[row - 1][col - 1] < dp[row - 1][col] {
        temp = dp[row - 1][col - 1];
        temp_sequence = copy_vec(&paths[row - 1][col - 1]);
        proof {
            pj = col - 1;
        }
    } else {
        temp = dp[row - 1][col];
        temp_sequence = copy_vec(&paths[row - 1][col]);
        proof {
            pj = col as int;
        }
    }
    let lowered = if temp + triangle[row][col] < dp[row][col] {
        temp + triangle[row][col]
    } else {
        dp[row][col]
    };
    dp[row][col] = lowered;
    if lowered > temp {
        let mut pc = temp_sequence;
        pc.push(triangle[row][col]);
        proof {
            lemma_extend_path(nums, row as int, col as int, pj, paths@[row - 1]@[pj]@);
        }
        paths[row][col] = pc;
    }
    proof {
        assert(cell_solved(nums, row as int, col as int, dp@[row as int]@[col as int] as int, (
        paths@[row as int])@[col as int]@));
        assert forall|a: int| 0 <= a < row implies #[trigger] row_solved(nums, dp@, paths@, a, a + 1) by {
            assert(row_solved(nums, dp0, paths0, a, a + 1));
            assert(dp@[a] == dp0[a]);
            assert(paths@[a] == paths0[a]);
            assert forall|b: int| 0 <= b < a + 1 implies cell_solved(
                nums,
                a,
                b,
                dp@[a]@[b] as int,
                (#[trigger] paths@[a]@[b])@,
            ) by {
                assert(cell_solved(nums, a, b, dp0[a]@[b] as int, paths0[a]@[b]@));
            }
        }
        assert(row_solved(nums, dp@, paths@, row as int, col as int + 1));
        assert forall|a: int| 0 <= a < n implies cell_solved(
            nums,
            a,
            0,
            dp@[a]@[0] as int,
            (#[trigger] paths@[a])@[0]@,
        ) && cell_solved(nums, a, a, dp@[a]@[a] as int, paths@[a]@[a]@) by {
            assert(cell_solved(nums, a, 0, dp0[a]@[0] as int, paths0[a]@[0]@));
            assert(cell_solved(nums, a, a, dp0[a]@[a] as int, paths0[a]@[a]@));
            if a != row {
                assert(dp@[a] == dp0[a]);
                assert(paths@[a] == paths0[a]);
            }
        }
    }
}

/// Find the path of least total from the apex to the base.  The working table
/// starts at `i32::MAX` for interior cells and is lowered to the least
/// reachable total; the path to each cell is kept beside it.
#[verifier::rlimit(100)]
pub fn calculate_minimum_sum_descent(nums: Vec<i32>) -> (result: Vec<i32>)
    requires
        is_triangular_input(nums@),
        all_positive(nums@),
        sum_i32(nums@) <= i32::MAX,
    ensures
        minimum_descent_post(nums@, result@),
{
    // Convert the input vector into the triangle representation.
    let triangle = build_triangle(&nums);
    let n = triangle.len();

    // Placeholder path table, one slot per cell.
    let mut paths: Vec<Vec<Vec<i32>>> = Vec::new();
    let mut row: usize = 0;
    while row < n
        invariant
            row <= n,
            paths@.len() == row,
            forall|a: int| 0 <= a < row ==> (#[trigger] paths@[a])@.len() == a + 1,
        decreases n - row,
    {
        let mut r: Vec<Vec<i32>> = Vec::new();
        let mut col: usize = 0;
        while col <= row
            invariant
                row < n,
                n <= usize::MAX,
                col <= row + 1,
                r@.len() == col,
            decreases row + 1 - col,
        {
            r.push(Vec::new());
            col = col + 1;
        }
        paths.push(r);
        row = row + 1;
    }

    // The working table starts at the largest value everywhere.
    let mut dp: Vec<Vec<i32>> = Vec::new();
    let mut row: usize = 0;
    while row < n
        invariant
            row <= n,
            dp@.len() == row,
            forall|a: int| 0 <= a < row ==> (#[trigger] dp@[a])@.len() == a + 1,
            forall|a: int, b: int|
                0 <= a < row && 0 <= b <= a ==> (#[trigger] dp@[a]@[b]) == i32::MAX,
        decreases n - row,
    {
        let mut r: Vec<i32> = Vec::new();
        let mut col: usize = 0;
        while col <= row
            invariant
                row < n,
                n <= usize::MAX,
                col <= row + 1,
                r@.len() == col,
                forall|b: int| 0 <= b < col ==> (#[trigger] r@[b]) == i32::MAX,
            decreases row + 1 - col,
        {
            r.push(i32::MAX);
            col = col + 1;
        }
        dp.push(r);
        row = row + 1;
    }

    dp[0][0] = triangle[0][0];
    let mut apex: Vec<i32> = Vec::new();
    apex.push(triangle[0][0]);
    proof {
        let q = seq![0int];
        assert(is_descent_path(q, 1));
        assert(path_values(nums@, q) =~= apex@);
        assert(apex@.drop_last() =~= Seq::<i32>::empty());
        assert(sum_i32(Seq::<i32>::empty()) == 0);
        assert(cell_solved(nums@, 0, 0, dp@[0]@[0] as int, apex@));
    }
    paths[0][0] = apex;

    // The first and the last cell of each row have a single predecessor.
    let mut i: usize = 1;
    while i < n
        invariant
            1 <= i <= n,
            tri_repr(nums@, triangle@),
            triangle@.len() == n,
            all_positive(nums@),
            sum_i32(nums@) <= i32::MAX,
            tables_shape(dp@, paths@, n as int),
            edges_solved(nums@, dp@, paths@, i as int),
            forall|a: int, b: int|
                0 <= a < n && 0 < b < a ==> (#[trigger] dp@[a]@[b]) == i32::MAX,
        decreases n - i,
    {
        proof {
            assert(cell_solved(nums@, i - 1, 0, dp@[i - 1]@[0] as int, paths@[i - 1]@[0]@));
            assert(cell_solved(nums@, i - 1, i - 1, dp@[i - 1]@[i - 1] as int, paths@[i
                - 1]@[i - 1]@));
            lemma_dm_in_range(nums@, i - 1, 0, n as int);
            lemma_dm_in_range(nums@, i as int, 0, n as int);
            lemma_dm_in_range(nums@, i - 1, i - 1, n as int);
            lemma_dm_in_range(nums@, i as int, i as int, n as int);
        }
        let v0 = dp[i - 1][0] + triangle[i][0];
        dp[i][0] = v0;
        let mut p0 = copy_vec(&paths[i - 1][0]);
        p0.push(triangle[i][0]);
        proof {
            lemma_extend_path(nums@, i as int, 0, 0, paths@[i - 1]@[0]@);
        }
        paths[i][0] = p0;
        proof {
            assert(cell_solved(nums@, i as int, 0, dp@[i as int]@[0] as int, paths@[i as int]@[0]@));
        }

        let last: usize = i;
        let prev_last: usize = i - 1;
        let vi = dp[i - 1][prev_last] + triangle[i][last];
        dp[i][last] = vi;
        let mut pi = copy_vec(&paths[i - 1][prev_last]);
        pi.push(triangle[i][last]);
        proof {
            lemma_extend_path(nums@, i as int, i as int, i - 1, paths@[i - 1]@[i - 1]@);
        }
        paths[i][last] = pi;
        proof {
            assert(cell_solved(nums@, i as int, i as int, dp@[i as int]@[i as int] as int, (
            paths@[i as int])@[i as int]@));
            assert(edges_solved(nums@, dp@, paths@, i as int + 1));
        }

        i = i + 1;
    }

    // Lower every interior cell from its two predecessors.
    let mut i: usize = 1;
    while i < n
        invariant
            1 <= i <= n,
            tri_repr(nums@, triangle@),
            triangle@.len() == n,
            all_positive(nums@),
            sum_i32(nums@) <= i32::MAX,
            tables_shape(dp@, paths@, n as int),
            edges_solved(nums@, dp@, paths@, n as int),
            rows_solved(nums@, dp@, paths@, i as int),
            forall|a: int, b: int|
                0 <= a < n && 0 < b < a && a >= i ==> (#[trigger] dp@[a]@[b]) == i32::MAX,
        decreases n - i,
    {
        let mut j: usize = 1;
        while j < i
            invariant
                1 <= i < n,
                1 <= j <= i,
                tri_repr(nums@, triangle@),
                triangle@.len() == n,
                all_positive(nums@),
                sum_i32(nums@) <= i32::MAX,
                tables_shape(dp@, paths@, n as int),
                edges_solved(nums@, dp@, paths@, n as int),
                rows_solved(nums@, dp@, paths@, i as int),
                row_solved(nums@, dp@, paths@, i as int, j as int),
                forall|a: int, b: int|
                    0 <= a < n && 0 < b < a && (a > i || (a == i && b >= j)) ==> (
                    #[trigger] dp@[a]@[b]) == i32::MAX,
            decreases i - j,
        {
            fill_cell_capped(&mut dp, &mut paths, &triangle, i, j, Ghost(nums@), Ghost(n as int));
            j = j + 1;
        }
        proof {
            assert(cell_solved(nums@, i as int, i as int, dp@[i as int]@[i as int] as int, (
            paths@[i as int])@[i as int]@));
            assert(cell_solved(nums@, i as int, 0, dp@[i as int]@[0] as int, (
            paths@[i as int])@[0]@));
            assert(row_solved(nums@, dp@, paths@, i as int, i as int + 1));
            assert(rows_solved(nums@, dp@, paths@, i as int + 1));
        }
        i = i + 1;
    }

    // Pick the least total of the last row and return its path.
    proof {
        assert(row_solved(nums@, dp@, paths@, n - 1, n as int));
        assert(cell_solved(nums@, n - 1, 0, dp@[n - 1]@[0] as int, paths@[n - 1]@[0]@));
    }
    let mut min_index: usize = 0;
    let mut min_value = dp[n - 1][0];
    let mut i: usize = 1;
    while i < n
        invariant
            1 <= i <= n,
            tables_shape(dp@, paths@, n as int),
            rows_solved(nums@, dp@, paths@, n as int),
            min_index < i,
            min_value == dp@[n - 1]@[min_index as int],
            min_value as int == row_min_upto(nums@, n - 1, i - 1),
        decreases n - i,
    {
        proof {
            assert(row_solved(nums@, dp@, paths@, n - 1, n as int));
            assert(cell_solved(nums@, n - 1, i as int, dp@[n - 1]@[i as int] as int, (
            paths@[n - 1])@[i as int]@));
        }
        if dp[n - 1][i] < min_value {
            min_index = i;
            min_value = dp[n - 1][i];
        }
        i = i + 1;
    }

    proof {
        assert(row_solved(nums@, dp@, paths@, n - 1, n as int));
        assert(cell_solved(nums@, n - 1, min_index as int, dp@[n - 1]@[min_index as int] as int, (
        paths@[n - 1])@[min_index as int]@));
    }
    let result = copy_vec(&paths[n - 1][min_index]);
    proof {
        let q = choose|q: Seq<int>|
            #[trigger] is_descent_path(q, n as int) && q[n - 1] == min_index as int && result@
                == path_values(nums@, q);
        assert(result@.len() == n);
        lemma_result_is_minimal(nums@, n as int, min_index as int, result@);
    }
    result
}

/// The first `upto` cells of row `a` of the value table hold their Bellman
/// values.
pub open spec fn dp_row_solved(nums: Seq<i32>, dp: Seq<Vec<i32>>, a: int, upto: int) -> bool {
    forall|b: int| 0 <= b < upto ==> (#[trigger] dp[a]@[b]) as int == descent_min(nums, a, b)
}

/// Every row below `upto` of the value table is fully solved.
pub open spec fn dp_rows_solved(nums: Seq<i32>, dp: Seq<Vec<i32>>, upto: int) -> bool {
    forall|a: int| 0 <= a < upto ==> #[trigger] dp_row_solved(nums, dp, a, a + 1)
}

/// `pj` is a predecessor column through which the best descent to `(a, b)`
/// passes.
pub open spec fn pred_ok(nums: Seq<i32>, pj: int, a: int, b: int) -> bool {
    &&& (pj == b || pj == b - 1)
    &&& 0 <= pj <= a - 1
    &&& descent_min(nums, a, b) == descent_min(nums, a - 1, pj) + tri_cell(nums, a, b)
}

/// Copy a vector of numbers in reverse order.
pub(crate) fn reversed_vec(v: &Vec<i32>) -> (r: Vec<i32>)
    ensures
        r@ == v@.reverse(),
{
    let mut r: Vec<i32> = Vec::new();
    let mut i: usize = v.len();
    while i > 0
        invariant
            i <= v@.len(),
            r@.len() == v@.len() - i,
            forall|m: int| 0 <= m < r@.len() ==> (#[trigger] r@[m]) == v@[v@.len() - 1 - m],
        decreases i,
    {
        i = i - 1;
        r.push(v[i]);
    }
    proof {
        assert(r@ =~= v@.reverse());
    }
    r
}

/// Find the path of least total from the apex to the base: solve every cell
/// in place, remember each cell's predecessor column, and walk the
/// predecessor links back up from the best cell of the base.
#[verifier::rlimit(100)]
pub fn calculate_minimum_sum_descent_3(nums: Vec<i32>) -> (result: Vec<i32>)
    requires
        is_triangular_input(nums@),
        all_positive(nums@),
        sum_i32(nums@) <= i32::MAX,
    ensures
        minimum_descent_post(nums@, result@),
{
    let triangle = build_triangle(&nums);
    let n = triangle.len();

    // The value table starts as a copy of the triangle.
    let mut dp: Vec<Vec<i32>> = Vec::new();
    let mut row: usize = 0;
    while row < n
        invariant
            row <= n,
            triangle@.len() == n,
            tri_repr(nums@, triangle@),
            dp@.len() == row,
            forall|a: int| 0 <= a < row ==> (#[trigger] dp@[a])@ == triangle@[a]@,
        decreases n - row,
    {
        dp.push(copy_vec(&triangle[row]));
        row = row + 1;
    }

    // The predecessor table, one slot per cell.
    let mut path: Vec<Vec<usize>> = Vec::new();
    let mut row: usize = 0;
    while row < n
        invariant
            row <= n,
            path@.len() == row,
            forall|a: int| 0 <= a < row ==> (#[trigger] path@[a])@.len() == a + 1,
        decreases n - row,
    {
        let mut r: Vec<usize> = Vec::new();
        let mut col: usize = 0;
        while col <= row
            invariant
                row < n,
                n <= usize::MAX,
                col <= row + 1,
                r@.len() == col,
            decreases row + 1 - col,
        {
            r.push(0);
            col = col + 1;
        }
        path.push(r);
        row = row + 1;
    }

    let mut i: usize = 1;
    while i < n
        invariant
            1 <= i <= n,
            tri_repr(nums@, triangle@),
            triangle@.len() == n,
            all_positive(nums@),
            sum_i32(nums@) <= i32::MAX,
            dp@.len() == n,
            path@.len() == n,
            forall|a: int| 0 <= a < n ==> (#[trigger] dp@[a])@.len() == a + 1,
            forall|a: int| 0 <= a < n ==> (#[trigger] path@[a])@.len() == a + 1,
            forall|a: int| i <= a < n ==> (#[trigger] dp@[a])@ == triangle@[a]@,
            dp_rows_solved(nums@, dp@, i as int),
            forall|a: int, b: int|
                1 <= a < i && 0 <= b <= a ==> pred_ok(nums@, (#[trigger] path@[a]@[b]) as int, a, b),
        decreases n - i,
    {
        let mut j: usize = 0;
        while j <= i
            invariant
                1 <= i < n,
                j <= i + 1,
                tri_repr(nums@, triangle@),
                triangle@.len() == n,
                all_positive(nums@),
                sum_i32(nums@) <= i32::MAX,
                dp@.len() == n,
                path@.len() == n,
                forall|a: int| 0 <= a < n ==> (#[trigger] dp@[a])@.len() == a + 1,
                forall|a: int| 0 <= a < n ==> (#[trigger] path@[a])@.len() == a + 1,
                forall|a: int| i < a < n ==> (#[trigger] dp@[a])@ == triangle@[a]@,
                forall|b: int| j <= b <= i ==> (#[trigger] dp@[i as int]@[b]) == triangle@[i as int]@[b],
                dp_rows_solved(nums@, dp@, i as int),
                dp_row_solved(nums@, dp@, i as int, j as int),
                forall|a: int, b: int|
                    1 <= a < i && 0 <= b <= a ==> pred_ok(nums@, (#[trigger] path@[a]@[b]) as int, a, b),
                forall|b: int|
                    0 <= b < j ==> pred_ok(nums@, (#[trigger] path@[i as int]@[b]) as int, i as int, b),
            decreases i + 1 - j,
        {
            proof {
                assert(dp_row_solved(nums@, dp@, i - 1, (i - 1) + 1));
                assert(dp_row_solved(nums@, dp@, i - 1, i as int));
                lemma_dm_in_range(nums@, i as int, j as int, n as int);
                if j > 0 {
                    lemma_dm_in_range(nums@, i - 1, j - 1, n as int);
                }
                if j < i {
                    lemma_dm_in_range(nums@, i - 1, j as int, n as int);
                }
            }
            let ghost dp0 = dp@;
            let ghost path0 = path@;
            if j == 0 {
                // The first cell of the row descends from the row above it.
                let v = dp[i][j] + dp[i - 1][j];
                dp[i][j] = v;
                path[i][j] = j;
            } else if j == i {
                // So does the last one.
                let v = dp[i][j] + dp[i - 1][j - 1];
                dp[i][j] = v;
                path[i][j] = j - 1;
            } else {
                if dp[i - 1][j - 1] < dp[i - 1][j] {
                    let v = dp[i][j] + dp[i - 1][j - 1];
                    dp[i][j] = v;
                    path[i][j] = j - 1;
                } else {
                    let v = dp[i][j] + dp[i - 1][j];
                    dp[i][j] = v;
                    path[i][j] = j;
                }
            }
            proof {
                assert((dp@[i as int]@[j as int]) as int == descent_min(nums@, i as int, j as int));
                assert(pred_ok(nums@, (path@[i as int]@[j as int]) as int, i as int, j as int));
                assert(forall|a: int| 0 <= a < n && a != i ==> dp@[a] == dp0[a]);
                assert(forall|a: int| 0 <= a < n && a != i ==> path@[a] == path0[a]);
                assert forall|a: int| 0 <= a < i implies #[trigger] dp_row_solved(
                    nums@,
                    dp@,
                    a,
                    a + 1,
                ) by {
                    assert(dp_row_solved(nums@, dp0, a, a + 1));
                }
            }
            j = j + 1;
        }
        proof {
            assert(dp_row_solved(nums@, dp@, i as int, i as int + 1));
            assert(dp_rows_solved(nums@, dp@, i as int + 1));
        }
        i = i + 1;
    }

    // Find the least total in the last row.
    proof {
        assert(dp_row_solved(nums@, dp@, n - 1, n as int));
    }
    let mut min_index: usize = 0;
    let mut min_sum = dp[n - 1][0];
    let mut j: usize = 1;
    while j < n
        invariant
            1 <= j <= n,
            dp@.len() == n,
            forall|a: int| 0 <= a < n ==> (#[trigger] dp@[a])@.len() == a + 1,
            dp_rows_solved(nums@, dp@, n as int),
            min_index < j,
            min_sum == dp@[n - 1]@[min_index as int],
            min_sum as int == row_min_upto(nums@, n - 1, j - 1),
        decreases n - j,
    {
        proof {
            assert(dp_row_solved(nums@, dp@, n - 1, n as int));
        }
        if dp[n - 1][j] < min_sum {
            min_sum = dp[n - 1][j];
            min_index = j;
        }
        j = j + 1;
    }

    // Trace the predecessor links from the base back to the apex.
    proof {
        assert(dp_row_solved(nums@, dp@, n - 1, n as int));
    }
    let mut result: Vec<i32> = Vec::new();
    result.push(triangle[n - 1][min_index]);
    let ghost mut q: Seq<int> = seq![min_index as int];
    proof {
        assert(result@.drop_last() =~= Seq::<i32>::empty());
        assert(sum_i32(Seq::<i32>::empty()) == 0);
    }
    let mut i: usize = n - 1;
    while i > 0
        invariant
            i < n,
            tri_repr(nums@, triangle@),
            triangle@.len() == n,
            all_positive(nums@),
            sum_i32(nums@) <= i32::MAX,
            path@.len() == n,
            forall|a: int| 0 <= a < n ==> (#[trigger] path@[a])@.len() == a + 1,
            forall|a: int, b: int|
                1 <= a < n && 0 <= b <= a ==> pred_ok(nums@, (#[trigger] path@[a]@[b]) as int, a, b),
            q.len() == n - i,
            min_index as int == q[0],
            forall|k: int| 0 <= k < q.len() ==> 0 <= #[trigger] q[k] <= i + k,
            forall|k: int| 0 < k < q.len() ==> (#[trigger] q[k]) == q[k - 1] || q[k] == q[k - 1] + 1,
            result@.len() == n - i,
            forall|m: int|
                0 <= m < result@.len() ==> (#[trigger] result@[m]) == tri_cell(
                    nums@,
                    n - 1 - m,
                    q[n - 1 - m - i],
                ),
            sum_i32(result@) == min_sum - descent_min(nums@, i as int, q[0]) + tri_cell(
                nums@,
                i as int,
                q[0],
            ),
        decreases i,
    {
        proof {
            assert(pred_ok(nums@, (path@[i as int]@[min_index as int]) as int, i as int,
                min_index as int));
        }
        let prev = path[i][min_index];
        i = i - 1;
        min_index = prev;
        let ghost old_result = result@;
        result.push(triangle[i][min_index]);
        proof {
            q = seq![min_index as int] + q;
            assert(result@.drop_last() =~= old_result);
        }
    }
    proof {
        assert(q[0] == 0);
        assert(is_descent_path(q, n as int));
        assert(sum_i32(result@) == min_sum);
    }
    let reversed = reversed_vec(&result);
    proof {
        assert(reversed@ =~= path_values(nums@, q));
        lemma_sum_i32_reverse(result@);
        assert(sum_i32(reversed@) == min_sum);
        assert forall|p: Seq<int>| is_descent_path(p, reversed@.len() as int) implies sum_i32(
            reversed@,
        ) <= sum_i32(path_values(nums@, p)) by {
            lemma_descent_min_le_path(nums@, p, n as int);
            lemma_row_min_le(nums@, n - 1, n - 1, p[n - 1]);
        }
    }
    reversed
}
} // verus!
