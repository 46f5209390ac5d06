//! 0/1 knapsack: pick a subset of items of maximum total value whose total
//! weight stays within the capacity, and report which items were packed.

use vstd::prelude::*;
use vstd::math::max;

verus! {

/// Something that can be packed: a weight and a value.
pub struct Item {
    pub weight: i32,
    pub value: i32,
}

/// Weights are nonnegative (they are cast to table offsets) and values are
/// nonnegative with a bounded total, so that value sums cannot overflow.
pub open spec fn items_ok(items: Seq<Item>) -> bool {
    &&& forall|i: int| 0 <= i < items.len() ==> (#[trigger] items[i]).weight >= 0
    &&& forall|i: int| 0 <= i < items.len() ==> (#[trigger] items[i]).value >= 0
}

/// The sum of the values of the first `k` items.
pub open spec fn value_prefix_sum(items: Seq<Item>, k: int) -> int
    decreases k,
{
    if k <= 0 {
        0
    } else {
        value_prefix_sum(items, k - 1) + items[k - 1].value
    }
}

/// The best total value over the first `i` items within weight budget `j`:
/// the last item is skipped, or (when it fits) taken.
pub open spec fn knap_max(items: Seq<Item>, i: int, j: int) -> int
    decreases i,
{
    if i <= 0 || j <= 0 {
        0
    } else if items[i - 1].weight > j {
        knap_max(items, i - 1, j)
    } else {
        max(
            knap_max(items, i - 1, j),
            items[i - 1].value + knap_max(items, i - 1, j - items[i - 1].weight),
        )
    }
}

/// The best value is bounded by the total value of the items considered.
pub proof fn lemma_knap_max_bounds(items: Seq<Item>, i: int, j: int)
    requires
        items_ok(items),
        0 <= i <= items.len(),
    ensures
        0 <= knap_max(items, i, j) <= value_prefix_sum(items, i),
    decreases i,
{
    if i > 0 {
        lemma_knap_max_bounds(items, i - 1, j);
        lemma_knap_max_bounds(items, i - 1, j - items[i - 1].weight);
    }
}

/// A selection of one-based item indices: strictly increasing and in range.
pub open spec fn sel_ok(sel: Seq<i32>, n: int) -> bool {
    &&& forall|k: int| 0 <= k < sel.len() ==> 1 <= #[trigger] sel[k] <= n
    &&& forall|k: int| 0 < k < sel.len() ==> sel[k - 1] < #[trigger] sel[k]
}

/// The total weight of the selected items.
pub open spec fn sel_weight(items: Seq<Item>, sel: Seq<i32>) -> int
    decreases sel.len(),
{
    if sel.len() == 0 {
        0
    } else {
        sel_weight(items, sel.drop_last()) + items[sel.last() - 1].weight
    }
}

/// The total value of the selected items.
pub open spec fn sel_value(items: Seq<Item>, sel: Seq<i32>) -> int
    decreases sel.len(),
{
    if sel.len() == 0 {
        0
    } else {
        sel_value(items, sel.drop_last()) + items[sel.last() - 1].value
    }
}

/// The result is a correct packing: the selection is well formed, fits in the
/// budget, and its value is the optimum.
pub open spec fn knapsack_post(items: Seq<Item>, capacity: int, best: int, sel: Seq<i32>) -> bool {
    &&& best == knap_max(items, items.len() as int, capacity)
    &&& sel_ok(sel, items.len() as int)
    &&& sel_weight(items, sel) <= capacity
    &&& sel_value(items, sel) == best
}

/// Reverse a selection recorded from the last item down into increasing
/// order.
fn reverse_selection(v: &Vec<i32>) -> (r: Vec<i32>)
    ensures
        r@ == v@.reverse(),
{
    let mut r: Vec<i32> = Vec::new();
    let mut i: usize = v.len();
    while i > 0
        invariant
            i <= v@.len(),
            r@.len() == v@.len() - i,
            forall|m: int| 0 <= m < r@.len() ==> (#[trigger] r@[m]) == v@[v@.len() - 1 - m],
        decreases i,
    {
        i = i - 1;
        r.push(v[i]);
    }
    proof {
        assert(r@ =~= v@.reverse());
    }
    r
}

/// The value table of the bottom-up solution: row `i`, column `j` holds the
/// best value over the first `i` items within budget `j`.
pub open spec fn knap_table_ok(items: Seq<Item>, dp: Seq<Vec<i32>>, rows: int, cap: int) -> bool {
    forall|a: int, b: int|
        0 <= a < rows && 0 <= b <= cap ==> (#[trigger] dp[a]@[b]) as int == knap_max(items, a, b)
}

/// Walk the solved table back from the full problem: whenever dropping the
/// current item changes the value, the item was packed and its weight is
/// taken out of the budget.
#[verifier::rlimit(50)]
fn knapsack_backtrack(
    dp: &Vec<Vec<i32>>,
    items: &Vec<Item>,
    capacity: i32,
    Ghost(best): Ghost<int>,
) -> (packed: Vec<i32>)
    requires
        items_ok(items@),
        capacity >= 0,
        items@.len() < i32::MAX,
        dp@.len() == items@.len() + 1,
        forall|a: int| 0 <= a <= items@.len() ==> (#[trigger] dp@[a])@.len() == capacity + 1,
        knap_table_ok(items@, dp@, items@.len() as int + 1, capacity as int),
        best == knap_max(items@, items@.len() as int, capacity as int),
    ensures
        sel_ok(packed@, items@.len() as int),
        sel_weight(items@, packed@) <= capacity,
        sel_value(items@, packed@) == best,
{
    let n = items.len();
    let mut rev: Vec<i32> = Vec::new();
    let mut j: usize = capacity as usize;
    let mut i: usize = n;
    while i > 0
        invariant
            i <= n,
            n == items@.len(),
            n < i32::MAX,
            items_ok(items@),
            capacity >= 0,
            j <= capacity,
            dp@.len() == n + 1,
            forall|a: int| 0 <= a <= n ==> (#[trigger] dp@[a])@.len() == capacity + 1,
            knap_table_ok(items@, dp@, n as int + 1, capacity as int),
            forall|k: int| 0 <= k < rev@.len() ==> i < #[trigger] rev@[k] <= n,
            forall|k: int| 0 < k < rev@.len() ==> (#[trigger] rev@[k]) < rev@[k - 1],
            sel_weight_rev(items@, rev@) <= capacity - j,
            sel_value_rev(items@, rev@) + knap_max(items@, i as int, j as int) == best,
        decreases i,
    {
        proof {
            lemma_knap_max_bounds(items@, i as int, j as int);
            lemma_knap_max_bounds(items@, i - 1, j as int);
        }
        let ghost rev0 = rev@;
        if dp[i][j] != dp[i - 1][j] {
            // Dropping item `i` changes the value, so item `i` was packed.
            proof {
                assert(items@[i - 1].weight <= j);
                assert(knap_max(items@, i as int, j as int) == items@[i - 1].value + knap_max(
                    items@,
                    i - 1,
                    j - items@[i - 1].weight,
                ));
            }
            rev.push(i as i32);
            proof {
                assert(rev@.drop_last() =~= rev0);
                assert(rev@.last() == i as i32);
            }
            j = j - (items[i - 1].weight as usize);
        }
        i = i - 1;
    }
    let packed = reverse_selection(&rev);
    proof {
        lemma_sel_reverse(items@, rev@);
        assert(sel_ok(packed@, items@.len() as int));
    }
    packed
}

/// The weight of a selection recorded in decreasing order.
pub open spec fn sel_weight_rev(items: Seq<Item>, sel: Seq<i32>) -> int
    decreases sel.len(),
{
    if sel.len() == 0 {
        0
    } else {
        sel_weight_rev(items, sel.drop_last()) + items[sel.last() - 1].weight
    }
}

/// The value of a selection recorded in decreasing order.
pub open spec fn sel_value_rev(items: Seq<Item>, sel: Seq<i32>) -> int
    decreases sel.len(),
{
    if sel.len() == 0 {
        0
    } else {
        sel_value_rev(items, sel.drop_last()) + items[sel.last() - 1].value
    }
}

/// Reversing a selection keeps its weight and value.
pub proof fn lemma_sel_reverse(items: Seq<Item>, sel: Seq<i32>)
    ensures
        sel_weight(items, sel.reverse()) == sel_weight_rev(items, sel),
        sel_value(items, sel.reverse()) == sel_value_rev(items, sel),
    decreases sel.len(),
{
    if sel.len() > 0 {
        lemma_sel_reverse_first(items, sel.reverse());
        assert(sel.reverse().drop_first() =~= sel.drop_last().reverse());
        lemma_sel_reverse(items, sel.drop_last());
    }
}

/// Peeling the first selected index off the front.
pub proof fn lemma_sel_reverse_first(items: Seq<Item>, sel: Seq<i32>)
    requires
        sel.len() > 0,
    ensures
        sel_weight(items, sel) == items[sel[0] - 1].weight + sel_weight(items, sel.drop_first()),
        sel_value(items, sel) == items[sel[0] - 1].value + sel_value(items, sel.drop_first()),
    decreases sel.len(),
{
    if sel.len() == 1 {
        assert(sel.drop_last() =~= Seq::<i32>::empty());
        assert(sel.drop_first() =~= Seq::<i32>::empty());
    } else {
        lemma_sel_reverse_first(items, sel.drop_last());
        assert(sel.drop_last().drop_first() =~= sel.drop_first().drop_last());
        assert(sel.drop_first().last() == sel.last());
        assert(sel.drop_last()[0] == sel[0]);
    }
}

/// Solve the knapsack bottom up over a full table, then recover the packed
/// items: the greatest attainable value and the packed one-based indices in
/// increasing order.
#[verifier::rlimit(100)]
pub fn knapsack(items: &Vec<Item>, capacity: i32) -> (result: (i32, Vec<i32>))
    requires
        items_ok(items@),
        capacity >= 0,
        items@.len() + 1 <= i32::MAX,
        value_prefix_sum(items@, items@.len() as int) <= i32::MAX,
    ensures
        knapsack_post(items@, capacity as int, result.0 as int, result.1@),
{
    let n = items.len();
    let cap = capacity as usize;
    let mut dp: Vec<Vec<i32>> = Vec::new();
    let mut row: usize = 0;
    while row <= n
        invariant
            row <= n + 1,
            n < i32::MAX,
            cap <= i32::MAX,
            dp@.len() == row,
            forall|a: int| 0 <= a < row ==> (#[trigger] dp@[a])@.len() == cap + 1,
            forall|a: int, b: int|
                0 <= a < row && 0 <= b <= cap ==> (#[trigger] dp@[a]@[b]) == 0,
        decreases n + 1 - row,
    {
        let mut r: Vec<i32> = Vec::new();
        let mut col: usize = 0;
        while col <= cap
            invariant
                col <= cap + 1,
                cap <= i32::MAX,
                r@.len() == col,
                forall|b: int| 0 <= b < col ==> (#[trigger] r@[b]) == 0,
            decreases cap + 1 - col,
        {
            r.push(0);
            col = col + 1;
        }
        dp.push(r);
        row = row + 1;
    }

    let mut i: usize = 1;
    while i <= n
        invariant
            1 <= i <= n + 1,
            n == items@.len(),
            n < i32::MAX,
            cap == capacity,
            capacity >= 0,
            items_ok(items@),
            value_prefix_sum(items@, n as int) <= i32::MAX,
            dp@.len() == n + 1,
            forall|a: int| 0 <= a <= n ==> (#[trigger] dp@[a])@.len() == cap + 1,
            knap_table_ok(items@, dp@, i as int, capacity as int),
            forall|a: int, b: int|
                i <= a <= n && 0 <= b <= cap ==> (#[trigger] dp@[a]@[b]) == 0,
        decreases n + 1 - i,
    {
        let mut j: usize = 1;
        while j <= cap
            invariant
                1 <= i <= n,
                1 <= j <= cap + 1,
                n == items@.len(),
                n < i32::MAX,
                cap == capacity,
                capacity >= 0,
                items_ok(items@),
                value_prefix_sum(items@, n as int) <= i32::MAX,
                dp@.len() == n + 1,
                forall|a: int| 0 <= a <= n ==> (#[trigger] dp@[a])@.len() == cap + 1,
                knap_table_ok(items@, dp@, i as int, capacity as int),
                forall|a: int, b: int|
                    i < a <= n && 0 <= b <= cap ==> (#[trigger] dp@[a]@[b]) == 0,
                forall|b: int| j <= b <= cap ==> (#[trigger] dp@[i as int]@[b]) == 0,
                forall|b: int|
                    0 <= b < j ==> (#[trigger] dp@[i as int]@[b]) as int == knap_max(
                        items@,
                        i as int,
                        b,
                    ),
            decreases cap + 1 - j,
        {
            proof {
                lemma_knap_max_bounds(items@, i - 1, j as int);
                lemma_knap_max_bounds(items@, i as int, j as int);
                lemma_knap_max_bounds(items@, i - 1, j - items@[i - 1].weight);
                lemma_value_prefix_monotone(items@, i as int, n as int);
            }
            let ghost dp0 = dp@;
            if items[i - 1].weight > j as i32 {
                let v = dp[i - 1][j];
                dp[i][j] = v;
            } else {
                let skip = dp[i - 1][j];
                let take = items[i - 1].value + dp[i - 1][j - items[i - 1].weight as usize];
                let v = if take > skip {
                    take
                } else {
                    skip
                };
                dp[i][j] = v;
            }
            proof {
                assert(forall|a: int| 0 <= a <= n && a != i ==> dp@[a] == dp0[a]);
                assert((dp@[i as int]@[j as int]) as int == knap_max(items@, i as int, j as int));
            }
            j = j + 1;
        }
        proof {
            assert(knap_max(items@, i as int, 0) == 0);
            assert(knap_table_ok(items@, dp@, i as int + 1, capacity as int));
        }
        i = i + 1;
    }

    let best = dp[n][cap];
    let packed = knapsack_backtrack(&dp, items, capacity, Ghost(best as int));
    (best, packed)
}

/// Value prefix sums only grow.
pub proof fn lemma_value_prefix_monotone(items: Seq<Item>, a: int, b: int)
    requires
        items_ok(items),
        0 <= a <= b <= items.len(),
    ensures
        value_prefix_sum(items, a) <= value_prefix_sum(items, b),
    decreases b - a,
{
    if a < b {
        lemma_value_prefix_monotone(items, a, b - 1);
    }
}


/// The memo table: one slot per subproblem, holding -1 (not yet computed) or
/// the subproblem's best value; the trivial row and column are pre-filled
/// with zero.
pub open spec fn memo_ok(items: Seq<Item>, memo: Seq<Vec<i32>>, n: int, cap: int) -> bool {
    &&& memo.len() == n + 1
    &&& forall|a: int| 0 <= a <= n ==> (#[trigger] memo[a])@.len() == cap + 1
    &&& forall|a: int, b: int|
        0 <= a <= n && 0 <= b <= cap ==> ((#[trigger] memo[a]@[b]) == -1 || memo[a]@[b] as int
            == knap_max(items, a, b))
    &&& forall|b: int| 0 <= b <= cap ==> (#[trigger] memo[0]@[b]) == 0
    &&& forall|a: int| 0 <= a <= n ==> (#[trigger] memo[a]@[0]) == 0
}

/// Every computed cell rests on computed cells: whatever the recursion wrote,
/// it first wrote the subproblems the backtrack will want to read.
pub open spec fn memo_supported(items: Seq<Item>, memo: Seq<Vec<i32>>, n: int, cap: int) -> bool {
    forall|a: int, b: int|
        1 <= a <= n && 1 <= b <= cap && (#[trigger] memo[a]@[b]) != -1 ==> memo[a - 1]@[b] != -1
            && (items[a - 1].weight <= b ==> memo[a - 1]@[b - items[a - 1].weight] != -1)
}

/// Build the memo table: -1 everywhere except the trivial row and column.
fn build_memo(n: usize, cap: usize) -> (memo: Vec<Vec<i32>>)
    requires
        n < i32::MAX,
        cap <= i32::MAX,
    ensures
        memo@.len() == n + 1,
        forall|a: int| 0 <= a <= n ==> (#[trigger] memo@[a])@.len() == cap + 1,
        forall|a: int, b: int|
            0 <= a <= n && 0 <= b <= cap ==> (#[trigger] memo@[a]@[b]) == (if a == 0 || b == 0 {
                0i32
            } else {
                -1i32
            }),
{
    let mut memo: Vec<Vec<i32>> = Vec::new();
    let mut row: usize = 0;
    while row <= n
        invariant
            row <= n + 1,
            n < i32::MAX,
            cap <= i32::MAX,
            memo@.len() == row,
            forall|a: int| 0 <= a < row ==> (#[trigger] memo@[a])@.len() == cap + 1,
            forall|a: int, b: int|
                0 <= a < row && 0 <= b <= cap ==> (#[trigger] memo@[a]@[b]) == (if a == 0 || b
                    == 0 {
                    0i32
                } else {
                    -1i32
                }),
        decreases n + 1 - row,
    {
        let mut r: Vec<i32> = Vec::new();
        let mut col: usize = 0;
        while col <= cap
            invariant
                col <= cap + 1,
                cap <= i32::MAX,
                r@.len() == col,
                forall|b: int|
                    0 <= b < col ==> (#[trigger] r@[b]) == (if row == 0 || b == 0 {
                        0i32
                    } else {
                        -1i32
                    }),
            decreases cap + 1 - col,
        {
            if row == 0 || col == 0 {
                r.push(0);
            } else {
                r.push(-1);
            }
            col = col + 1;
        }
        memo.push(r);
        row = row + 1;
    }
    memo
}

/// Top-down solver: answer the subproblem over the first `i` items within
/// budget `j`, caching results.
#[verifier::rlimit(100)]
fn knapsack_memoization_helper(
    items: &Vec<Item>,
    i: usize,
    j: usize,
    memo: &mut Vec<Vec<i32>>,
    Ghost(cap): Ghost<int>,
) -> (result: i32)
    requires
        items_ok(items@),
        items@.len() < i32::MAX,
        value_prefix_sum(items@, items@.len() as int) <= i32::MAX,
        i <= items@.len(),
        j <= cap,
        cap <= i32::MAX,
        memo_ok(items@, old(memo)@, items@.len() as int, cap),
        memo_supported(items@, old(memo)@, items@.len() as int, cap),
    ensures
        result as int == knap_max(items@, i as int, j as int),
        memo_ok(items@, final(memo)@, items@.len() as int, cap),
        memo_supported(items@, final(memo)@, items@.len() as int, cap),
        final(memo)@[i as int]@[j as int] != -1,
        forall|a: int, b: int|
            0 <= a <= items@.len() && 0 <= b <= cap && old(memo)@[a]@[b] != -1 ==> (
            #[trigger] final(memo)@[a]@[b]) == old(memo)@[a]@[b],
    decreases i,
{
    let ghost n = items@.len() as int;
    if i == 0 || j == 0 {
        return 0;
    }

    if memo[i][j] != -1 {
        return memo[i][j];
    }

    proof {
        lemma_knap_max_bounds(items@, i as int, j as int);
        lemma_knap_max_bounds(items@, i - 1, j as int);
        lemma_knap_max_bounds(items@, i - 1, j - items@[i - 1].weight);
        lemma_value_prefix_monotone(items@, i - 1, n);
        lemma_value_prefix_monotone(items@, i as int, n);
    }
    let mut max1 = knapsack_memoization_helper(items, i - 1, j, memo, Ghost(cap));

    if j >= items[i - 1].weight as usize {
        let max2 = knapsack_memoization_helper(
            items,
            i - 1,
            j - items[i - 1].weight as usize,
            memo,
            Ghost(cap),
        );
        if max2 + items[i - 1].value > max1 {
            max1 = max2 + items[i - 1].value;
        }
    }

    let ghost memo0 = memo@;
    memo[i][j] = max1;
    proof {
        assert(forall|a: int| 0 <= a <= n && a != i ==> memo@[a] == memo0[a]);
        assert(memo_ok(items@, memo@, n, cap));
        assert forall|a: int, b: int|
            1 <= a <= n && 1 <= b <= cap && (#[trigger] memo@[a]@[b]) != -1 implies memo@[a
            - 1]@[b] != -1 && (items@[a - 1].weight <= b ==> memo@[a - 1]@[b - items@[a
            - 1].weight] != -1) by {
            if a != i || b != j {
                assert(memo0[a]@[b] == memo@[a]@[b]);
            }
        }
    }

    memo[i][j]
}

/// Walk a solved memo table back from the full problem, as
/// `knapsack_backtrack` does over the full table; along the way every cell
/// the walk reads has been computed.
#[verifier::rlimit(100)]
fn knapsack_memo_backtrack(
    memo: &Vec<Vec<i32>>,
    items: &Vec<Item>,
    capacity: i32,
    Ghost(best): Ghost<int>,
) -> (packed: Vec<i32>)
    requires
        items_ok(items@),
        capacity >= 0,
        items@.len() < i32::MAX,
        memo_ok(items@, memo@, items@.len() as int, capacity as int),
        memo_supported(items@, memo@, items@.len() as int, capacity as int),
        memo@[items@.len() as int]@[capacity as int] != -1,
        best == knap_max(items@, items@.len() as int, capacity as int),
    ensures
        sel_ok(packed@, items@.len() as int),
        sel_weight(items@, packed@) <= capacity,
        sel_value(items@, packed@) == best,
{
    let n = items.len();
    let mut rev: Vec<i32> = Vec::new();
    let mut j: usize = capacity as usize;
    let mut i: usize = n;
    while i > 0
        invariant
            i <= n,
            n == items@.len(),
            n < i32::MAX,
            items_ok(items@),
            capacity >= 0,
            j <= capacity,
            memo_ok(items@, memo@, n as int, capacity as int),
            memo_supported(items@, memo@, n as int, capacity as int),
            memo@[i as int]@[j as int] != -1,
            forall|k: int| 0 <= k < rev@.len() ==> i < #[trigger] rev@[k] <= n,
            forall|k: int| 0 < k < rev@.len() ==> (#[trigger] rev@[k]) < rev@[k - 1],
            sel_weight_rev(items@, rev@) <= capacity - j,
            sel_value_rev(items@, rev@) + knap_max(items@, i as int, j as int) == best,
        decreases i,
    {
        proof {
            lemma_knap_max_bounds(items@, i as int, j as int);
            lemma_knap_max_bounds(items@, i - 1, j as int);
            if j == 0 {
                assert(memo@[i - 1]@[0] == 0);
            }
        }
        let ghost rev0 = rev@;
        if memo[i][j] != memo[i - 1][j] {
            // Dropping item `i` changes the value, so item `i` was packed.
            proof {
                assert(memo@[i - 1]@[j as int] != -1);
                assert(items@[i - 1].weight <= j);
                assert(knap_max(items@, i as int, j as int) == items@[i - 1].value + knap_max(
                    items@,
                    i - 1,
                    j - items@[i - 1].weight,
                ));
                assert(memo@[i - 1]@[j - items@[i - 1].weight] != -1);
            }
            rev.push(i as i32);
            proof {
                assert(rev@.drop_last() =~= rev0);
                assert(rev@.last() == i as i32);
            }
            j = j - (items[i - 1].weight as usize);
        } else {
            proof {
                assert(memo@[i - 1]@[j as int] != -1);
            }
        }
        i = i - 1;
    }
    let packed = reverse_selection(&rev);
    proof {
        lemma_sel_reverse(items@, rev@);
        assert(sel_ok(packed@, items@.len() as int));
    }
    packed
}

/// Solve the knapsack top down with memoization and recover the packed items.
pub fn knapsack_memoization(items: &Vec<Item>, capacity: i32) -> (result: (i32, Vec<i32>))
    requires
        items_ok(items@),
        capacity >= 0,
        items@.len() < i32::MAX,
        value_prefix_sum(items@, items@.len() as int) <= i32::MAX,
    ensures
        knapsack_post(items@, capacity as int, result.0 as int, result.1@),
{
    let n = items.len();
    let mut memo = build_memo(n, capacity as usize);

    let max_value = knapsack_memoization_helper(
        items,
        n,
        capacity as usize,
        &mut memo,
        Ghost(capacity as int),
    );

    let packed = knapsack_memo_backtrack(&memo, items, capacity, Ghost(max_value as int));
    (max_value, packed)
}

/// The same top-down solver, recursing on the item count and the remaining
/// capacity as its own arguments.
#[verifier::rlimit(100)]
fn knapsack_memoization_helper_2(
    items: &Vec<Item>,
    capacity: i32,
    n: usize,
    memo: &mut Vec<Vec<i32>>,
    Ghost(cap): Ghost<int>,
) -> (result: i32)
    requires
        items_ok(items@),
        items@.len() < i32::MAX,
        value_prefix_sum(items@, items@.len() as int) <= i32::MAX,
        n <= items@.len(),
        0 <= capacity <= cap,
        cap <= i32::MAX,
        memo_ok(items@, old(memo)@, items@.len() as int, cap),
        memo_supported(items@, old(memo)@, items@.len() as int, cap),
    ensures
        result as int == knap_max(items@, n as int, capacity as int),
        memo_ok(items@, final(memo)@, items@.len() as int, cap),
        memo_supported(items@, final(memo)@, items@.len() as int, cap),
        final(memo)@[n as int]@[capacity as int] != -1,
        forall|a: int, b: int|
            0 <= a <= items@.len() && 0 <= b <= cap && old(memo)@[a]@[b] != -1 ==> (
            #[trigger] final(memo)@[a]@[b]) == old(memo)@[a]@[b],
    decreases n,
{
    let ghost total = items@.len() as int;
    if n == 0 || capacity == 0 {
        return 0;
    }

    if memo[n][capacity as usize] != -1 {
        return memo[n][capacity as usize];
    }

    proof {
        lemma_knap_max_bounds(items@, n as int, capacity as int);
        lemma_knap_max_bounds(items@, n - 1, capacity as int);
        lemma_knap_max_bounds(items@, n - 1, capacity - items@[n - 1].weight);
        lemma_value_prefix_monotone(items@, n - 1, total);
        lemma_value_prefix_monotone(items@, n as int, total);
    }
    if items[n - 1].weight > capacity {
        let v = knapsack_memoization_helper_2(items, capacity, n - 1, memo, Ghost(cap));
        let ghost memo0 = memo@;
        memo[n][capacity as usize] = v;
        proof {
            assert(forall|a: int| 0 <= a <= total && a != n ==> memo@[a] == memo0[a]);
            assert(memo_ok(items@, memo@, total, cap));
            assert forall|a: int, b: int|
                1 <= a <= total && 1 <= b <= cap && (#[trigger] memo@[a]@[b]) != -1 implies memo@[a
                - 1]@[b] != -1 && (items@[a - 1].weight <= b ==> memo@[a - 1]@[b - items@[a
                - 1].weight] != -1) by {
                if a != n || b != capacity {
                    assert(memo0[a]@[b] == memo@[a]@[b]);
                }
            }
        }
        return memo[n][capacity as usize];
    }

    let taken = items[n - 1].value + knapsack_memoization_helper_2(
        items,
        capacity - items[n - 1].weight,
        n - 1,
        memo,
        Ghost(cap),
    );
    let skipped = knapsack_memoization_helper_2(items, capacity, n - 1, memo, Ghost(cap));
    let best = if taken > skipped {
        taken
    } else {
        skipped
    };
    let ghost memo0 = memo@;
    memo[n][capacity as usize] = best;
    proof {
        assert(forall|a: int| 0 <= a <= total && a != n ==> memo@[a] == memo0[a]);
        assert(memo_ok(items@, memo@, total, cap));
        assert forall|a: int, b: int|
            1 <= a <= total && 1 <= b <= cap && (#[trigger] memo@[a]@[b]) != -1 implies memo@[a
            - 1]@[b] != -1 && (items@[a - 1].weight <= b ==> memo@[a - 1]@[b - items@[a
            - 1].weight] != -1) by {
            if a != n || b != capacity {
                assert(memo0[a]@[b] == memo@[a]@[b]);
            }
        }
    }
    memo[n][capacity as usize]
}

/// Solve the knapsack top down, recursing on count and remaining capacity,
/// and recover the packed items.
pub fn knapsack_memoization_2(items: &Vec<Item>, capacity: i32) -> (result: (i32, Vec<i32>))
    requires
        items_ok(items@),
        capacity >= 0,
        items@.len() < i32::MAX,
        value_prefix_sum(items@, items@.len() as int) <= i32::MAX,
    ensures
        knapsack_post(items@, capacity as int, result.0 as int, result.1@),
{
    let n = items.len();
    let mut memo = build_memo(n, capacity as usize);

    let max_value = knapsack_memoization_helper_2(
        items,
        capacity,
        n,
        &mut memo,
        Ghost(capacity as int),
    );

    let packed = knapsack_memo_backtrack(&memo, items, capacity, Ghost(max_value as int));
    (max_value, packed)
}
} // verus!
