//! Coin-row problem: pick coins of maximum total from a row without ever
//! taking two adjacent ones.

use vstd::prelude::*;
use vstd::math::max;

verus! {

/// The best total over the first `n` coins: either skip the last coin, or
/// take it together with the best over the first `n - 2`.
pub open spec fn coin_row_max(coins: Seq<i32>, n: int) -> int
    decreases n,
{
    if n <= 0 {
        0
    } else if n == 1 {
        coins[0] as int
    } else {
        max(coin_row_max(coins, n - 2) + coins[n - 1], coin_row_max(coins, n - 1))
    }
}

/// The sum of the first `k` coins.
pub open spec fn coin_prefix_sum(coins: Seq<i32>, k: int) -> int
    decreases k,
{
    if k <= 0 {
        0
    } else {
        coin_prefix_sum(coins, k - 1) + coins[k - 1]
    }
}

pub proof fn lemma_coin_prefix_sum_monotone(coins: Seq<i32>, a: int, b: int)
    requires
        forall|i: int| 0 <= i < coins.len() ==> (#[trigger] coins[i]) >= 0,
        0 <= a <= b <= coins.len(),
    ensures
        coin_prefix_sum(coins, a) <= coin_prefix_sum(coins, b),
    decreases b - a,
{
    if a < b {
        lemma_coin_prefix_sum_monotone(coins, a, b - 1);
    }
}

/// With nonnegative coins the best total is between zero (or the first coin)
/// and the sum of all coins considered.
pub proof fn lemma_coin_row_max_bounds(coins: Seq<i32>, n: int)
    requires
        forall|i: int| 0 <= i < coins.len() ==> (#[trigger] coins[i]) >= 0,
        0 <= n <= coins.len(),
    ensures
        0 <= coin_row_max(coins, n) <= coin_prefix_sum(coins, n),
    decreases n,
{
    if n == 1 {
    } else if n > 1 {
        lemma_coin_row_max_bounds(coins, n - 2);
        lemma_coin_row_max_bounds(coins, n - 1);
        assert(coin_prefix_sum(coins, n - 1) <= coin_prefix_sum(coins, n));
    }
}

/// The best total never shrinks as more coins are considered.
pub proof fn lemma_coin_row_max_monotone(coins: Seq<i32>, a: int, b: int)
    requires
        forall|i: int| 0 <= i < coins.len() ==> (#[trigger] coins[i]) >= 0,
        0 <= a <= b <= coins.len(),
    ensures
        coin_row_max(coins, a) <= coin_row_max(coins, b),
    decreases b - a,
{
    if a < b {
        lemma_coin_row_max_monotone(coins, a, b - 1);
        if b == 1 {
        } else {
            lemma_coin_row_max_bounds(coins, b - 2);
        }
    }
}

/// The greatest total of non-adjacent coins picked from the row.
pub fn coin_row(coins: Vec<i32>) -> (result: i32)
    requires
        1 <= coins@.len() < usize::MAX,
        forall|i: int| 0 <= i < coins@.len() ==> (#[trigger] coins@[i]) >= 0,
        coin_prefix_sum(coins@, coins@.len() as int) <= i32::MAX,
    ensures
        result as int == coin_row_max(coins@, coins@.len() as int),
{
    let n = coins.len();
    let mut dp: Vec<i32> = Vec::new();
    let mut k: usize = 0;
    while k <= n
        invariant
            k <= n + 1,
            n == coins@.len() < usize::MAX,
            dp@.len() == k,
            forall|m: int| 0 <= m < k ==> (#[trigger] dp@[m]) == 0,
        decreases n + 1 - k,
    {
        dp.push(0);
        k = k + 1;
    }
    dp[1] = coins[0];
    let mut i: usize = 2;
    while i <= n
        invariant
            2 <= i <= n + 1,
            n == coins@.len() < usize::MAX,
            forall|m: int| 0 <= m < coins@.len() ==> (#[trigger] coins@[m]) >= 0,
            coin_prefix_sum(coins@, n as int) <= i32::MAX,
            dp@.len() == n + 1,
            forall|m: int| 0 <= m < i ==> (#[trigger] dp@[m]) as int == coin_row_max(coins@, m),
        decreases n + 1 - i,
    {
        proof {
            lemma_coin_row_max_bounds(coins@, i - 2);
            lemma_coin_row_max_bounds(coins@, i - 1);
            lemma_coin_row_max_bounds(coins@, i as int);
            lemma_coin_row_max_monotone(coins@, i as int, n as int);
            lemma_coin_row_max_bounds(coins@, n as int);
            lemma_coin_prefix_sum_monotone(coins@, i - 2, i - 1);
            lemma_coin_prefix_sum_monotone(coins@, i as int, n as int);
        }
        let take = dp[i - 2] + coins[i - 1];
        let skip = dp[i - 1];
        if take > skip {
            dp[i] = take;
        } else {
            dp[i] = skip;
        }
        i = i + 1;
    }

    dp[n]
}

} // verus!
