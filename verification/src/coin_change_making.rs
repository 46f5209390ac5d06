//! Change making: pay an amount with the fewest coins from a set of
//! denominations that includes the unit coin.

use vstd::prelude::*;
use vstd::math::min;

verus! {

/// A very large stand-in for "no way to pay".
pub open spec fn no_way() -> int {
    0x1_0000_0000_0000_0000
}

/// All denominations are positive coins.
pub open spec fn coins_ok(coins: Seq<usize>) -> bool {
    forall|t: int| 0 <= t < coins.len() ==> 1 <= #[trigger] coins[t]
}

/// The set contains the unit coin, so every amount can be paid.
pub open spec fn has_unit_coin(coins: Seq<usize>) -> bool {
    exists|t: int| 0 <= t < coins.len() && #[trigger] coins[t] == 1
}

/// The fewest coins that pay amount `i`: one coin of some denomination that
/// fits, plus the fewest that pay the rest.
pub open spec fn min_coins(coins: Seq<usize>, i: int) -> int
    decreases i, coins.len() + 1
        when coins_ok(coins)
{
    if i <= 0 {
        0
    } else {
        1 + best_rest(coins, coins.len() as int, i)
    }
}

/// The fewest coins that pay the rest after spending one of the first `k`
/// denominations on amount `i` (`no_way()` when none of them fits).
pub open spec fn best_rest(coins: Seq<usize>, k: int, i: int) -> int
    decreases i, k
        when coins_ok(coins) && i >= 1
{
    if k <= 0 || k > coins.len() {
        no_way()
    } else {
        let rest = best_rest(coins, k - 1, i);
        if coins[k - 1] <= i {
            min(rest, min_coins(coins, i - coins[k - 1]))
        } else {
            rest
        }
    }
}

/// With the unit coin at hand, `r` coins always suffice for any amount up to
/// `i`.
pub proof fn lemma_min_coins_le_amount(coins: Seq<usize>, i: int)
    requires
        coins_ok(coins),
        has_unit_coin(coins),
        0 <= i,
    ensures
        forall|r: int| 0 <= r <= i ==> 0 <= #[trigger] min_coins(coins, r) <= r,
    decreases i,
{
    if i > 0 {
        lemma_min_coins_le_amount(coins, i - 1);
        let t = choose|t: int| 0 <= t < coins.len() && #[trigger] coins[t] == 1;
        lemma_best_rest_le(coins, t + 1, coins.len() as int, i);
        lemma_best_rest_nonneg(coins, coins.len() as int, i);
    }
}

/// Considering more denominations can only help.
pub proof fn lemma_best_rest_le(coins: Seq<usize>, k: int, k2: int, i: int)
    requires
        coins_ok(coins),
        1 <= k <= k2 <= coins.len(),
        i >= 1,
        coins[k - 1] <= i,
        0 <= min_coins(coins, i - coins[k - 1]),
    ensures
        best_rest(coins, k2, i) <= min_coins(coins, i - coins[k - 1]),
    decreases k2,
{
    if k < k2 {
        lemma_best_rest_le(coins, k, k2 - 1, i);
    }
}

pub proof fn lemma_best_rest_nonneg(coins: Seq<usize>, k: int, i: int)
    requires
        coins_ok(coins),
        i >= 1,
        0 <= k <= coins.len(),
        forall|r: int| 0 <= r < i ==> 0 <= #[trigger] min_coins(coins, r),
    ensures
        0 <= best_rest(coins, k, i),
    decreases k,
{
    if k > 0 {
        lemma_best_rest_nonneg(coins, k - 1, i);
        if coins[k - 1] <= i {
            assert(0 <= min_coins(coins, i - coins[k - 1]));
        }
    }
}

/// The fewest coins that pay amount `n` from the given denominations.
pub fn change_making(n: usize, coins: Vec<usize>) -> (result: usize)
    requires
        coins_ok(coins@),
        has_unit_coin(coins@),
        n < usize::MAX,
    ensures
        result as int == min_coins(coins@, n as int),
{
    let mut dp: Vec<usize> = Vec::new();
    let mut k: usize = 0;
    while k <= n
        invariant
            k <= n + 1,
            n < usize::MAX,
            dp@.len() == k,
            forall|m: int| 0 <= m < k ==> (#[trigger] dp@[m]) == n,
        decreases n + 1 - k,
    {
        dp.push(n);
        k = k + 1;
    }
    dp[0] = 0;

    let mut i: usize = 1;
    while i <= n
        invariant
            1 <= i <= n + 1,
            n < usize::MAX,
            coins_ok(coins@),
            has_unit_coin(coins@),
            dp@.len() == n + 1,
            forall|m: int| 0 <= m < i ==> (#[trigger] dp@[m]) as int == min_coins(coins@, m),
            forall|m: int| i <= m <= n ==> (#[trigger] dp@[m]) == n,
        decreases n + 1 - i,
    {
        let mut t: usize = 0;
        while t < coins.len()
            invariant
                1 <= i <= n,
                n < usize::MAX,
                t <= coins@.len(),
                coins_ok(coins@),
                has_unit_coin(coins@),
                dp@.len() == n + 1,
                forall|m: int| 0 <= m < i ==> (#[trigger] dp@[m]) as int == min_coins(coins@, m),
                forall|m: int| i < m <= n ==> (#[trigger] dp@[m]) == n,
                dp@[i as int] as int == min(n as int, 1 + best_rest(coins@, t as int, i as int)),
            decreases coins@.len() - t,
        {
            let coin = coins[t];
            proof {
                if coin <= i {
                    lemma_min_coins_le_amount(coins@, i - coin);
                }
            }
            if i >= coin {
                let candidate = dp[i - coin] + 1;
                if candidate < dp[i] {
                    dp[i] = candidate;
                }
            }
            t = t + 1;
        }
        proof {
            lemma_min_coins_le_amount(coins@, i as int);
            assert(dp@[i as int] as int == min_coins(coins@, i as int));
        }
        i = i + 1;
    }

    dp[n]
}


/// The sum of a list of coins.
pub open spec fn usum(s: Seq<usize>) -> int
    decreases s.len(),
{
    if s.len() == 0 {
        0
    } else {
        usum(s.drop_last()) + s.last()
    }
}

/// How many times the coin `c` occurs in the list.
pub open spec fn count_occ(s: Seq<usize>, c: usize) -> int
    decreases s.len(),
{
    if s.len() == 0 {
        0
    } else {
        count_occ(s.drop_last(), c) + if s.last() == c {
            1int
        } else {
            0int
        }
    }
}

/// A coin occurs at least once exactly when the list contains it.
pub proof fn lemma_count_occ_contains(s: Seq<usize>, c: usize)
    ensures
        count_occ(s, c) >= 1 <==> s.contains(c),
        count_occ(s, c) >= 0,
    decreases s.len(),
{
    if s.len() > 0 {
        lemma_count_occ_contains(s.drop_last(), c);
        if s.contains(c) && s.last() != c {
            let j = choose|j: int| 0 <= j < s.len() && s[j] == c;
            assert(s.drop_last()[j] == c);
            assert(s.drop_last().contains(c));
        }
        if s.drop_last().contains(c) {
            let j = choose|j: int| 0 <= j < s.drop_last().len() && s.drop_last()[j] == c;
            assert(s[j] == c);
        }
    }
}

/// `result` tabulates an actual way to pay `n` with `m` coins of the given
/// denominations: each listed pair is a used denomination with its exact use
/// count, and every used denomination is listed.
pub open spec fn change_pairs_ok(
    coins: Seq<usize>,
    n: int,
    m: int,
    result: Seq<(usize, usize)>,
) -> bool {
    exists|used: Seq<usize>|
        #[trigger] usum(used) == n && used.len() == m && (forall|i: int|
            0 <= i < used.len() ==> coins.contains(#[trigger] used[i])) && (forall|t: int|
            0 <= t < result.len() ==> (#[trigger] result[t]).1 == count_occ(used, result[t].0)
                && count_occ(used, result[t].0) >= 1) && (forall|c: usize|
            count_occ(used, c) >= 1 ==> exists|t: int|
                0 <= t < result.len() && (#[trigger] result[t]).0 == c)
}

/// How many times `c` occurs in the vector.
fn count_occurrences(v: &Vec<usize>, c: usize) -> (count: usize)
    ensures
        count == count_occ(v@, c),
{
    proof {
        lemma_count_occ_nonneg_all(v@, c);
    }
    let mut count: usize = 0;
    let mut i: usize = 0;
    while i < v.len()
        invariant
            i <= v@.len(),
            count == count_occ(v@.take(i as int), c),
            count <= i,
        decreases v@.len() - i,
    {
        proof {
            assert(v@.take(i + 1).drop_last() =~= v@.take(i as int));
            assert(v@.take(i + 1).last() == v@[i as int]);
            lemma_count_occ_le_len(v@.take(i as int), c);
        }
        if v[i] == c {
            count = count + 1;
        }
        i = i + 1;
    }
    proof {
        assert(v@.take(i as int) =~= v@);
    }
    count
}

pub proof fn lemma_count_occ_le_len(s: Seq<usize>, c: usize)
    ensures
        0 <= count_occ(s, c) <= s.len(),
    decreases s.len(),
{
    if s.len() > 0 {
        lemma_count_occ_le_len(s.drop_last(), c);
    }
}

proof fn lemma_count_occ_nonneg_all(s: Seq<usize>, c: usize)
    ensures
        forall|k: int| 0 <= k <= s.len() ==> 0 <= #[trigger] count_occ(s.take(k), c),
{
    assert forall|k: int| 0 <= k <= s.len() implies 0 <= #[trigger] count_occ(s.take(k), c) by {
        lemma_count_occ_le_len(s.take(k), c);
    }
}

/// Copy a list of coins.
fn copy_coins(v: &Vec<usize>) -> (r: Vec<usize>)
    ensures
        r@ == v@,
{
    let mut r: Vec<usize> = Vec::new();
    let mut i: usize = 0;
    while i < v.len()
        invariant
            i <= v@.len(),
            r@ == v@.take(i as int),
        decreases v@.len() - i,
    {
        r.push(v[i]);
        proof {
            assert(r@ =~= v@.take(i + 1));
        }
        i = i + 1;
    }
    proof {
        assert(v@.take(i as int) =~= v@);
    }
    r
}

/// Sort denomination/count pairs by denomination, biggest first.  The
/// denominations are distinct, so the order is strict.
fn sort_pairs_desc(v: Vec<(usize, usize)>) -> (r: Vec<(usize, usize)>)
    requires
        forall|a: int, b: int|
            0 <= a < b < v@.len() ==> (#[trigger] v@[a]).0 != (#[trigger] v@[b]).0,
    ensures
        r@.len() == v@.len(),
        forall|a: int, b: int|
            0 <= a < b < r@.len() ==> (#[trigger] r@[a]).0 > (#[trigger] r@[b]).0,
        forall|t: int| 0 <= t < r@.len() ==> v@.contains(#[trigger] r@[t]),
        forall|t: int| 0 <= t < v@.len() ==> r@.contains(#[trigger] v@[t]),
{
    let ghost v0 = v@;
    let mut v = v;
    let mut r: Vec<(usize, usize)> = Vec::new();
    while v.len() > 0
        invariant
            r@.len() + v@.len() == v0.len(),
            forall|a: int, b: int|
                0 <= a < b < v@.len() ==> (#[trigger] v@[a]).0 != (#[trigger] v@[b]).0,
            forall|a: int, b: int|
                0 <= a < b < r@.len() ==> (#[trigger] r@[a]).0 > (#[trigger] r@[b]).0,
            forall|t: int| 0 <= t < r@.len() ==> v0.contains(#[trigger] r@[t]),
            forall|t: int| 0 <= t < v@.len() ==> v0.contains(#[trigger] v@[t]),
            forall|t: int|
                0 <= t < v0.len() ==> r@.contains(#[trigger] v0[t]) || v@.contains(v0[t]),
            forall|a: int, t: int|
                0 <= a < r@.len() && 0 <= t < v@.len() ==> (#[trigger] r@[a]).0 > (
                #[trigger] v@[t]).0,
        decreases v@.len(),
    {
        let mut best: usize = 0;
        let mut t: usize = 1;
        while t < v.len()
            invariant
                v@.len() > 0,
                best < t <= v@.len(),
                forall|m: int| 0 <= m < t ==> (#[trigger] v@[m]).0 <= v@[best as int].0,
            decreases v@.len() - t,
        {
            if v[t].0 > v[best].0 {
                best = t;
            }
            t = t + 1;
        }
        let ghost vbefore = v@;
        let ghost r0 = r@;
        let item = v.remove(best);
        r.push(item);
        proof {
            assert(v@ == vbefore.remove(best as int));
            assert(r@ == r0.push(vbefore[best as int]));
            assert forall|t2: int| 0 <= t2 < v0.len() implies r@.contains(#[trigger] v0[t2])
                || v@.contains(v0[t2]) by {
                if r0.contains(v0[t2]) {
                    let a = choose|a: int| 0 <= a < r0.len() && r0[a] == v0[t2];
                    assert(r@[a] == v0[t2]);
                } else {
                    let j = choose|j: int| 0 <= j < vbefore.len() && vbefore[j] == v0[t2];
                    if j == best {
                        assert(r@[r@.len() - 1] == v0[t2]);
                    } else if j < best {
                        assert(v@[j] == vbefore[j]);
                    } else {
                        assert(v@[j - 1] == vbefore[j]);
                    }
                }
            }
            assert forall|t2: int| 0 <= t2 < v@.len() implies v0.contains(#[trigger] v@[t2]) by {
                if t2 < best {
                    assert(v@[t2] == vbefore[t2]);
                } else {
                    assert(v@[t2] == vbefore[t2 + 1]);
                }
            }
            assert forall|a: int, b: int|
                0 <= a < b < v@.len() implies (#[trigger] v@[a]).0 != (#[trigger] v@[b]).0 by {
                let a2 = if a < best {
                    a
                } else {
                    a + 1
                };
                let b2 = if b < best {
                    b
                } else {
                    b + 1
                };
                assert(v@[a] == vbefore[a2]);
                assert(v@[b] == vbefore[b2]);
            }
            assert forall|a: int, t2: int|
                0 <= a < r@.len() && 0 <= t2 < v@.len() implies (#[trigger] r@[a]).0 > (
            #[trigger] v@[t2]).0 by {
                let t3 = if t2 < best {
                    t2
                } else {
                    t2 + 1
                };
                assert(v@[t2] == vbefore[t3]);
                assert(vbefore[t3].0 <= vbefore[best as int].0);
                if a < r@.len() - 1 {
                } else {
                    assert(r@[a] == vbefore[best as int]);
                    assert(vbefore[t3].0 != vbefore[best as int].0);
                }
            }
        }
    }
    r
}

/// Pay `n` with the fewest coins and report each used denomination with its
/// use count, the biggest denomination first.
#[verifier::rlimit(100)]
pub fn change_making_with_coins(n: usize, coins: Vec<usize>) -> (result: Vec<(usize, usize)>)
    requires
        coins_ok(coins@),
        has_unit_coin(coins@),
        n < usize::MAX,
    ensures
        forall|a: int, b: int|
            0 <= a < b < result@.len() ==> (#[trigger] result@[a]).0 > (#[trigger] result@[b]).0,
        change_pairs_ok(coins@, n as int, min_coins(coins@, n as int), result@),
        n == 0 ==> result@.len() == 0,
{
    let mut dp: Vec<usize> = Vec::new();
    let mut used: Vec<Vec<usize>> = Vec::new();
    let mut k: usize = 0;
    while k <= n
        invariant
            k <= n + 1,
            n < usize::MAX,
            dp@.len() == k,
            used@.len() == k,
            forall|m: int| 0 <= m < k ==> (#[trigger] dp@[m]) == usize::MAX,
            forall|m: int| 0 <= m < k ==> (#[trigger] used@[m])@.len() == 0,
        decreases n + 1 - k,
    {
        dp.push(usize::MAX);
        used.push(Vec::new());
        k = k + 1;
    }
    dp[0] = 0;
    proof {
        assert(usum(used@[0]@) == 0);
    }

    let mut i: usize = 1;
    while i <= n
        invariant
            1 <= i <= n + 1,
            n < usize::MAX,
            coins_ok(coins@),
            has_unit_coin(coins@),
            dp@.len() == n + 1,
            used@.len() == n + 1,
            dp@[0] == 0,
            usum(used@[0]@) == 0,
            used@[0]@.len() == 0,
            forall|m: int| 0 <= m < i ==> (#[trigger] dp@[m]) as int == min_coins(coins@, m),
            forall|m: int|
                0 <= m < i ==> usum((#[trigger] used@[m])@) == m && used@[m]@.len() == dp@[m]
                    && (forall|q: int|
                    0 <= q < used@[m]@.len() ==> coins@.contains(#[trigger] used@[m]@[q])),
            forall|m: int| i <= m <= n ==> (#[trigger] dp@[m]) == usize::MAX,
        decreases n + 1 - i,
    {
        let mut t: usize = 0;
        while t < coins.len()
            invariant
                1 <= i <= n,
                n < usize::MAX,
                t <= coins@.len(),
                coins_ok(coins@),
                has_unit_coin(coins@),
                dp@.len() == n + 1,
                used@.len() == n + 1,
                dp@[0] == 0,
                usum(used@[0]@) == 0,
                used@[0]@.len() == 0,
                forall|m: int| 0 <= m < i ==> (#[trigger] dp@[m]) as int == min_coins(coins@, m),
                forall|m: int|
                    0 <= m < i ==> usum((#[trigger] used@[m])@) == m && used@[m]@.len() == dp@[m]
                        && (forall|q: int|
                        0 <= q < used@[m]@.len() ==> coins@.contains(#[trigger] used@[m]@[q])),
                forall|m: int| i < m <= n ==> (#[trigger] dp@[m]) == usize::MAX,
                dp@[i as int] as int == min(
                    usize::MAX as int,
                    1 + best_rest(coins@, t as int, i as int),
                ),
                dp@[i as int] != usize::MAX ==> usum(used@[i as int]@) == i
                    && used@[i as int]@.len() == dp@[i as int] && (forall|q: int|
                    0 <= q < used@[i as int]@.len() ==> coins@.contains(
                        #[trigger] used@[i as int]@[q],
                    )),
            decreases coins@.len() - t,
        {
            let coin = coins[t];
            proof {
                if coin <= i {
                    lemma_min_coins_le_amount(coins@, i - coin);
                }
            }
            if i >= coin {
                let candidate = dp[i - coin] + 1;
                if candidate < dp[i] {
                    dp[i] = candidate;
                    let mut better = copy_coins(&used[i - coin]);
                    better.push(coin);
                    proof {
                        assert(better@.drop_last() =~= used@[i - coin]@);
                        assert(usum(better@) == i);
                        assert(coins@[t as int] == coin);
                        assert(coins@.contains(coin));
                    }
                    used[i] = better;
                }
            }
            t = t + 1;
        }
        proof {
            lemma_min_coins_le_amount(coins@, i as int);
            assert(dp@[i as int] as int == min_coins(coins@, i as int));
            assert(dp@[i as int] != usize::MAX);
        }
        i = i + 1;
    }

    // Count the distinct denominations of the chosen payment, in order of
    // first appearance.
    proof {
        assert(usum(used@[n as int]@) == n && used@[n as int]@.len() == dp@[n as int]);
    }
    let chosen = copy_coins(&used[n]);
    let ghost ch = chosen@;
    let mut coin_count: Vec<usize> = Vec::new();
    let mut p: usize = 0;
    while p < chosen.len()
        invariant
            p <= ch.len(),
            chosen@ == ch,
            forall|a: int, b: int|
                0 <= a < b < coin_count@.len() ==> (#[trigger] coin_count@[a]) != (
                #[trigger] coin_count@[b]),
            forall|a: int| 0 <= a < coin_count@.len() ==> ch.contains(#[trigger] coin_count@[a]),
            forall|m: int| 0 <= m < p ==> coin_count@.contains(#[trigger] ch[m]),
        decreases ch.len() - p,
    {
        let c = chosen[p];
        let seen = count_occurrences(&coin_count, c);
        proof {
            lemma_count_occ_contains(coin_count@, c);
        }
        if seen == 0 {
            let ghost cc0 = coin_count@;
            coin_count.push(c);
            proof {
                assert forall|a: int|
                    0 <= a < coin_count@.len() implies ch.contains(#[trigger] coin_count@[a]) by {
                    if a < cc0.len() {
                        assert(coin_count@[a] == cc0[a]);
                    } else {
                        assert(coin_count@[a] == c);
                        assert(ch[p as int] == c);
                    }
                }
                assert forall|m: int| 0 <= m < p + 1 implies coin_count@.contains(
                    #[trigger] ch[m],
                ) by {
                    if m < p {
                        let a = choose|a: int| 0 <= a < cc0.len() && cc0[a] == ch[m];
                        assert(coin_count@[a] == ch[m]);
                    } else {
                        assert(coin_count@[coin_count@.len() - 1] == ch[m]);
                    }
                }
            }
        } else {
            proof {
                assert(coin_count@.contains(c));
                assert(ch[p as int] == c);
            }
        }
        p = p + 1;
    }

    // Pair each denomination with its use count.
    let mut unsorted: Vec<(usize, usize)> = Vec::new();
    let mut q: usize = 0;
    while q < coin_count.len()
        invariant
            q <= coin_count@.len(),
            chosen@ == ch,
            forall|a: int, b: int|
                0 <= a < b < coin_count@.len() ==> (#[trigger] coin_count@[a]) != (
                #[trigger] coin_count@[b]),
            forall|a: int| 0 <= a < coin_count@.len() ==> ch.contains(#[trigger] coin_count@[a]),
            forall|m: int| 0 <= m < ch.len() ==> coin_count@.contains(#[trigger] ch[m]),
            unsorted@.len() == q,
            forall|t2: int|
                0 <= t2 < q ==> (#[trigger] unsorted@[t2]) == (
                coin_count@[t2],
                count_occ(ch, coin_count@[t2]) as usize,
            ),
        decreases coin_count@.len() - q,
    {
        let c = coin_count[q];
        proof {
            lemma_count_occ_le_len(ch, c);
        }
        let cnt = count_occurrences(&chosen, c);
        unsorted.push((c, cnt));
        q = q + 1;
    }

    proof {
        assert forall|a: int, b: int|
            0 <= a < b < unsorted@.len() implies (#[trigger] unsorted@[a]).0 != (
        #[trigger] unsorted@[b]).0 by {
            assert(unsorted@[a].0 == coin_count@[a]);
            assert(unsorted@[b].0 == coin_count@[b]);
        }
    }
    let result = sort_pairs_desc(unsorted);
    proof {
        assert(ch.len() <= usize::MAX);
        lemma_change_pairs(coins@, n as int, ch, coin_count@, unsorted@, result@, dp@[n as int] as int);
        if n == 0 {
            assert(ch.len() == 0);
            if coin_count@.len() > 0 {
                assert(ch.contains(coin_count@[0]));
                assert(false);
            }
        }
    }
    result
}

/// Wrap up the bookkeeping of the counting pass: the sorted pairs tabulate
/// the chosen payment.
proof fn lemma_change_pairs(
    coins: Seq<usize>,
    n: int,
    ch: Seq<usize>,
    coin_count: Seq<usize>,
    unsorted: Seq<(usize, usize)>,
    result: Seq<(usize, usize)>,
    m: int,
)
    requires
        usum(ch) == n,
        ch.len() == m,
        ch.len() <= usize::MAX,
        forall|q: int| 0 <= q < ch.len() ==> coins.contains(#[trigger] ch[q]),
        forall|a: int| 0 <= a < coin_count.len() ==> ch.contains(#[trigger] coin_count[a]),
        forall|q: int| 0 <= q < ch.len() ==> coin_count.contains(#[trigger] ch[q]),
        unsorted.len() == coin_count.len(),
        forall|t: int|
            0 <= t < unsorted.len() ==> (#[trigger] unsorted[t]) == (
                coin_count[t],
                count_occ(ch, coin_count[t]) as usize,
            ),
        forall|t: int| 0 <= t < result.len() ==> unsorted.contains(#[trigger] result[t]),
        forall|t: int| 0 <= t < unsorted.len() ==> result.contains(#[trigger] unsorted[t]),
    ensures
        change_pairs_ok(coins, n, m, result),
{
    assert forall|t: int|
        0 <= t < result.len() implies (#[trigger] result[t]).1 == count_occ(ch, result[t].0)
        && count_occ(ch, result[t].0) >= 1 by {
        assert(unsorted.contains(result[t]));
        let j = choose|j: int| 0 <= j < unsorted.len() && unsorted[j] == result[t];
        assert(unsorted[j] == (coin_count[j], count_occ(ch, coin_count[j]) as usize));
        assert(result[t].0 == coin_count[j]);
        assert(ch.contains(coin_count[j]));
        lemma_count_occ_contains(ch, coin_count[j]);
        lemma_count_occ_le_len(ch, coin_count[j]);
        assert(result[t].1 == count_occ(ch, coin_count[j]) as usize);
        assert(result[t].1 == count_occ(ch, result[t].0));
    }
    assert forall|c: usize| count_occ(ch, c) >= 1 implies exists|t: int|
        0 <= t < result.len() && (#[trigger] result[t]).0 == c by {
        lemma_count_occ_contains(ch, c);
        let q = choose|q: int| 0 <= q < ch.len() && ch[q] == c;
        let a = choose|a: int| 0 <= a < coin_count.len() && coin_count[a] == c;
        assert(unsorted[a].0 == c);
        assert(result.contains(unsorted[a]));
        let t = choose|t: int| 0 <= t < result.len() && result[t] == unsorted[a];
        assert(result[t].0 == c);
    }
    assert(usum(ch) == n && ch.len() == m && (forall|i: int|
        0 <= i < ch.len() ==> coins.contains(#[trigger] ch[i])) && (forall|t: int|
        0 <= t < result.len() ==> (#[trigger] result[t]).1 == count_occ(ch, result[t].0)
            && count_occ(ch, result[t].0) >= 1) && (forall|c: usize|
        count_occ(ch, c) >= 1 ==> exists|t: int|
            0 <= t < result.len() && (#[trigger] result[t]).0 == c));
}

/// `result` tabulates some way to pay `n` from the given denominations,
/// with each used denomination listed once with its exact use count.
pub open spec fn change_decomp_ok(coins: Seq<usize>, n: int, result: Seq<(usize, usize)>) -> bool {
    exists|used: Seq<usize>|
        #[trigger] usum(used) == n && (forall|i: int|
            0 <= i < used.len() ==> coins.contains(#[trigger] used[i])) && (forall|t: int|
            0 <= t < result.len() ==> (#[trigger] result[t]).1 == count_occ(used, result[t].0)
                && count_occ(used, result[t].0) >= 1) && (forall|c: usize|
            count_occ(used, c) >= 1 ==> exists|t: int|
                0 <= t < result.len() && (#[trigger] result[t]).0 == c)
}

/// Positive coins sum to at least their number.
pub proof fn lemma_usum_ge_len(s: Seq<usize>)
    requires
        forall|i: int| 0 <= i < s.len() ==> (#[trigger] s[i]) >= 1,
    ensures
        usum(s) >= s.len(),
    decreases s.len(),
{
    if s.len() > 0 {
        lemma_usum_ge_len(s.drop_last());
    }
}

/// Transfer the tabulation facts across the final sort.
proof fn lemma_change_decomp(
    coins: Seq<usize>,
    n: int,
    used: Seq<usize>,
    presort: Seq<(usize, usize)>,
    result: Seq<(usize, usize)>,
)
    requires
        usum(used) == n,
        forall|i: int| 0 <= i < used.len() ==> coins.contains(#[trigger] used[i]),
        forall|t: int|
            0 <= t < presort.len() ==> (#[trigger] presort[t]).1 == count_occ(used, presort[t].0)
                && count_occ(used, presort[t].0) >= 1,
        forall|c: usize|
            count_occ(used, c) >= 1 ==> exists|t: int|
                0 <= t < presort.len() && (#[trigger] presort[t]).0 == c,
        forall|t: int| 0 <= t < result.len() ==> presort.contains(#[trigger] result[t]),
        forall|t: int| 0 <= t < presort.len() ==> result.contains(#[trigger] presort[t]),
    ensures
        change_decomp_ok(coins, n, result),
{
    assert forall|t: int|
        0 <= t < result.len() implies (#[trigger] result[t]).1 == count_occ(used, result[t].0)
        && count_occ(used, result[t].0) >= 1 by {
        assert(presort.contains(result[t]));
        let j = choose|j: int| 0 <= j < presort.len() && presort[j] == result[t];
    }
    assert forall|c: usize| count_occ(used, c) >= 1 implies exists|t: int|
        0 <= t < result.len() && (#[trigger] result[t]).0 == c by {
        let j = choose|j: int| 0 <= j < presort.len() && (#[trigger] presort[j]).0 == c;
        assert(result.contains(presort[j]));
        let t = choose|t: int| 0 <= t < result.len() && result[t] == presort[j];
        assert(result[t].0 == c);
    }
    assert(usum(used) == n && (forall|i: int|
        0 <= i < used.len() ==> coins.contains(#[trigger] used[i])) && (forall|t: int|
        0 <= t < result.len() ==> (#[trigger] result[t]).1 == count_occ(used, result[t].0)
            && count_occ(used, result[t].0) >= 1) && (forall|c: usize|
        count_occ(used, c) >= 1 ==> exists|t: int|
            0 <= t < result.len() && (#[trigger] result[t]).0 == c));
}

/// Pay `amount` with few coins, remembering for every amount the last coin
/// the table used, and read the payment back off those links.  The
/// denominations start with the unit coin.
#[verifier::rlimit(100)]
pub fn change_making_with_coins_2(amount: usize, denominations: Vec<usize>) -> (result: Vec<
    (usize, usize),
>)
    requires
        coins_ok(denominations@),
        denominations@.len() >= 1,
        denominations@[0] == 1,
        amount < usize::MAX,
    ensures
        forall|a: int, b: int|
            0 <= a < b < result@.len() ==> (#[trigger] result@[a]).0 > (#[trigger] result@[b]).0,
        change_decomp_ok(denominations@, amount as int, result@),
        amount == 0 ==> result@.len() == 0,
{
    let mut dp: Vec<usize> = Vec::new();
    let mut last_coin: Vec<usize> = Vec::new();
    let mut k: usize = 0;
    while k <= amount
        invariant
            k <= amount + 1,
            amount < usize::MAX,
            dp@.len() == k,
            last_coin@.len() == k,
            forall|m: int| 0 <= m < k ==> (#[trigger] dp@[m]) == usize::MAX,
        decreases amount + 1 - k,
    {
        dp.push(usize::MAX);
        last_coin.push(0);
        k = k + 1;
    }
    dp[0] = 0;

    // Fill the table, one denomination at a time.
    let mut t: usize = 0;
    while t < denominations.len()
        invariant
            t <= denominations@.len(),
            amount < usize::MAX,
            coins_ok(denominations@),
            denominations@.len() >= 1,
            denominations@[0] == 1,
            dp@.len() == amount + 1,
            last_coin@.len() == amount + 1,
            dp@[0] == 0,
            t >= 1 ==> forall|m: int| 0 <= m <= amount ==> (#[trigger] dp@[m]) <= m,
            forall|m: int|
                0 <= m <= amount && (#[trigger] dp@[m]) != usize::MAX ==> dp@[m] <= m,
            forall|m: int|
                1 <= m <= amount && (#[trigger] dp@[m]) != usize::MAX ==> 1 <= last_coin@[m] <= m
                    && denominations@.contains(last_coin@[m]) && dp@[m - last_coin@[m]]
                    != usize::MAX,
        decreases denominations@.len() - t,
    {
        let coin = denominations[t];
        proof {
            assert(denominations@.contains(coin));
        }
        let mut i: usize = coin;
        while i <= amount
            invariant
                1 <= coin,
                coin <= i <= amount + 1 || i == coin,
                amount < usize::MAX,
                coins_ok(denominations@),
                denominations@.contains(coin),
                dp@.len() == amount + 1,
                last_coin@.len() == amount + 1,
                dp@[0] == 0,
                t == 0 && coin == 1 ==> forall|m: int| 0 <= m < i ==> (#[trigger] dp@[m]) <= m,
                t >= 1 ==> forall|m: int| 0 <= m <= amount ==> (#[trigger] dp@[m]) <= m,
                forall|m: int|
                    0 <= m <= amount && (#[trigger] dp@[m]) != usize::MAX ==> dp@[m] <= m,
                forall|m: int|
                    1 <= m <= amount && (#[trigger] dp@[m]) != usize::MAX ==> 1 <= last_coin@[m]
                        <= m && denominations@.contains(last_coin@[m]) && dp@[m - last_coin@[m]]
                        != usize::MAX,
            decreases amount + 1 - i,
        {
            if dp[i - coin] != usize::MAX {
                let candidate = dp[i - coin] + 1;
                if candidate < dp[i] {
                    dp[i] = candidate;
                    last_coin[i] = coin;
                }
            }
            i = i + 1;
        }
        proof {
            if t == 0 {
                assert(coin == 1);
                assert(forall|m: int| 0 <= m <= amount ==> (#[trigger] dp@[m]) <= m);
            }
        }
        t = t + 1;
    }

    // If no solution is found, return an empty tabulation.
    if dp[amount] == usize::MAX {
        proof {
            assert(dp@[amount as int] <= amount);
            assert(false);
        }
        return Vec::new();
    }

    // Reconstruct the payment by walking the recorded last coins.
    let mut remaining = amount;
    let mut pairs: Vec<(usize, usize)> = Vec::new();
    let ghost mut consumed: Seq<usize> = Seq::empty();

    while remaining > 0
        invariant
            remaining <= amount,
            amount < usize::MAX,
            coins_ok(denominations@),
            dp@.len() == amount + 1,
            last_coin@.len() == amount + 1,
            dp@[0] == 0,
            dp@[remaining as int] != usize::MAX,
            forall|m: int|
                1 <= m <= amount && (#[trigger] dp@[m]) != usize::MAX ==> 1 <= last_coin@[m] <= m
                    && denominations@.contains(last_coin@[m]) && dp@[m - last_coin@[m]]
                    != usize::MAX,
            usum(consumed) == amount - remaining,
            forall|q: int| 0 <= q < consumed.len() ==> (#[trigger] consumed[q]) >= 1,
            forall|q: int|
                0 <= q < consumed.len() ==> denominations@.contains(#[trigger] consumed[q]),
            forall|a: int, b: int|
                0 <= a < b < pairs@.len() ==> (#[trigger] pairs@[a]).0 != (#[trigger] pairs@[b]).0,
            forall|p2: int|
                0 <= p2 < pairs@.len() ==> (#[trigger] pairs@[p2]).1 == count_occ(
                    consumed,
                    pairs@[p2].0,
                ) && count_occ(consumed, pairs@[p2].0) >= 1,
            forall|c: usize|
                count_occ(consumed, c) >= 1 ==> exists|p2: int|
                    0 <= p2 < pairs@.len() && (#[trigger] pairs@[p2]).0 == c,
        decreases remaining,
    {
        let coin = last_coin[remaining];
        proof {
            assert(1 <= coin <= remaining);
            assert(denominations@.contains(coin));
            lemma_usum_ge_len(consumed);
            lemma_count_occ_le_len(consumed, coin);
        }
        let ghost consumed0 = consumed;
        let ghost pairs0 = pairs@;
        proof {
            consumed = consumed.push(coin);
            assert(consumed.drop_last() =~= consumed0);
        }

        // Record the coin: bump its count if it is already listed, else list
        // it with count one.
        let mut found: bool = false;
        let mut idx: usize = 0;
        let mut w: usize = 0;
        while w < pairs.len() && !found
            invariant
                w <= pairs@.len(),
                pairs@ == pairs0,
                !found ==> forall|p2: int| 0 <= p2 < w ==> (#[trigger] pairs@[p2]).0 != coin,
                found ==> idx < pairs@.len() && pairs@[idx as int].0 == coin,
            decreases pairs@.len() - w, (if found {
                0int
            } else {
                1int
            }),
        {
            if pairs[w].0 == coin {
                found = true;
                idx = w;
            } else {
                w = w + 1;
            }
        }
        if found {
            let ghost old_pair = pairs@[idx as int];
            let bumped = pairs[idx].1 + 1;
            pairs[idx] = (coin, bumped);
            proof {
                assert forall|p2: int|
                    0 <= p2 < pairs@.len() implies (#[trigger] pairs@[p2]).1 == count_occ(
                    consumed,
                    pairs@[p2].0,
                ) && count_occ(consumed, pairs@[p2].0) >= 1 by {
                    lemma_count_occ_le_len(consumed0, pairs0[p2].0);
                    if p2 == idx {
                        assert(pairs@[p2] == (coin, (old_pair.1 + 1) as usize));
                    } else {
                        assert(pairs@[p2] == pairs0[p2]);
                        assert(pairs0[p2].0 != coin);
                    }
                }
                assert forall|c: usize| count_occ(consumed, c) >= 1 implies exists|p2: int|
                    0 <= p2 < pairs@.len() && (#[trigger] pairs@[p2]).0 == c by {
                    if c == coin {
                        assert(pairs@[idx as int].0 == c);
                    } else {
                        lemma_count_occ_le_len(consumed0, c);
                        let p3 = choose|p3: int|
                            0 <= p3 < pairs0.len() && (#[trigger] pairs0[p3]).0 == c;
                        assert(pairs@[p3].0 == c);
                    }
                }
            }
        } else {
            pairs.push((coin, 1));
            proof {
                assert forall|p2: int|
                    0 <= p2 < pairs@.len() implies (#[trigger] pairs@[p2]).1 == count_occ(
                    consumed,
                    pairs@[p2].0,
                ) && count_occ(consumed, pairs@[p2].0) >= 1 by {
                    lemma_count_occ_le_len(consumed0, pairs@[p2].0);
                    if p2 == pairs@.len() - 1 {
                        assert(pairs@[p2] == (coin, 1usize));
                        lemma_count_occ_contains(consumed0, coin);
                        if consumed0.contains(coin) {
                            let q = choose|q: int|
                                0 <= q < consumed0.len() && consumed0[q] == coin;
                            assert(count_occ(consumed0, coin) >= 1);
                            let p3 = choose|p3: int|
                                0 <= p3 < pairs0.len() && (#[trigger] pairs0[p3]).0 == coin;
                            assert(false);
                        }
                        assert(count_occ(consumed0, coin) == 0);
                    } else {
                        assert(pairs@[p2] == pairs0[p2]);
                        assert(pairs0[p2].0 != coin);
                    }
                }
                assert forall|c: usize| count_occ(consumed, c) >= 1 implies exists|p2: int|
                    0 <= p2 < pairs@.len() && (#[trigger] pairs@[p2]).0 == c by {
                    if c == coin {
                        assert(pairs@[pairs@.len() - 1].0 == c);
                    } else {
                        lemma_count_occ_le_len(consumed0, c);
                        let p3 = choose|p3: int|
                            0 <= p3 < pairs0.len() && (#[trigger] pairs0[p3]).0 == c;
                        assert(pairs@[p3].0 == c);
                    }
                }
            }
        }
        remaining = remaining - coin;
    }

    let result = sort_pairs_desc(pairs);
    proof {
        lemma_change_decomp(
            denominations@,
            amount as int,
            consumed,
            pairs@,
            result@,
        );
        if amount == 0 {
            assert(usum(consumed) == 0);
            lemma_usum_ge_len(consumed);
            if pairs@.len() > 0 {
                assert(pairs@[0].1 == count_occ(consumed, pairs@[0].0));
                lemma_count_occ_le_len(consumed, pairs@[0].0);
                assert(count_occ(consumed, pairs@[0].0) >= 1);
                assert(false);
            }
        }
    }
    result
}
} // verus!
