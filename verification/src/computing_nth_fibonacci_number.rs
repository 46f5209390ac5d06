//! The n-th Fibonacci number, computed bottom up with a table, bottom up
//! with two running values, and top down with memoization.

use vstd::prelude::*;

verus! {

/// The Fibonacci sequence: 0, 1, 1, 2, 3, 5, ...
pub open spec fn fib(n: nat) -> nat
    decreases n,
{
    if n == 0 {
        0
    } else if n == 1 {
        1
    } else {
        fib((n - 2) as nat) + fib((n - 1) as nat)
    }
}

/// The sequence never decreases.
pub proof fn lemma_fib_monotone(a: nat, b: nat)
    requires
        a <= b,
    ensures
        fib(a) <= fib(b),
    decreases b - a,
{
    if a < b && b >= 2 {
        lemma_fib_monotone(a, (b - 1) as nat);
    } else if a < b && b == 1 {
    }
}

/// From the second term on, the sequence is positive.
pub proof fn lemma_fib_positive(n: nat)
    requires
        n >= 1,
    ensures
        fib(n) >= 1,
{
    lemma_fib_monotone(1, n);
}

/// Fill a table of the first `n + 1` Fibonacci numbers and read off the last.
pub fn compute_nth_fibonacci_number_from_bottom_up(n: u32) -> (result: u64)
    requires
        fib(n as nat) <= u64::MAX,
    ensures
        result == fib(n as nat),
{
    if n == 0 {
        return 0u64;
    } else if n == 1 {
        return 1u64;
    }

    let mut fib_table: Vec<u64> = Vec::new();
    fib_table.push(0);
    fib_table.push(1);
    let mut i: u64 = 2;
    while i <= n as u64
        invariant
            2 <= i <= n + 1,
            fib(n as nat) <= u64::MAX,
            fib_table@.len() == i,
            forall|k: int| 0 <= k < i ==> (#[trigger] fib_table@[k]) == fib(k as nat),
        decreases n + 1 - i,
    {
        proof {
            lemma_fib_monotone(i as nat, n as nat);
        }
        let next = fib_table[(i - 1) as usize] + fib_table[(i - 2) as usize];
        fib_table.push(next);
        i = i + 1;
    }

    fib_table[n as usize]
}

/// The same computation with two running values instead of a table.
pub fn compute_nth_fibonacci_number_from_bottom_up_2(n: u32) -> (result: u64)
    requires
        fib(n as nat) <= u64::MAX,
    ensures
        result == fib(n as nat),
{
    let mut fib1: u64 = 0;
    let mut fib2: u64 = 1;
    let mut fib3: u64 = 0;

    if n == 0 {
        fib1
    } else if n == 1 {
        fib2
    } else {
        let mut i: u64 = 2;
        while i <= n as u64
            invariant
                2 <= i <= n + 1,
                fib(n as nat) <= u64::MAX,
                fib1 == fib((i - 2) as nat),
                fib2 == fib((i - 1) as nat),
                i > 2 ==> fib3 == fib((i - 1) as nat),
            decreases n + 1 - i,
        {
            proof {
                lemma_fib_monotone(i as nat, n as nat);
            }
            fib3 = fib1 + fib2;
            fib1 = fib2;
            fib2 = fib3;
            i = i + 1;
        }
        fib3
    }
}

/// The memo table holds, at every position, either zero (not yet computed)
/// or the Fibonacci number of that position.
pub open spec fn fib_memo_ok(table: Seq<u64>) -> bool {
    forall|k: int| 0 <= k < table.len() ==> (#[trigger] table[k]) == 0 || table[k] == fib(k as nat)
}

/// Compute the n-th Fibonacci number top down, caching each computed value
/// in the table (zero marks a hole; only the zeroth number is zero, and that
/// one is answered directly).
pub fn compute_nth_fibonacci_number_from_top_down(n: u32) -> (result: u64)
    requires
        fib(n as nat) <= u64::MAX,
    ensures
        result == fib(n as nat),
{
    let mut fib_table: Vec<u64> = Vec::new();
    let mut k: u64 = 0;
    while k <= n as u64
        invariant
            k <= n + 1,
            fib_table@.len() == k,
            forall|m: int| 0 <= m < k ==> (#[trigger] fib_table@[m]) == 0,
        decreases n + 1 - k,
    {
        fib_table.push(0);
        k = k + 1;
    }

    if n == 0 {
        return 0u64;
    } else if n == 1 {
        return 1u64;
    }
    fib_table[1] = 1;

    compute_nth_fibonacci_number_from_top_down_helper(n, &mut fib_table)
}

/// The recursive worker: answer from the table when the value is cached,
/// otherwise compute the two predecessors and cache the sum.
pub fn compute_nth_fibonacci_number_from_top_down_helper(
    n: u32,
    fib_table: &mut Vec<u64>,
) -> (result: u64)
    requires
        n < old(fib_table)@.len(),
        fib(n as nat) <= u64::MAX,
        fib_memo_ok(old(fib_table)@),
    ensures
        result == fib(n as nat),
        final(fib_table)@.len() == old(fib_table)@.len(),
        fib_memo_ok(final(fib_table)@),
    decreases n,
{
    if n == 0 {
        return 0u64;
    } else if n == 1 {
        return 1u64;
    }

    if fib_table[n as usize] == 0 {
        proof {
            lemma_fib_monotone((n - 1) as nat, n as nat);
            lemma_fib_monotone((n - 2) as nat, n as nat);
        }
        let a = compute_nth_fibonacci_number_from_top_down_helper(n - 1, fib_table);
        let b = compute_nth_fibonacci_number_from_top_down_helper(n - 2, fib_table);
        fib_table[n as usize] = a + b;
    }

    proof {
        lemma_fib_positive(n as nat);
    }
    fib_table[n as usize]
}

} // verus!
