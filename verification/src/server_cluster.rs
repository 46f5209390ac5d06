//! The longest run of ON servers obtainable by flipping at most `k`
//! contiguous stretches of a binary state string.
//!
//! The algorithm collects the maximal runs of zeros, and for every window of
//! exactly `k` consecutive zero runs measures the ON stretch obtained by
//! flipping them: the window itself plus the ones bordering it on both
//! sides.  With fewer than `k` zero runs the whole cluster can be switched
//! on.

use vstd::prelude::*;
use vstd::math::max;
use vstd::string::*;

verus! {

/// The state string holds only zeros and ones.
pub open spec fn states_ok(s: Seq<char>) -> bool {
    forall|i: int| 0 <= i < s.len() ==> (#[trigger] s[i]) == '0' || s[i] == '1'
}

/// How many ones sit immediately before position `i`.
pub open spec fn ones_before(s: Seq<char>, i: int) -> int
    decreases i,
{
    if i <= 0 {
        0
    } else if s[i - 1] == '1' {
        1 + ones_before(s, i - 1)
    } else {
        0
    }
}

/// How many ones sit at position `i` and onwards.
pub open spec fn ones_from(s: Seq<char>, i: int) -> int
    decreases s.len() - i when i >= 0
{
    if i >= s.len() {
        0
    } else if s[i] == '1' {
        1 + ones_from(s, i + 1)
    } else {
        0
    }
}

/// `runs` lists exactly the maximal runs of zeros of `s`, in order.
pub open spec fn zero_runs_ok(s: Seq<char>, runs: Seq<(usize, usize)>) -> bool {
    &&& forall|t: int|
        0 <= t < runs.len() ==> (#[trigger] runs[t]).0 <= runs[t].1 < s.len() && (forall|i: int|
            runs[t].0 <= i <= runs[t].1 ==> s[i] == '0') && (runs[t].0 == 0 || s[runs[t].0 - 1]
            == '1') && (runs[t].1 + 1 == s.len() || s[runs[t].1 + 1] == '1')
    &&& forall|t: int| 0 < t < runs.len() ==> (#[trigger] runs[t]).0 > runs[t - 1].1 + 1
    &&& forall|i: int|
        0 <= i < s.len() && s[i] == '0' ==> exists|t: int|
            0 <= t < runs.len() && (#[trigger] runs[t]).0 <= i <= runs[t].1
}

/// The ON stretch obtained by flipping everything from `l` to `r`: the
/// flipped span plus the ones that border it.
pub open spec fn window_len(s: Seq<char>, l: int, r: int) -> int {
    (r - l + 1) + ones_before(s, l) + ones_from(s, r + 1)
}

/// The best stretch over the first `upto` windows of `k` consecutive zero
/// runs.
pub open spec fn best_window(s: Seq<char>, runs: Seq<(usize, usize)>, k: int, upto: int) -> int
    decreases upto,
{
    if upto <= 0 {
        0
    } else {
        max(
            best_window(s, runs, k, upto - 1),
            window_len(s, runs[upto - 1].0 as int, runs[upto - 1 + k - 1].1 as int),
        )
    }
}

/// The answer the algorithm owes: -1 for no operations or an empty cluster;
/// the whole cluster when fewer than `k` zero runs exist; otherwise the best
/// window of exactly `k` zero runs.
pub open spec fn max_consecutive_post(s: Seq<char>, k: int, result: int) -> bool {
    if k == 0 || s.len() == 0 {
        result == -1
    } else {
        exists|runs: Seq<(usize, usize)>|
            #[trigger] zero_runs_ok(s, runs) && (if runs.len() < k {
                result == s.len()
            } else {
                result == best_window(s, runs, k, runs.len() - k + 1)
            })
    }
}

/// The greatest number of consecutive ON servers reachable with at most `k`
/// flips of contiguous stretches.
#[verifier::rlimit(100)]
pub fn get_max_consecutive_on(server_states: &str, k: usize) -> (result: i32)
    requires
        states_ok(server_states@),
        server_states@.len() < i32::MAX,
    ensures
        max_consecutive_post(server_states@, k as int, result as int),
{
    broadcast use vstd::string::is_ascii_spec_bytes;

    if k == 0 || server_states.is_empty() {
        return -1;
    }

    let ghost s = server_states@;
    let bytes = server_states.as_bytes();
    proof {
        assert(is_ascii(server_states));
        assert(bytes@ =~= Seq::new(s.len(), |i: int| s[i] as u8));
    }
    let n = server_states.len();
    let mut chars: Vec<char> = Vec::new();
    let mut ci: usize = 0;
    while ci < n
        invariant
            ci <= s.len(),
            n == s.len(),
            states_ok(s),
            bytes@ == Seq::new(s.len(), |i: int| s[i] as u8),
            bytes@.len() == n,
            chars@.len() == ci,
            forall|i: int| 0 <= i < ci ==> (#[trigger] chars@[i]) == s[i],
        decreases n - ci,
    {
        let b = bytes[ci];
        let c = if b == 48 {
            '0'
        } else {
            '1'
        };
        proof {
            assert(s[ci as int] as u8 == b);
        }
        chars.push(c);
        ci = ci + 1;
    }

    // Collect all maximal runs of consecutive zeros.
    let mut store: Vec<(usize, usize)> = Vec::new();
    let mut i: usize = 0;
    while i < n
        invariant
            i <= n,
            n == s.len(),
            n < i32::MAX,
            states_ok(s),
            chars@.len() == n,
            forall|m: int| 0 <= m < n ==> (#[trigger] chars@[m]) == s[m],
            0 < i < n ==> (s[i as int] == '1' || s[i - 1] == '1'),
            forall|t: int|
                0 <= t < store@.len() ==> (#[trigger] store@[t]).0 <= store@[t].1 < i && (
                forall|m: int| store@[t].0 <= m <= store@[t].1 ==> s[m] == '0') && (store@[t].0
                == 0 || s[store@[t].0 - 1] == '1') && (store@[t].1 + 1 == s.len() || s[store@[t].1
                + 1] == '1'),
            forall|t: int| 0 < t < store@.len() ==> (#[trigger] store@[t]).0 > store@[t - 1].1 + 1,
            forall|m: int|
                0 <= m < i && s[m] == '0' ==> exists|t: int|
                    0 <= t < store@.len() && (#[trigger] store@[t]).0 <= m <= store@[t].1,
        decreases n - i,
    {
        if chars[i] == '0' {
            let left = i;
            while i < n && chars[i] == '0'
                invariant
                    left <= i <= n,
                    n == s.len(),
                    chars@.len() == n,
                    forall|m: int| 0 <= m < n ==> (#[trigger] chars@[m]) == s[m],
                    forall|m: int| left <= m < i ==> s[m] == '0',
                    left < i || s[left as int] == '0',
                    i > left || i < n,
                decreases n - i,
            {
                i = i + 1;
            }
            let right = i - 1;
            proof {
                if store@.len() > 0 {
                    let t = store@.len() - 1;
                    assert(store@[t].1 + 1 == s.len() || s[store@[t].1 + 1] == '1');
                    assert(s[left as int] == '0');
                    assert(left > store@[t].1 + 1);
                }
            }
            let ghost store0 = store@;
            store.push((left, right));
            proof {
                assert forall|m: int|
                    0 <= m < i && s[m] == '0' implies exists|t: int|
                    0 <= t < store@.len() && (#[trigger] store@[t]).0 <= m <= store@[t].1 by {
                    if m < left {
                        let t0 = choose|t: int|
                            0 <= t < store0.len() && (#[trigger] store0[t]).0 <= m <= store0[t].1;
                        assert(store@[t0] == store0[t0]);
                        assert(store@[t0].0 <= m <= store@[t0].1);
                    } else {
                        let t1 = store@.len() - 1;
                        assert(store@[t1].0 <= m <= store@[t1].1);
                    }
                }
            }
        } else {
            i = i + 1;
        }
    }
    proof {
        assert(zero_runs_ok(s, store@));
    }

    // If the zero runs are fewer than the allowed flips, switch everything
    // on.
    if store.len() < k {
        return n as i32;
    }

    let mut si: usize = 0;
    let mut ei: usize = 0;
    let mut max_len: i32 = 0;

    // Slide a window of exactly k zero runs over the collected runs.
    while ei < store.len()
        invariant
            1 <= k,
            si <= ei + 1,
            ei <= store@.len(),
            (ei as int) - (si as int) + 1 <= k,
            k <= store@.len(),
            n == s.len(),
            n < i32::MAX,
            states_ok(s),
            chars@.len() == n,
            forall|m: int| 0 <= m < n ==> (#[trigger] chars@[m]) == s[m],
            zero_runs_ok(s, store@),
            ei == si + k - 1 || si == 0,
            0 <= max_len,
            max_len as int == best_window(s, store@, k as int, si as int),
        decreases store@.len() - ei,
    {
        while ei >= si && ei - si + 1 == k
            invariant
                1 <= k,
                si <= ei + 1,
                (ei as int) - (si as int) + 1 <= k,
                si == 0 || (ei as int) - (si as int) + 1 >= k - 1,
                ei < store@.len(),
                k <= store@.len(),
                n == s.len(),
                n < i32::MAX,
                states_ok(s),
                chars@.len() == n,
                forall|m: int| 0 <= m < n ==> (#[trigger] chars@[m]) == s[m],
                zero_runs_ok(s, store@),
                0 <= max_len,
                max_len as int == best_window(s, store@, k as int, si as int),
            decreases ei + 2 - si,
        {
            proof {
                assert((store@[si as int]).0 <= store@[si as int].1 < n);
                assert((store@[ei as int]).0 <= store@[ei as int].1 < n);
            }
            let l0 = store[si].0;
            let r0 = store[ei].1;
            let mut left: i32 = l0 as i32 - 1;
            let mut right: i32 = r0 as i32 + 1;

            // Take in the ones bordering the window on the left.
            while left >= 0 && chars[left as usize] == '1'
                invariant
                    -1 <= left <= l0,
                    l0 < n,
                    n == s.len(),
                    n < i32::MAX,
                    chars@.len() == n,
                    forall|m: int| 0 <= m < n ==> (#[trigger] chars@[m]) == s[m],
                    ones_before(s, l0 as int) == ones_before(s, left + 1) + (l0 - 1 - left),
                decreases left + 1,
            {
                left = left - 1;
            }

            // And the ones bordering it on the right.
            while right < n as i32 && chars[right as usize] == '1'
                invariant
                    r0 < n,
                    r0 < right <= n,
                    n == s.len(),
                    n < i32::MAX,
                    chars@.len() == n,
                    forall|m: int| 0 <= m < n ==> (#[trigger] chars@[m]) == s[m],
                    ones_from(s, r0 + 1) == ones_from(s, right as int) + (right - r0 - 1),
                decreases n - right,
            {
                right = right + 1;
            }

            proof {
                assert(ones_before(s, left + 1) == 0);
                assert(ones_from(s, right as int) == 0);
                assert(window_len(s, l0 as int, r0 as int) == right - left - 1);
            }
            max_len = max_i32(max_len, right - left - 1);
            proof {
                assert(max_len as int == best_window(s, store@, k as int, si as int + 1));
            }
            si = si + 1;
        }

        ei = ei + 1;
    }
    proof {
        assert(si as int == store@.len() - k + 1);
    }

    max_len
}

/// The larger of two numbers.
fn max_i32(a: i32, b: i32) -> (r: i32)
    ensures
        r as int == max(a as int, b as int),
{
    if a > b {
        a
    } else {
        b
    }
}

} // verus!
