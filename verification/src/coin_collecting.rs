//! Coin collecting on a board: a robot walks from the top-left to the
//! bottom-right cell moving only right or down, and picks up every coin it
//! passes; some cells may be fenced off.

use vstd::prelude::*;
use vstd::math::max;

verus! {

/// The board has `n` rows of `m` cells, every cell holding a coin count of 0
/// or 1.
pub open spec fn board_ok(c: Seq<Vec<i32>>, n: int, m: int) -> bool {
    &&& c.len() == n
    &&& 1 <= n
    &&& 1 <= m
    &&& forall|i: int| 0 <= i < n ==> (#[trigger] c[i])@.len() == m
    &&& forall|i: int, j: int| 0 <= i < n && 0 <= j < m ==> 0 <= (#[trigger] c[i]@[j]) <= 1
}

/// Like `board_ok`, but a cell may also hold -1: it is inaccessible.
pub open spec fn board_ok_blocked(c: Seq<Vec<i32>>, n: int, m: int) -> bool {
    &&& c.len() == n
    &&& 1 <= n
    &&& 1 <= m
    &&& forall|i: int| 0 <= i < n ==> (#[trigger] c[i])@.len() == m
    &&& forall|i: int, j: int| 0 <= i < n && 0 <= j < m ==> -1 <= (#[trigger] c[i]@[j]) <= 1
}

/// The most coins a right/down walk from the top-left cell can gather by the
/// time it reaches cell `(i, j)`.
pub open spec fn collect_max(c: Seq<Vec<i32>>, i: int, j: int) -> int
    decreases i + j when i >= 0 && j >= 0
{
    if i <= 0 && j <= 0 {
        c[0]@[0] as int
    } else if i <= 0 {
        collect_max(c, 0, j - 1) + c[0]@[j]
    } else if j <= 0 {
        collect_max(c, i - 1, 0) + c[i]@[0]
    } else {
        max(collect_max(c, i - 1, j), collect_max(c, i, j - 1)) + c[i]@[j]
    }
}

/// The same walk on a board with fenced cells: a cell holding -1, or one that
/// no walk can reach, is marked -1.
pub open spec fn collect_max_blocked(c: Seq<Vec<i32>>, i: int, j: int) -> int
    decreases i + j when i >= 0 && j >= 0
{
    if i <= 0 && j <= 0 {
        c[0]@[0] as int
    } else if i <= 0 {
        if c[0]@[j] == -1 {
            -1
        } else {
            collect_max_blocked(c, 0, j - 1) + c[0]@[j]
        }
    } else if j <= 0 {
        if c[i]@[0] == -1 {
            -1
        } else {
            collect_max_blocked(c, i - 1, 0) + c[i]@[0]
        }
    } else {
        if c[i]@[j] == -1 {
            -1
        } else {
            let up = collect_max_blocked(c, i - 1, j);
            let left = collect_max_blocked(c, i, j - 1);
            if up == -1 && left == -1 {
                -1
            } else if up == -1 {
                left + c[i]@[j]
            } else if left == -1 {
                up + c[i]@[j]
            } else {
                max(up, left) + c[i]@[j]
            }
        }
    }
}

/// The gathered total never exceeds the number of cells passed.
pub proof fn lemma_collect_max_bounds(c: Seq<Vec<i32>>, n: int, m: int, i: int, j: int)
    requires
        board_ok(c, n, m),
        0 <= i < n,
        0 <= j < m,
    ensures
        0 <= collect_max(c, i, j) <= i + j + 1,
    decreases i + j,
{
    if i == 0 && j == 0 {
    } else if i == 0 {
        lemma_collect_max_bounds(c, n, m, 0, j - 1);
    } else if j == 0 {
        lemma_collect_max_bounds(c, n, m, i - 1, 0);
    } else {
        lemma_collect_max_bounds(c, n, m, i - 1, j);
        lemma_collect_max_bounds(c, n, m, i, j - 1);
    }
}

/// The same bound for the fenced board, with -1 as the bottom.
pub proof fn lemma_collect_max_blocked_bounds(c: Seq<Vec<i32>>, n: int, m: int, i: int, j: int)
    requires
        board_ok_blocked(c, n, m),
        0 <= i < n,
        0 <= j < m,
    ensures
        -1 <= collect_max_blocked(c, i, j) <= i + j + 1,
    decreases i + j,
{
    if i == 0 && j == 0 {
    } else if i == 0 {
        lemma_collect_max_blocked_bounds(c, n, m, 0, j - 1);
    } else if j == 0 {
        lemma_collect_max_blocked_bounds(c, n, m, i - 1, 0);
    } else {
        lemma_collect_max_blocked_bounds(c, n, m, i - 1, j);
        lemma_collect_max_blocked_bounds(c, n, m, i, j - 1);
    }
}

/// The most coins a right/down walk across the whole board can gather.
pub fn coin_collecting(c: Vec<Vec<i32>>, n: i32, m: i32) -> (result: i32)
    requires
        board_ok(c@, n as int, m as int),
        n + m <= i32::MAX,
    ensures
        result as int == collect_max(c@, n - 1, m - 1),
{
    let nn = n as usize;
    let mm = m as usize;
    let mut dp: Vec<Vec<i32>> = Vec::new();
    let mut row: usize = 0;
    while row < nn
        invariant
            row <= nn,
            dp@.len() == row,
            mm == m,
            forall|a: int| 0 <= a < row ==> (#[trigger] dp@[a])@.len() == mm,
            forall|a: int, b: int|
                0 <= a < row && 0 <= b < mm ==> (#[trigger] dp@[a]@[b]) == 0,
        decreases nn - row,
    {
        let mut r: Vec<i32> = Vec::new();
        let mut col: usize = 0;
        while col < mm
            invariant
                col <= mm,
                r@.len() == col,
                forall|b: int| 0 <= b < col ==> (#[trigger] r@[b]) == 0,
            decreases mm - col,
        {
            r.push(0);
            col = col + 1;
        }
        dp.push(r);
        row = row + 1;
    }

    dp[0][0] = c[0][0];
    let mut i: usize = 1;
    while i < nn
        invariant
            1 <= i <= nn,
            nn == n,
            mm == m,
            board_ok(c@, n as int, m as int),
            n + m <= i32::MAX,
            dp@.len() == nn,
            forall|a: int| 0 <= a < nn ==> (#[trigger] dp@[a])@.len() == mm,
            forall|a: int| 0 <= a < i ==> (#[trigger] dp@[a]@[0]) as int == collect_max(c@, a, 0),
        decreases nn - i,
    {
        proof {
            lemma_collect_max_bounds(c@, n as int, m as int, i - 1, 0);
            lemma_collect_max_bounds(c@, n as int, m as int, i as int, 0);
        }
        let v = dp[i - 1][0] + c[i][0];
        dp[i][0] = v;
        i = i + 1;
    }

    let mut j: usize = 1;
    while j < mm
        invariant
            1 <= j <= mm,
            nn == n,
            mm == m,
            board_ok(c@, n as int, m as int),
            n + m <= i32::MAX,
            dp@.len() == nn,
            forall|a: int| 0 <= a < nn ==> (#[trigger] dp@[a])@.len() == mm,
            forall|a: int| 0 <= a < nn ==> (#[trigger] dp@[a]@[0]) as int == collect_max(c@, a, 0),
            forall|b: int| 0 <= b < j ==> (#[trigger] dp@[0]@[b]) as int == collect_max(c@, 0, b),
        decreases mm - j,
    {
        proof {
            lemma_collect_max_bounds(c@, n as int, m as int, 0, j - 1);
            lemma_collect_max_bounds(c@, n as int, m as int, 0, j as int);
        }
        let v = dp[0][j - 1] + c[0][j];
        dp[0][j] = v;
        j = j + 1;
    }

    let mut i: usize = 1;
    while i < nn
        invariant
            1 <= i <= nn,
            nn == n,
            mm == m,
            board_ok(c@, n as int, m as int),
            n + m <= i32::MAX,
            dp@.len() == nn,
            forall|a: int| 0 <= a < nn ==> (#[trigger] dp@[a])@.len() == mm,
            forall|a: int| 0 <= a < nn ==> (#[trigger] dp@[a]@[0]) as int == collect_max(c@, a, 0),
            forall|b: int| 0 <= b < mm ==> (#[trigger] dp@[0]@[b]) as int == collect_max(c@, 0, b),
            forall|a: int, b: int|
                0 <= a < i && 0 <= b < mm ==> (#[trigger] dp@[a]@[b]) as int == collect_max(
                    c@,
                    a,
                    b,
                ),
        decreases nn - i,
    {
        let mut j: usize = 1;
        while j < mm
            invariant
                1 <= i < nn,
                1 <= j <= mm,
                nn == n,
                mm == m,
                board_ok(c@, n as int, m as int),
                n + m <= i32::MAX,
                dp@.len() == nn,
                forall|a: int| 0 <= a < nn ==> (#[trigger] dp@[a])@.len() == mm,
                forall|a: int|
                    0 <= a < nn ==> (#[trigger] dp@[a]@[0]) as int == collect_max(c@, a, 0),
                forall|b: int|
                    0 <= b < mm ==> (#[trigger] dp@[0]@[b]) as int == collect_max(c@, 0, b),
                forall|a: int, b: int|
                    0 <= a < i && 0 <= b < mm ==> (#[trigger] dp@[a]@[b]) as int == collect_max(
                        c@,
                        a,
                        b,
                    ),
                forall|b: int|
                    0 <= b < j ==> (#[trigger] dp@[i as int]@[b]) as int == collect_max(
                        c@,
                        i as int,
                        b,
                    ),
            decreases mm - j,
        {
            proof {
                lemma_collect_max_bounds(c@, n as int, m as int, i - 1, j as int);
                lemma_collect_max_bounds(c@, n as int, m as int, i as int, j - 1);
                lemma_collect_max_bounds(c@, n as int, m as int, i as int, j as int);
            }
            let ghost dp0 = dp@;
            let up = dp[i - 1][j];
            let left = dp[i][j - 1];
            let best = if up > left {
                up
            } else {
                left
            };
            let v = best + c[i][j];
            dp[i][j] = v;
            proof {
                assert(forall|a: int| 0 <= a < nn && a != i ==> dp@[a] == dp0[a]);
            }
            j = j + 1;
        }
        i = i + 1;
    }

    dp[nn - 1][mm - 1]
}

/// The most coins a right/down walk can gather on a board with fenced cells,
/// or -1 when no walk reaches the bottom-right cell.
pub fn coin_collecting_with_inaccessible_cells(c: Vec<Vec<i32>>, n: usize, m: usize) -> (result:
    i32)
    requires
        board_ok_blocked(c@, n as int, m as int),
        n as int + m as int <= i32::MAX,
    ensures
        result as int == collect_max_blocked(c@, n - 1, m - 1),
{
    let mut dp: Vec<Vec<i32>> = Vec::new();
    let mut row: usize = 0;
    while row < n
        invariant
            row <= n,
            dp@.len() == row,
            forall|a: int| 0 <= a < row ==> (#[trigger] dp@[a])@.len() == m,
            forall|a: int, b: int| 0 <= a < row && 0 <= b < m ==> (#[trigger] dp@[a]@[b]) == 0,
        decreases n - row,
    {
        let mut r: Vec<i32> = Vec::new();
        let mut col: usize = 0;
        while col < m
            invariant
                col <= m,
                r@.len() == col,
                forall|b: int| 0 <= b < col ==> (#[trigger] r@[b]) == 0,
            decreases m - col,
        {
            r.push(0);
            col = col + 1;
        }
        dp.push(r);
        row = row + 1;
    }

    dp[0][0] = c[0][0];

    let mut i: usize = 1;
    while i < n
        invariant
            1 <= i <= n,
            board_ok_blocked(c@, n as int, m as int),
            n as int + m as int <= i32::MAX,
            dp@.len() == n,
            forall|a: int| 0 <= a < n ==> (#[trigger] dp@[a])@.len() == m,
            forall|a: int|
                0 <= a < i ==> (#[trigger] dp@[a]@[0]) as int == collect_max_blocked(c@, a, 0),
        decreases n - i,
    {
        proof {
            lemma_collect_max_blocked_bounds(c@, n as int, m as int, i - 1, 0);
            lemma_collect_max_blocked_bounds(c@, n as int, m as int, i as int, 0);
        }
        if c[i][0] == -1 {
            dp[i][0] = -1;
        } else {
            let v = dp[i - 1][0] + c[i][0];
            dp[i][0] = v;
        }
        i = i + 1;
    }

    let mut j: usize = 1;
    while j < m
        invariant
            1 <= j <= m,
            board_ok_blocked(c@, n as int, m as int),
            n as int + m as int <= i32::MAX,
            dp@.len() == n,
            forall|a: int| 0 <= a < n ==> (#[trigger] dp@[a])@.len() == m,
            forall|a: int|
                0 <= a < n ==> (#[trigger] dp@[a]@[0]) as int == collect_max_blocked(c@, a, 0),
            forall|b: int|
                0 <= b < j ==> (#[trigger] dp@[0]@[b]) as int == collect_max_blocked(c@, 0, b),
        decreases m - j,
    {
        proof {
            lemma_collect_max_blocked_bounds(c@, n as int, m as int, 0, j - 1);
            lemma_collect_max_blocked_bounds(c@, n as int, m as int, 0, j as int);
        }
        if c[0][j] == -1 {
            dp[0][j] = -1;
        } else {
            let v = dp[0][j - 1] + c[0][j];
            dp[0][j] = v;
        }
        j = j + 1;
    }

    let mut i: usize = 1;
    while i < n
        invariant
            1 <= i <= n,
            board_ok_blocked(c@, n as int, m as int),
            n as int + m as int <= i32::MAX,
            dp@.len() == n,
            forall|a: int| 0 <= a < n ==> (#[trigger] dp@[a])@.len() == m,
            forall|a: int|
                0 <= a < n ==> (#[trigger] dp@[a]@[0]) as int == collect_max_blocked(c@, a, 0),
            forall|b: int|
                0 <= b < m ==> (#[trigger] dp@[0]@[b]) as int == collect_max_blocked(c@, 0, b),
            forall|a: int, b: int|
                0 <= a < i && 0 <= b < m ==> (#[trigger] dp@[a]@[b]) as int == collect_max_blocked(
                    c@,
                    a,
                    b,
                ),
        decreases n - i,
    {
        let mut j: usize = 1;
        while j < m
            invariant
                1 <= i < n,
                1 <= j <= m,
                board_ok_blocked(c@, n as int, m as int),
                n as int + m as int <= i32::MAX,
                dp@.len() == n,
                forall|a: int| 0 <= a < n ==> (#[trigger] dp@[a])@.len() == m,
                forall|a: int|
                    0 <= a < n ==> (#[trigger] dp@[a]@[0]) as int == collect_max_blocked(c@, a, 0),
                forall|b: int|
                    0 <= b < m ==> (#[trigger] dp@[0]@[b]) as int == collect_max_blocked(c@, 0, b),
                forall|a: int, b: int|
                    0 <= a < i && 0 <= b < m ==> (#[trigger] dp@[a]@[b]) as int
                        == collect_max_blocked(c@, a, b),
                forall|b: int|
                    0 <= b < j ==> (#[trigger] dp@[i as int]@[b]) as int == collect_max_blocked(
                        c@,
                        i as int,
                        b,
                    ),
            decreases m - j,
        {
            proof {
                lemma_collect_max_blocked_bounds(c@, n as int, m as int, i - 1, j as int);
                lemma_collect_max_blocked_bounds(c@, n as int, m as int, i as int, j - 1);
                lemma_collect_max_blocked_bounds(c@, n as int, m as int, i as int, j as int);
            }
            let ghost dp0 = dp@;
            if c[i][j] == -1 {
                dp[i][j] = -1;
            } else {
                if dp[i - 1][j] == -1 && dp[i][j - 1] == -1 {
                    dp[i][j] = -1;
                } else if dp[i - 1][j] == -1 {
                    let v = dp[i][j - 1] + c[i][j];
                    dp[i][j] = v;
                } else if dp[i][j - 1] == -1 {
                    let v = dp[i - 1][j] + c[i][j];
                    dp[i][j] = v;
                } else {
                    let up = dp[i - 1][j];
                    let left = dp[i][j - 1];
                    let best = if up > left {
                        up
                    } else {
                        left
                    };
                    let v = best + c[i][j];
                    dp[i][j] = v;
                }
            }
            proof {
                assert(forall|a: int| 0 <= a < n && a != i ==> dp@[a] == dp0[a]);
            }
            j = j + 1;
        }
        i = i + 1;
    }

    dp[n - 1][m - 1]
}

} // verus!
