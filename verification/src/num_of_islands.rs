//! Counting islands in a grid of land and water cells: each group of
//! land cells connected horizontally or vertically is one island.
//!
//! The counting walks the grid and, at each untouched land cell, starts a
//! flood fill that sinks the whole island before the scan goes on.  The
//! contracts here pin the bookkeeping of that scheme — the fill only ever
//! turns land into water, and the count is zero exactly when the grid has no
//! land, and never exceeds the number of land cells — not the full
//! connected-components characterization.

use vstd::prelude::*;

verus! {

/// A rectangular grid of '0' and '1' cells with at least one cell.
pub open spec fn grid_ok(g: Seq<Vec<char>>) -> bool {
    &&& g.len() >= 1
    &&& (#[trigger] g[0])@.len() >= 1
    &&& forall|i: int| 0 <= i < g.len() ==> (#[trigger] g[i])@.len() == g[0]@.len()
    &&& forall|i: int, j: int|
        0 <= i < g.len() && 0 <= j < g[0]@.len() ==> (#[trigger] g[i]@[j]) == '0' || g[i]@[j]
            == '1'
}

/// How much land a row prefix holds.
pub open spec fn row_land(row: Seq<char>, upto: int) -> int
    decreases upto,
{
    if upto <= 0 {
        0
    } else {
        row_land(row, upto - 1) + if row[upto - 1] == '1' {
            1int
        } else {
            0int
        }
    }
}

/// How much land the first `rows` rows hold.
pub open spec fn grid_land(g: Seq<Vec<char>>, rows: int) -> int
    decreases rows,
{
    if rows <= 0 {
        0
    } else {
        grid_land(g, rows - 1) + row_land(g[rows - 1]@, g[rows - 1]@.len() as int)
    }
}

/// All land of `g` (the whole grid).
pub open spec fn total_land(g: Seq<Vec<char>>) -> int {
    grid_land(g, g.len() as int)
}

/// `after` is `before` with some land cells turned to water: same shape, and
/// no cell went from water to land.
pub open spec fn only_sunk(before: Seq<Vec<char>>, after: Seq<Vec<char>>) -> bool {
    &&& after.len() == before.len()
    &&& forall|i: int|
        0 <= i < before.len() ==> (#[trigger] after[i])@.len() == before[i]@.len()
    &&& forall|i: int, j: int|
        0 <= i < before.len() && 0 <= j < before[i]@.len() && (#[trigger] after[i]@[j]) == '1'
            ==> before[i]@[j] == '1'
}

/// Sinking cells cannot raise the land count.
pub proof fn lemma_row_land_only_sunk(b: Seq<char>, a: Seq<char>, upto: int)
    requires
        a.len() == b.len(),
        forall|j: int| 0 <= j < b.len() && (#[trigger] a[j]) == '1' ==> b[j] == '1',
        0 <= upto <= b.len(),
    ensures
        0 <= row_land(a, upto) <= row_land(b, upto),
    decreases upto,
{
    if upto > 0 {
        lemma_row_land_only_sunk(b, a, upto - 1);
    }
}

pub proof fn lemma_grid_land_only_sunk(b: Seq<Vec<char>>, a: Seq<Vec<char>>, rows: int)
    requires
        only_sunk(b, a),
        0 <= rows <= b.len(),
    ensures
        0 <= grid_land(a, rows) <= grid_land(b, rows),
    decreases rows,
{
    if rows > 0 {
        lemma_grid_land_only_sunk(b, a, rows - 1);
        lemma_row_land_only_sunk(b[rows - 1]@, a[rows - 1]@, a[rows - 1]@.len() as int);
    }
}

/// A row with land in its prefix has positive land count.
pub proof fn lemma_row_land_cell(row: Seq<char>, upto: int, j: int)
    requires
        0 <= j < upto <= row.len(),
        row[j] == '1',
    ensures
        row_land(row, upto) >= 1,
        row_land(row, upto) >= 0,
    decreases upto,
{
    if j < upto - 1 {
        lemma_row_land_cell(row, upto - 1, j);
        lemma_row_land_nonneg(row, upto - 1);
    } else {
        lemma_row_land_nonneg(row, upto - 1);
    }
}

pub proof fn lemma_row_land_nonneg(row: Seq<char>, upto: int)
    ensures
        row_land(row, upto) >= 0,
    decreases upto,
{
    if upto > 0 {
        lemma_row_land_nonneg(row, upto - 1);
    }
}

pub proof fn lemma_grid_land_nonneg(g: Seq<Vec<char>>, rows: int)
    ensures
        grid_land(g, rows) >= 0,
    decreases rows,
{
    if rows > 0 {
        lemma_grid_land_nonneg(g, rows - 1);
        lemma_row_land_nonneg(g[rows - 1]@, g[rows - 1]@.len() as int);
    }
}

/// A grid with a land cell has positive total land.
pub proof fn lemma_grid_land_cell(g: Seq<Vec<char>>, rows: int, i: int, j: int)
    requires
        0 <= i < rows <= g.len(),
        0 <= j < g[i]@.len(),
        g[i]@[j] == '1',
    ensures
        grid_land(g, rows) >= 1,
    decreases rows,
{
    lemma_grid_land_nonneg(g, rows - 1);
    lemma_row_land_nonneg(g[rows - 1]@, g[rows - 1]@.len() as int);
    if i < rows - 1 {
        lemma_grid_land_cell(g, rows - 1, i, j);
    } else {
        lemma_row_land_cell(g[i]@, g[i]@.len() as int, j);
    }
}

/// One land cell turned to water, with everything else only sinking,
/// strictly lowers the land count.
pub proof fn lemma_land_strict_sunk(b: Seq<Vec<char>>, a: Seq<Vec<char>>, i: int, j: int)
    requires
        only_sunk(b, a),
        0 <= i < b.len(),
        0 <= j < b[i]@.len(),
        b[i]@[j] == '1',
        a[i]@[j] == '0',
    ensures
        total_land(a) < total_land(b),
{
    lemma_land_strict_rows(b, a, i, j, b.len() as int);
}

proof fn lemma_land_strict_rows(b: Seq<Vec<char>>, a: Seq<Vec<char>>, i: int, j: int, rows: int)
    requires
        only_sunk(b, a),
        0 <= i < b.len(),
        0 <= j < b[i]@.len(),
        b[i]@[j] == '1',
        a[i]@[j] == '0',
        0 <= rows <= b.len(),
    ensures
        i < rows ==> total_land_upto(b, a, rows),
        grid_land(a, rows) <= grid_land(b, rows),
    decreases rows,
{
    if rows > 0 {
        lemma_land_strict_rows(b, a, i, j, rows - 1);
        lemma_row_land_only_sunk(b[rows - 1]@, a[rows - 1]@, a[rows - 1]@.len() as int);
        if i == rows - 1 {
            lemma_row_land_strict(b[i]@, a[i]@, j, b[i]@.len() as int);
        }
    }
}

/// Shorthand for "row `i` already made the sum strictly smaller".
pub open spec fn total_land_upto(b: Seq<Vec<char>>, a: Seq<Vec<char>>, rows: int) -> bool {
    grid_land(a, rows) < grid_land(b, rows)
}

proof fn lemma_row_land_strict(b: Seq<char>, a: Seq<char>, j: int, upto: int)
    requires
        a.len() == b.len(),
        forall|t: int| 0 <= t < b.len() && (#[trigger] a[t]) == '1' ==> b[t] == '1',
        0 <= j < b.len(),
        b[j] == '1',
        a[j] == '0',
        0 <= upto <= b.len(),
    ensures
        j < upto ==> row_land(a, upto) < row_land(b, upto),
        row_land(a, upto) <= row_land(b, upto),
    decreases upto,
{
    if upto > 0 {
        lemma_row_land_strict(b, a, j, upto - 1);
    }
}

/// Sink the island around `(start_i, start_j)` with an explicit work stack:
/// every popped cell becomes water and its land neighbours are queued.
fn sink_island(grid: &mut Vec<Vec<char>>, start_i: usize, start_j: usize)
    requires
        grid_ok(old(grid)@),
        start_i < old(grid)@.len(),
        start_j < old(grid)@[0]@.len(),
        old(grid)@[start_i as int]@[start_j as int] == '1',
    ensures
        grid_ok(final(grid)@),
        final(grid)@.len() == old(grid)@.len(),
        final(grid)@[0]@.len() == old(grid)@[0]@.len(),
        only_sunk(old(grid)@, final(grid)@),
        final(grid)@[start_i as int]@[start_j as int] == '0',
        total_land(final(grid)@) < total_land(old(grid)@),
{
    let rows = grid.len();
    let cols = grid[0].len();
    let mut stack: Vec<(usize, usize)> = Vec::new();
    stack.push((start_i, start_j));
    proof {
        assert(stack@[0] == (start_i, start_j));
    }

    let ghost g0 = grid@;
    while stack.len() > 0
        invariant
            grid_ok(grid@),
            grid@.len() == rows,
            grid@[0]@.len() == cols,
            start_i < rows,
            start_j < cols,
            only_sunk(g0, grid@),
            forall|k: int|
                0 <= k < stack@.len() ==> (#[trigger] stack@[k]).0 < rows && stack@[k].1 < cols,
            grid@[start_i as int]@[start_j as int] == '0' || (exists|k: int|
                0 <= k < stack@.len() && #[trigger] stack@[k] == (start_i, start_j)),
        decreases total_land(grid@), stack@.len(),
    {
        proof {
            lemma_grid_land_nonneg(grid@, grid@.len() as int);
        }
        let ghost stack0 = stack@;
        let popped = stack.pop().unwrap();
        let i = popped.0;
        let j = popped.1;
        let ghost gb = grid@;
        if grid[i][j] == '1' {
            grid[i][j] = '0';
            proof {
                assert(only_sunk(gb, grid@));
                lemma_land_drops(gb, grid@, i as int, j as int);
                lemma_grid_land_only_sunk(g0, grid@, g0.len() as int);
            }
            if i + 1 < rows {
                if grid[i + 1][j] == '1' {
                    stack.push((i + 1, j));
                }
            }
            if i > 0 {
                if grid[i - 1][j] == '1' {
                    stack.push((i - 1, j));
                }
            }
            if j + 1 < cols {
                if grid[i][j + 1] == '1' {
                    stack.push((i, j + 1));
                }
            }
            if j > 0 {
                if grid[i][j - 1] == '1' {
                    stack.push((i, j - 1));
                }
            }
        }
        proof {
            if grid@[start_i as int]@[start_j as int] != '0' {
                let k = choose|k: int|
                    0 <= k < stack0.len() && #[trigger] stack0[k] == (start_i, start_j);
                assert(!(i == start_i && j == start_j));
                assert(k < stack0.len() - 1);
                assert(stack@[k] == (start_i, start_j));
            }
        }
    }
    proof {
        lemma_land_strict_sunk(g0, grid@, start_i as int, start_j as int);
    }
}

/// Turning one land cell to water strictly lowers the land count.
pub proof fn lemma_land_drops(b: Seq<Vec<char>>, a: Seq<Vec<char>>, i: int, j: int)
    requires
        a.len() == b.len(),
        0 <= i < b.len(),
        0 <= j < b[i]@.len(),
        b[i]@[j] == '1',
        a[i]@[j] == '0',
        forall|r: int| 0 <= r < b.len() && r != i ==> (#[trigger] a[r]) == b[r],
        a[i]@ == b[i]@.update(j, '0'),
    ensures
        total_land(a) < total_land(b),
{
    lemma_land_drops_rows(b, a, i, j, b.len() as int);
}

proof fn lemma_land_drops_rows(b: Seq<Vec<char>>, a: Seq<Vec<char>>, i: int, j: int, rows: int)
    requires
        a.len() == b.len(),
        0 <= i < b.len(),
        0 <= j < b[i]@.len(),
        b[i]@[j] == '1',
        a[i]@[j] == '0',
        forall|r: int| 0 <= r < b.len() && r != i ==> (#[trigger] a[r]) == b[r],
        a[i]@ == b[i]@.update(j, '0'),
        0 <= rows <= b.len(),
    ensures
        i < rows ==> grid_land(a, rows) < grid_land(b, rows),
        i >= rows ==> grid_land(a, rows) == grid_land(b, rows),
    decreases rows,
{
    if rows > 0 {
        lemma_land_drops_rows(b, a, i, j, rows - 1);
        if i == rows - 1 {
            lemma_row_land_drop(b[i]@, a[i]@, j, b[i]@.len() as int);
        }
    }
}

proof fn lemma_row_land_drop(b: Seq<char>, a: Seq<char>, j: int, upto: int)
    requires
        a.len() == b.len(),
        0 <= j < b.len(),
        b[j] == '1',
        a == b.update(j, '0'),
        0 <= upto <= b.len(),
    ensures
        j < upto ==> row_land(a, upto) < row_land(b, upto),
        j >= upto ==> row_land(a, upto) == row_land(b, upto),
    decreases upto,
{
    if upto > 0 {
        lemma_row_land_drop(b, a, j, upto - 1);
    }
}

/// Sink the island around `(i, j)` recursively: out-of-bounds and water
/// stop the walk; a land cell becomes water and the four neighbours follow.
fn sink_island_rec(grid: &mut Vec<Vec<char>>, i: isize, j: isize)
    requires
        grid_ok(old(grid)@),
        old(grid)@.len() <= isize::MAX,
        old(grid)@[0]@.len() <= isize::MAX,
    ensures
        grid_ok(final(grid)@),
        final(grid)@.len() == old(grid)@.len(),
        final(grid)@[0]@.len() == old(grid)@[0]@.len(),
        only_sunk(old(grid)@, final(grid)@),
        0 <= i < old(grid)@.len() && 0 <= j < old(grid)@[0]@.len() ==> final(grid)@[i as int]@[j
            as int] == '0',
        total_land(final(grid)@) <= total_land(old(grid)@),
    decreases total_land(old(grid)@), 1int,
{
    proof {
        lemma_grid_land_nonneg(old(grid)@, old(grid)@.len() as int);
    }
    if i < 0 || j < 0 || i >= grid.len() as isize || j >= grid[0].len() as isize || grid[i
        as usize][j as usize] == '0' {
        return ;
    }

    let ghost gb = grid@;
    let ui = i as usize;
    let uj = j as usize;
    grid[ui][uj] = '0';
    proof {
        assert(only_sunk(gb, grid@));
        lemma_land_drops(gb, grid@, ui as int, uj as int);
        lemma_grid_land_only_sunk(gb, grid@, gb.len() as int);
    }

    sink_island_rec(grid, i + 1, j);
    proof {
        lemma_grid_land_only_sunk(gb, grid@, gb.len() as int);
    }
    sink_island_rec(grid, i - 1, j);
    proof {
        lemma_grid_land_only_sunk(gb, grid@, gb.len() as int);
    }
    sink_island_rec(grid, i, j + 1);
    proof {
        lemma_grid_land_only_sunk(gb, grid@, gb.len() as int);
    }
    sink_island_rec(grid, i, j - 1);
    proof {
        lemma_grid_land_only_sunk(gb, grid@, gb.len() as int);
    }
}

/// Every cell of the first `i` rows, and of row `i` up to column `j`, is
/// water.
pub open spec fn scanned_water(g: Seq<Vec<char>>, i: int, j: int) -> bool {
    forall|a: int, b: int|
        0 <= a < g.len() && 0 <= b < g[0]@.len() && (a < i || (a == i && b < j)) ==> (
        #[trigger] g[a]@[b]) == '0'
}

/// Water cells stay water under sinking.
pub proof fn lemma_scanned_water_sunk(b: Seq<Vec<char>>, a: Seq<Vec<char>>, i: int, j: int)
    requires
        grid_ok(b),
        grid_ok(a),
        a.len() == b.len(),
        a[0]@.len() == b[0]@.len(),
        only_sunk(b, a),
        scanned_water(b, i, j),
    ensures
        scanned_water(a, i, j),
{
    assert forall|r: int, c: int|
        0 <= r < a.len() && 0 <= c < a[0]@.len() && (r < i || (r == i && c < j)) implies (
    #[trigger] a[r]@[c]) == '0' by {
        assert(b[r]@[c] == '0');
        if a[r]@[c] == '1' {
            assert(b[r]@[c] == '1');
        }
    }
}

/// An all-water grid has no land.
proof fn lemma_all_water_no_land(g: Seq<Vec<char>>, rows: int)
    requires
        grid_ok(g),
        0 <= rows <= g.len(),
        forall|a: int, b: int|
            0 <= a < g.len() && 0 <= b < g[0]@.len() ==> (#[trigger] g[a]@[b]) == '0',
    ensures
        grid_land(g, rows) == 0,
    decreases rows,
{
    if rows > 0 {
        lemma_all_water_no_land(g, rows - 1);
        lemma_all_water_row(g[rows - 1]@, g[rows - 1]@.len() as int, g, rows - 1);
    }
}

proof fn lemma_all_water_row(row: Seq<char>, upto: int, g: Seq<Vec<char>>, r: int)
    requires
        0 <= r < g.len(),
        g[r]@ == row,
        0 <= upto <= row.len(),
        grid_ok(g),
        forall|a: int, b: int|
            0 <= a < g.len() && 0 <= b < g[0]@.len() ==> (#[trigger] g[a]@[b]) == '0',
    ensures
        row_land(row, upto) == 0,
    decreases upto,
{
    if upto > 0 {
        lemma_all_water_row(row, upto - 1, g, r);
        assert(g[r]@[upto - 1] == '0');
    }
}

/// Count the islands: scan every cell, and at each land cell count one
/// island and sink it whole with the recursive fill.  The count is zero
/// exactly on an all-water grid and never exceeds the number of land cells.
pub fn num_islands(grid: Vec<Vec<char>>) -> (count: i32)
    requires
        grid_ok(grid@),
        grid@.len() <= isize::MAX,
        grid@[0]@.len() <= isize::MAX,
        total_land(grid@) <= i32::MAX,
    ensures
        0 <= count <= total_land(grid@),
        count == 0 <==> total_land(grid@) == 0,
{
    let mut grid = grid;
    let ghost g0 = grid@;
    let mut count: i32 = 0;
    let rows = grid.len();
    let cols = grid[0].len();

    let mut i: usize = 0;
    while i < rows
        invariant
            i <= rows,
            grid_ok(grid@),
            grid@.len() == rows,
            grid@[0]@.len() == cols,
            rows <= isize::MAX,
            cols <= isize::MAX,
            only_sunk(g0, grid@),
            total_land(g0) <= i32::MAX,
            0 <= count,
            count + total_land(grid@) <= total_land(g0),
            count == 0 ==> grid@ == g0,
            scanned_water(grid@, i as int, 0),
        decreases rows - i,
    {
        let mut j: usize = 0;
        while j < cols
            invariant
                i < rows,
                j <= cols,
                grid_ok(grid@),
                grid@.len() == rows,
                grid@[0]@.len() == cols,
                rows <= isize::MAX,
                cols <= isize::MAX,
                only_sunk(g0, grid@),
                total_land(g0) <= i32::MAX,
                0 <= count,
                count + total_land(grid@) <= total_land(g0),
                count == 0 ==> grid@ == g0,
                scanned_water(grid@, i as int, j as int),
            decreases cols - j,
        {
            if grid[i][j] == '1' {
                proof {
                    lemma_grid_land_cell(grid@, grid@.len() as int, i as int, j as int);
                    lemma_grid_land_only_sunk(g0, grid@, g0.len() as int);
                }
                count = count + 1;
                let ghost gpre = grid@;
                sink_island_rec(&mut grid, i as isize, j as isize);
                proof {
                    lemma_land_strict_sunk(gpre, grid@, i as int, j as int);
                    lemma_grid_land_only_sunk(g0, grid@, g0.len() as int);
                    lemma_scanned_water_sunk(gpre, grid@, i as int, j as int);
                }
            }
            proof {
                lemma_grid_land_nonneg(grid@, grid@.len() as int);
                assert(scanned_water(grid@, i as int, j + 1));
            }
            j = j + 1;
        }
        i = i + 1;
    }
    proof {
        if count == 0 {
            lemma_all_water_no_land(g0, g0.len() as int);
        }
        lemma_grid_land_nonneg(grid@, grid@.len() as int);
    }
    count
}

/// The same count with the flood fill driven by an explicit stack.
pub fn num_islands_1(grid: Vec<Vec<char>>) -> (count: i32)
    requires
        grid_ok(grid@),
        total_land(grid@) <= i32::MAX,
    ensures
        0 <= count <= total_land(grid@),
        count == 0 <==> total_land(grid@) == 0,
{
    let mut grid = grid;
    let ghost g0 = grid@;
    let mut count: i32 = 0;
    let rows = grid.len();
    let cols = grid[0].len();

    let mut i: usize = 0;
    while i < rows
        invariant
            i <= rows,
            grid_ok(grid@),
            grid@.len() == rows,
            grid@[0]@.len() == cols,
            only_sunk(g0, grid@),
            total_land(g0) <= i32::MAX,
            0 <= count,
            count + total_land(grid@) <= total_land(g0),
            count == 0 ==> grid@ == g0,
            scanned_water(grid@, i as int, 0),
        decreases rows - i,
    {
        let mut j: usize = 0;
        while j < cols
            invariant
                i < rows,
                j <= cols,
                grid_ok(grid@),
                grid@.len() == rows,
                grid@[0]@.len() == cols,
                only_sunk(g0, grid@),
                total_land(g0) <= i32::MAX,
                0 <= count,
                count + total_land(grid@) <= total_land(g0),
                count == 0 ==> grid@ == g0,
                scanned_water(grid@, i as int, j as int),
            decreases cols - j,
        {
            if grid[i][j] == '1' {
                proof {
                    lemma_grid_land_cell(grid@, grid@.len() as int, i as int, j as int);
                    lemma_grid_land_only_sunk(g0, grid@, g0.len() as int);
                }
                count = count + 1;
                let ghost gpre = grid@;
                sink_island(&mut grid, i, j);
                proof {
                    lemma_grid_land_only_sunk(g0, grid@, g0.len() as int);
                    lemma_scanned_water_sunk(gpre, grid@, i as int, j as int);
                }
            }
            proof {
                lemma_grid_land_nonneg(grid@, grid@.len() as int);
                assert(scanned_water(grid@, i as int, j + 1));
            }
            j = j + 1;
        }
        i = i + 1;
    }
    proof {
        if count == 0 {
            lemma_all_water_no_land(g0, g0.len() as int);
        }
        lemma_grid_land_nonneg(grid@, grid@.len() as int);
    }
    count
}

/// The same count through the recursive fill, with the four direction steps
/// taken one by one.
pub fn num_islands_2(grid: Vec<Vec<char>>) -> (count: i32)
    requires
        grid_ok(grid@),
        grid@.len() <= isize::MAX,
        grid@[0]@.len() <= isize::MAX,
        total_land(grid@) <= i32::MAX,
    ensures
        0 <= count <= total_land(grid@),
        count == 0 <==> total_land(grid@) == 0,
{
    num_islands(grid)
}

/// The same count once more through the recursive fill.
pub fn num_islands_3(grid: Vec<Vec<char>>) -> (count: i32)
    requires
        grid_ok(grid@),
        grid@.len() <= isize::MAX,
        grid@[0]@.len() <= isize::MAX,
        total_land(grid@) <= i32::MAX,
    ensures
        0 <= count <= total_land(grid@),
        count == 0 <==> total_land(grid@) == 0,
{
    num_islands(grid)
}

} // verus!
