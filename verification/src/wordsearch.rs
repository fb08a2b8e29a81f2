//! A letter grid searched for the word `XMAS` in all eight directions,
//! and for two crossed `MAS` strokes around a centre `A`.

use vstd::prelude::*;

verus! {

/// The x step of one of the eight compass directions, counted
/// counter-clockwise from east.
pub open spec fn offset_x(direction: u8) -> int {
    if direction == 0 {
        1
    } else if direction == 1 {
        1
    } else if direction == 2 {
        0
    } else if direction == 3 {
        -1
    } else if direction == 4 {
        -1
    } else if direction == 5 {
        -1
    } else if direction == 6 {
        0
    } else {
        1
    }
}

/// The y step of one of the eight compass directions.
pub open spec fn offset_y(direction: u8) -> int {
    if direction == 0 {
        0
    } else if direction == 1 {
        1
    } else if direction == 2 {
        1
    } else if direction == 3 {
        1
    } else if direction == 4 {
        0
    } else if direction == 5 {
        -1
    } else if direction == 6 {
        -1
    } else {
        -1
    }
}

/// The `k`th letter of the search word.
pub open spec fn xmas_char(k: int) -> char {
    if k == 0 {
        'X'
    } else if k == 1 {
        'M'
    } else if k == 2 {
        'A'
    } else {
        'S'
    }
}

/// Every row has the length of the first one.
pub open spec fn grid_rect(g: Seq<Vec<char>>) -> bool {
    forall|y: int| 0 <= y < g.len() ==> (#[trigger] g[y])@.len() == g[0]@.len()
}

/// The grid width; zero for an empty grid.
pub open spec fn grid_width(g: Seq<Vec<char>>) -> int {
    if g.len() == 0 {
        0
    } else {
        g[0]@.len() as int
    }
}

/// The first `k` letters of the word stand at (x, y) along `direction`.
pub open spec fn xmas_prefix(g: Seq<Vec<char>>, x: int, y: int, direction: u8, k: int) -> bool
    decreases k,
{
    if k <= 0 {
        true
    } else {
        &&& xmas_prefix(g, x, y, direction, k - 1)
        &&& 0 <= x + (k - 1) * offset_x(direction) < grid_width(g)
        &&& 0 <= y + (k - 1) * offset_y(direction) < g.len()
        &&& g[y + (k - 1) * offset_y(direction)]@[x + (k - 1) * offset_x(direction)] == xmas_char(
            k - 1,
        )
    }
}

/// The word `XMAS` starts at (x, y) and runs along `direction`.
pub open spec fn xmas_at(g: Seq<Vec<char>>, x: int, y: int, direction: u8) -> bool {
    xmas_prefix(g, x, y, direction, 4)
}

/// A longer matched prefix contains a shorter one.
proof fn lemma_xmas_prefix_mono(g: Seq<Vec<char>>, x: int, y: int, direction: u8, m: int, n: int)
    requires
        m <= n,
        xmas_prefix(g, x, y, direction, n),
    ensures
        xmas_prefix(g, x, y, direction, m),
    decreases n - m,
{
    if m < n {
        lemma_xmas_prefix_mono(g, x, y, direction, m, n - 1);
    }
}

/// In how many of the first `n` directions the word starts at (x, y).
pub open spec fn xmas_dirs(g: Seq<Vec<char>>, x: int, y: int, n: int) -> int
    decreases n,
{
    if n <= 0 {
        0
    } else {
        xmas_dirs(g, x, y, n - 1) + if xmas_at(g, x, y, (n - 1) as u8) {
            1int
        } else {
            0int
        }
    }
}

/// How many word starts lie in the first `n` cells of row `y`.
pub open spec fn xmas_row(g: Seq<Vec<char>>, y: int, n: int) -> int
    decreases n,
{
    if n <= 0 {
        0
    } else {
        xmas_row(g, y, n - 1) + xmas_dirs(g, n - 1, y, 8)
    }
}

/// How many word starts lie in the first `n` rows.
pub open spec fn xmas_total(g: Seq<Vec<char>>, n: int) -> int
    decreases n,
{
    if n <= 0 {
        0
    } else {
        xmas_total(g, n - 1) + xmas_row(g, n - 1, grid_width(g))
    }
}

proof fn lemma_xmas_dirs_nonneg(g: Seq<Vec<char>>, x: int, y: int, n: int)
    ensures
        0 <= xmas_dirs(g, x, y, n),
    decreases n,
{
    if n > 0 {
        lemma_xmas_dirs_nonneg(g, x, y, n - 1);
    }
}

proof fn lemma_xmas_row_mono(g: Seq<Vec<char>>, y: int, m: int, n: int)
    requires
        m <= n,
    ensures
        xmas_row(g, y, m) <= xmas_row(g, y, n),
    decreases n - m,
{
    if m < n {
        lemma_xmas_row_mono(g, y, m, n - 1);
        lemma_xmas_dirs_nonneg(g, n - 1, y, 8);
    }
}

proof fn lemma_xmas_row_nonneg(g: Seq<Vec<char>>, y: int, n: int)
    ensures
        0 <= xmas_row(g, y, n),
    decreases n,
{
    if n > 0 {
        lemma_xmas_row_nonneg(g, y, n - 1);
        lemma_xmas_dirs_nonneg(g, n - 1, y, 8);
    }
}

proof fn lemma_xmas_total_mono(g: Seq<Vec<char>>, m: int, n: int)
    requires
        m <= n,
    ensures
        xmas_total(g, m) <= xmas_total(g, n),
    decreases n - m,
{
    if m < n {
        lemma_xmas_total_mono(g, m, n - 1);
        lemma_xmas_row_nonneg(g, n - 1, grid_width(g));
    }
}

/// The unit step of a compass direction.
pub fn get_offset(direction: u8) -> (r: (i32, i32))
    requires
        direction < 8,
    ensures
        r.0 == offset_x(direction),
        r.1 == offset_y(direction),
{
    let x: i32 = if direction == 0 {
        1
    } else if direction == 1 {
        1
    } else if direction == 2 {
        0
    } else if direction == 3 {
        -1
    } else if direction == 4 {
        -1
    } else if direction == 5 {
        -1
    } else if direction == 6 {
        0
    } else {
        1
    };
    let y: i32 = if direction == 0 {
        0
    } else if direction == 1 {
        1
    } else if direction == 2 {
        1
    } else if direction == 3 {
        1
    } else if direction == 4 {
        0
    } else if direction == 5 {
        -1
    } else if direction == 6 {
        -1
    } else {
        -1
    };
    (x, y)
}

/// Whether the word starts at (x, y) along `direction`.
#[verifier::loop_isolation(false)]
fn xmas_here(grid: &Vec<Vec<char>>, x: usize, y: usize, direction: u8) -> (b: bool)
    requires
        grid_rect(grid@),
        y < grid@.len(),
        x < grid_width(grid@),
        direction < 8,
    ensures
        b == xmas_at(grid@, x as int, y as int, direction),
{
    let (ox, oy) = get_offset(direction);
    let mut k: usize = 0;
    while k < 4
        invariant
            k <= 4,
            xmas_prefix(grid@, x as int, y as int, direction, k as int),
        decreases 4 - k,
    {
        proof {
            assert((k as i128) * (ox as i128) == (k as int) * offset_x(direction) && -3 <= (k
                as i128) * (ox as i128) <= 3) by (nonlinear_arith)
                requires
                    0 <= k < 4,
                    ox == offset_x(direction),
                    -1 <= ox <= 1,
            ;
            assert((k as i128) * (oy as i128) == (k as int) * offset_y(direction) && -3 <= (k
                as i128) * (oy as i128) <= 3) by (nonlinear_arith)
                requires
                    0 <= k < 4,
                    oy == offset_y(direction),
                    -1 <= oy <= 1,
            ;
        }
        let nx: i128 = x as i128 + (k as i128) * (ox as i128);
        let ny: i128 = y as i128 + (k as i128) * (oy as i128);
        proof {
            assert(grid@[y as int]@.len() == grid_width(grid@));
        }
        if !(0 <= nx && nx < grid[y].len() as i128 && 0 <= ny && ny < grid.len() as i128) {
            proof {
                if xmas_at(grid@, x as int, y as int, direction) {
                    lemma_xmas_prefix_mono(grid@, x as int, y as int, direction, k + 1, 4);
                    assert(false);
                }
            }
            return false;
        }
        let c = grid[ny as usize][nx as usize];
        let expected: char = if k == 0 {
            'X'
        } else if k == 1 {
            'M'
        } else if k == 2 {
            'A'
        } else {
            'S'
        };
        if c != expected {
            proof {
                assert(expected == xmas_char(k as int));
                if xmas_at(grid@, x as int, y as int, direction) {
                    lemma_xmas_prefix_mono(grid@, x as int, y as int, direction, k + 1, 4);
                    assert(false);
                }
            }
            return false;
        }
        proof {
            assert(expected == xmas_char(k as int));
            assert(xmas_prefix(grid@, x as int, y as int, direction, k + 1));
        }
        k = k + 1;
    }
    true
}

/// In how many of the eight directions the word starts at (x, y).
#[verifier::loop_isolation(false)]
fn xmas_directions(grid: &Vec<Vec<char>>, x: usize, y: usize) -> (count: u8)
    requires
        grid_rect(grid@),
        y < grid@.len(),
        x < grid_width(grid@),
    ensures
        count == xmas_dirs(grid@, x as int, y as int, 8),
        count <= 8,
{
    let mut count: u8 = 0;
    let mut d: u8 = 0;
    while d < 8
        invariant
            d <= 8,
            count <= d,
            count == xmas_dirs(grid@, x as int, y as int, d as int),
        decreases 8 - d,
    {
        if xmas_here(grid, x, y, d) {
            count = count + 1;
        }
        d = d + 1;
    }
    count
}

/// Counts every start of the word `XMAS`, in any of the eight
/// directions, over the whole grid.
#[verifier::loop_isolation(false)]
pub fn count_of_xmas(grid: &Vec<Vec<char>>) -> (count: usize)
    requires
        grid_rect(grid@),
        xmas_total(grid@, grid@.len() as int) <= usize::MAX,
    ensures
        count == xmas_total(grid@, grid@.len() as int),
{
    let mut count: usize = 0;
    let mut y: usize = 0;
    proof {
        lemma_xmas_total_mono(grid@, 0, grid@.len() as int);
    }
    while y < grid.len()
        invariant
            y <= grid@.len(),
            count == xmas_total(grid@, y as int),
            count <= xmas_total(grid@, grid@.len() as int),
        decreases grid@.len() - y,
    {
        proof {
            assert(grid@[y as int]@.len() == grid_width(grid@));
            lemma_xmas_total_mono(grid@, y as int, grid@.len() as int);
        }
        let width = grid[y].len();
        let mut x: usize = 0;
        while x < width
            invariant
                y < grid@.len(),
                width == grid_width(grid@),
                x <= width,
                count == xmas_total(grid@, y as int) + xmas_row(grid@, y as int, x as int),
                count <= xmas_total(grid@, grid@.len() as int),
            decreases width - x,
        {
            proof {
                lemma_xmas_row_mono(grid@, y as int, x + 1, width as int);
                lemma_xmas_total_mono(grid@, y + 1, grid@.len() as int);
            }
            let dirs = xmas_directions(grid, x, y);
            count = count + dirs as usize;
            x = x + 1;
        }
        y = y + 1;
    }
    count
}

/// Two `MAS` strokes cross at the `A` centred at (x + 1, y + 1).
pub open spec fn cross_at(g: Seq<Vec<char>>, x: int, y: int) -> bool {
    &&& g[y + 1]@[x + 1] == 'A'
    &&& ((g[y]@[x] == 'M' && g[y + 2]@[x + 2] == 'S') || (g[y]@[x] == 'S' && g[y + 2]@[x + 2]
        == 'M'))
    &&& ((g[y + 2]@[x] == 'M' && g[y]@[x + 2] == 'S') || (g[y + 2]@[x] == 'S' && g[y]@[x + 2]
        == 'M'))
}

/// How many crosses are centred in the first `n` windows of row `y`.
pub open spec fn cross_row(g: Seq<Vec<char>>, y: int, n: int) -> int
    decreases n,
{
    if n <= 0 {
        0
    } else {
        cross_row(g, y, n - 1) + if cross_at(g, n - 1, y) {
            1int
        } else {
            0int
        }
    }
}

/// How many crosses are centred in the first `n` window rows.
pub open spec fn cross_total(g: Seq<Vec<char>>, n: int) -> int
    decreases n,
{
    if n <= 0 {
        0
    } else {
        cross_total(g, n - 1) + cross_row(g, n - 1, grid_width(g) - 2)
    }
}

proof fn lemma_cross_row_mono(g: Seq<Vec<char>>, y: int, m: int, n: int)
    requires
        m <= n,
    ensures
        cross_row(g, y, m) <= cross_row(g, y, n),
    decreases n - m,
{
    if m < n {
        lemma_cross_row_mono(g, y, m, n - 1);
    }
}

proof fn lemma_cross_row_nonneg(g: Seq<Vec<char>>, y: int, n: int)
    ensures
        0 <= cross_row(g, y, n),
    decreases n,
{
    if n > 0 {
        lemma_cross_row_nonneg(g, y, n - 1);
    }
}

proof fn lemma_cross_total_mono(g: Seq<Vec<char>>, m: int, n: int)
    requires
        m <= n,
    ensures
        cross_total(g, m) <= cross_total(g, n),
    decreases n - m,
{
    if m < n {
        lemma_cross_total_mono(g, m, n - 1);
        lemma_cross_row_nonneg(g, n - 1, grid_width(g) - 2);
    }
}

/// Counts every pair of crossed `MAS` strokes, sliding a 3 by 3 window
/// over the grid.
#[verifier::loop_isolation(false)]
pub fn count_of_x_mas(grid: &Vec<Vec<char>>) -> (count: usize)
    requires
        grid_rect(grid@),
        grid@.len() >= 2,
        grid_width(grid@) >= 2,
        cross_total(grid@, grid@.len() - 2) <= usize::MAX,
    ensures
        count == cross_total(grid@, grid@.len() - 2),
{
    let mut count: usize = 0;
    let mut y: usize = 0;
    let rows = grid.len() - 2;
    proof {
        lemma_cross_total_mono(grid@, 0, grid@.len() - 2);
    }
    while y < rows
        invariant
            y <= rows,
            rows == grid@.len() - 2,
            count == cross_total(grid@, y as int),
            count <= cross_total(grid@, grid@.len() - 2),
        decreases rows - y,
    {
        proof {
            assert(grid@[y as int]@.len() == grid_width(grid@));
            lemma_cross_total_mono(grid@, y as int, grid@.len() - 2);
        }
        let width = grid[y].len() - 2;
        let mut x: usize = 0;
        while x < width
            invariant
                y < rows,
                rows == grid@.len() - 2,
                width == grid_width(grid@) - 2,
                x <= width,
                count == cross_total(grid@, y as int) + cross_row(grid@, y as int, x as int),
                count <= cross_total(grid@, grid@.len() - 2),
            decreases width - x,
        {
            proof {
                lemma_cross_row_mono(grid@, y as int, x + 1, width as int);
                lemma_cross_total_mono(grid@, y + 1, grid@.len() - 2);
            }
            let matched = grid[y + 1][x + 1] == 'A' && ((grid[y][x] == 'M' && grid[y + 2][x + 2]
                == 'S') || (grid[y][x] == 'S' && grid[y + 2][x + 2] == 'M')) && ((grid[y + 2][x]
                == 'M' && grid[y][x + 2] == 'S') || (grid[y + 2][x] == 'S' && grid[y][x + 2]
                == 'M'));
            if matched {
                count = count + 1;
            }
            x = x + 1;
        }
        y = y + 1;
    }
    count
}

/// The grid of one text: its lines, empty lines dropped.
pub open spec fn grid_of(lines: Seq<Seq<char>>) -> Seq<Seq<char>>
    decreases lines.len(),
{
    if lines.len() == 0 {
        seq![]
    } else {
        let rest = grid_of(lines.drop_last());
        if lines.last().len() > 0 {
            rest.push(lines.last())
        } else {
            rest
        }
    }
}

/// Parses a letter grid: one row per non-empty line.
#[verifier::loop_isolation(false)]
pub fn parse_grid(input: &str) -> (grid: Vec<Vec<char>>)
    ensures
        crate::text::views_of(grid@) == grid_of(crate::text::split_lines(input@)),
{
    let v = crate::text::chars_of(input);
    let lines = crate::text::split_newlines(&v);
    let ghost ls = crate::text::split_lines(input@);
    let mut grid: Vec<Vec<char>> = Vec::new();
    let mut i: usize = 0;
    while i < lines.len()
        invariant
            i <= lines.len(),
            crate::text::views_of(lines@) == ls,
            crate::text::views_of(grid@) == grid_of(ls.take(i as int)),
        decreases lines.len() - i,
    {
        proof {
            assert(ls[i as int] == lines@[i as int]@);
            assert(ls.take(i + 1).drop_last() =~= ls.take(i as int));
        }
        let line = &lines[i];
        if line.len() > 0 {
            let row = crate::text::copy_vec(line);
            let ghost row_view = row@;
            grid.push(row);
            proof {
                assert(crate::text::views_of(grid@) =~= crate::text::views_of(
                    grid@.drop_last(),
                ).push(row_view));
                assert(crate::text::views_of(grid@) =~= grid_of(ls.take(i + 1)));
            }
        } else {
            proof {
                assert(crate::text::views_of(grid@) =~= grid_of(ls.take(i + 1)));
            }
        }
        i = i + 1;
    }
    proof {
        assert(ls.take(ls.len() as int) =~= ls);
    }
    grid
}

} // verus!
