//! A topographical map of single-digit elevations.  A trail climbs from
//! a trailhead at elevation zero to a peak at elevation nine, rising by
//! exactly one per step.  A trailhead's score counts the distinct peaks
//! it reaches; its rating counts the distinct trails to them.

use vstd::prelude::*;
use vstd::seq_lib::seq_to_set_distributes_over_add;

verus! {

/// Every row has the length of the first one.
pub open spec fn map_rect(g: Seq<Vec<u32>>) -> bool {
    forall|y: int| 0 <= y < g.len() ==> (#[trigger] g[y])@.len() == g[0]@.len()
}

/// The map width; zero for an empty map.
pub open spec fn map_width(g: Seq<Vec<u32>>) -> int {
    if g.len() == 0 {
        0
    } else {
        g[0]@.len() as int
    }
}

/// (x, y) lies on the map.
pub open spec fn on_map(g: Seq<Vec<u32>>, x: int, y: int) -> bool {
    0 <= x < map_width(g) && 0 <= y < g.len()
}

/// The set of peaks reachable from (x, y) by climbing one elevation per
/// step.
pub open spec fn peaks_from(g: Seq<Vec<u32>>, x: usize, y: usize) -> Set<(usize, usize)>
    decreases 9 - g[y as int]@[x as int],
{
    let cur = g[y as int]@[x as int];
    if cur >= 9 {
        if cur == 9 {
            set![(x, y)]
        } else {
            Set::empty()
        }
    } else {
        let up = if y > 0 && on_map(g, x as int, y - 1) && g[y - 1]@[x as int] == cur + 1 {
            peaks_from(g, x, (y - 1) as usize)
        } else {
            Set::empty()
        };
        let right = if x < usize::MAX && on_map(g, x + 1, y as int) && g[y as int]@[x + 1] == cur
            + 1 {
            peaks_from(g, (x + 1) as usize, y)
        } else {
            Set::empty()
        };
        let down = if y < usize::MAX && on_map(g, x as int, y + 1) && g[y + 1]@[x as int] == cur
            + 1 {
            peaks_from(g, x, (y + 1) as usize)
        } else {
            Set::empty()
        };
        let left = if x > 0 && on_map(g, x - 1, y as int) && g[y as int]@[x - 1] == cur + 1 {
            peaks_from(g, (x - 1) as usize, y)
        } else {
            Set::empty()
        };
        up.union(right).union(down).union(left)
    }
}

/// How many distinct trails climb from (x, y) to a peak.
pub open spec fn trails_from(g: Seq<Vec<u32>>, x: usize, y: usize) -> nat
    decreases 9 - g[y as int]@[x as int],
{
    let cur = g[y as int]@[x as int];
    if cur >= 9 {
        if cur == 9 {
            1
        } else {
            0
        }
    } else {
        (if y > 0 && on_map(g, x as int, y - 1) && g[y - 1]@[x as int] == cur + 1 {
            trails_from(g, x, (y - 1) as usize)
        } else {
            0
        }) + (if x < usize::MAX && on_map(g, x + 1, y as int) && g[y as int]@[x + 1] == cur + 1 {
            trails_from(g, (x + 1) as usize, y)
        } else {
            0
        }) + (if y < usize::MAX && on_map(g, x as int, y + 1) && g[y + 1]@[x as int] == cur + 1 {
            trails_from(g, x, (y + 1) as usize)
        } else {
            0
        }) + (if x > 0 && on_map(g, x - 1, y as int) && g[y as int]@[x - 1] == cur + 1 {
            trails_from(g, (x - 1) as usize, y)
        } else {
            0
        })
    }
}

/// The score of one cell: its reachable peaks if it is a trailhead.
pub open spec fn cell_score(g: Seq<Vec<u32>>, x: usize, y: usize) -> nat {
    if g[y as int]@[x as int] == 0 {
        peaks_from(g, x, y).len()
    } else {
        0
    }
}

/// The total score of the first `n` cells of row `y`.
pub open spec fn row_score(g: Seq<Vec<u32>>, y: usize, n: int) -> nat
    decreases n,
{
    if n <= 0 {
        0
    } else {
        row_score(g, y, n - 1) + cell_score(g, (n - 1) as usize, y)
    }
}

/// The total score of the first `n` rows.
pub open spec fn total_score(g: Seq<Vec<u32>>, n: int) -> nat
    decreases n,
{
    if n <= 0 {
        0
    } else {
        total_score(g, n - 1) + row_score(g, (n - 1) as usize, map_width(g))
    }
}

/// The rating of one cell: its distinct trails if it is a trailhead.
pub open spec fn cell_rating(g: Seq<Vec<u32>>, x: usize, y: usize) -> nat {
    if g[y as int]@[x as int] == 0 {
        trails_from(g, x, y)
    } else {
        0
    }
}

/// The total rating of the first `n` cells of row `y`.
pub open spec fn row_rating(g: Seq<Vec<u32>>, y: usize, n: int) -> nat
    decreases n,
{
    if n <= 0 {
        0
    } else {
        row_rating(g, y, n - 1) + cell_rating(g, (n - 1) as usize, y)
    }
}

/// The total rating of the first `n` rows.
pub open spec fn total_rating(g: Seq<Vec<u32>>, n: int) -> nat
    decreases n,
{
    if n <= 0 {
        0
    } else {
        total_rating(g, n - 1) + row_rating(g, (n - 1) as usize, map_width(g))
    }
}

proof fn lemma_row_score_mono(g: Seq<Vec<u32>>, y: usize, m: int, n: int)
    requires
        m <= n,
    ensures
        row_score(g, y, m) <= row_score(g, y, n),
    decreases n - m,
{
    if m < n {
        lemma_row_score_mono(g, y, m, n - 1);
    }
}

proof fn lemma_total_score_mono(g: Seq<Vec<u32>>, m: int, n: int)
    requires
        m <= n,
    ensures
        total_score(g, m) <= total_score(g, n),
    decreases n - m,
{
    if m < n {
        lemma_total_score_mono(g, m, n - 1);
    }
}

proof fn lemma_row_rating_mono(g: Seq<Vec<u32>>, y: usize, m: int, n: int)
    requires
        m <= n,
    ensures
        row_rating(g, y, m) <= row_rating(g, y, n),
    decreases n - m,
{
    if m < n {
        lemma_row_rating_mono(g, y, m, n - 1);
    }
}

proof fn lemma_total_rating_mono(g: Seq<Vec<u32>>, m: int, n: int)
    requires
        m <= n,
    ensures
        total_rating(g, m) <= total_rating(g, n),
    decreases n - m,
{
    if m < n {
        lemma_total_rating_mono(g, m, n - 1);
    }
}

/// Collects every reachable peak from (x, y), possibly with repeats.
#[verifier::loop_isolation(false)]
fn collect_peaks(grid: &Vec<Vec<u32>>, x: usize, y: usize) -> (out: Vec<(usize, usize)>)
    requires
        map_rect(grid@),
        on_map(grid@, x as int, y as int),
    ensures
        out@.to_set() == peaks_from(grid@, x, y),
    decreases 9 - grid@[y as int]@[x as int],
{
    broadcast use vstd::seq_lib::seq_to_set_is_finite;
    broadcast use vstd::set::group_set_axioms;

    proof {
        assert(grid@[y as int]@.len() == map_width(grid@));
    }
    let row_len = grid[y].len();
    let height = grid.len();
    let cur = grid[y][x];
    let mut out: Vec<(usize, usize)> = Vec::new();
    if cur >= 9 {
        if cur == 9 {
            out.push((x, y));
            proof {
                assert(out@.to_set() =~= peaks_from(grid@, x, y)) by {
                    assert(out@[0] == (x, y));
                }
            }
        } else {
            proof {
                assert(out@.to_set() =~= peaks_from(grid@, x, y));
            }
        }
        return out;
    }
    if y > 0 && grid[y - 1][x] == cur + 1 {
        let mut sub = collect_peaks(grid, x, y - 1);
        let ghost a = out@;
        let ghost b = sub@;
        out.append(&mut sub);
        proof {
            seq_to_set_distributes_over_add(a, b);
        }
    }
    if x + 1 < row_len {
        if grid[y][x + 1] == cur + 1 {
            let mut sub = collect_peaks(grid, x + 1, y);
            let ghost a = out@;
            let ghost b = sub@;
            out.append(&mut sub);
            proof {
                seq_to_set_distributes_over_add(a, b);
            }
        }
    }
    if y + 1 < height {
        if grid[y + 1][x] == cur + 1 {
            let mut sub = collect_peaks(grid, x, y + 1);
            let ghost a = out@;
            let ghost b = sub@;
            out.append(&mut sub);
            proof {
                seq_to_set_distributes_over_add(a, b);
            }
        }
    }
    if x > 0 && grid[y][x - 1] == cur + 1 {
        let mut sub = collect_peaks(grid, x - 1, y);
        let ghost a = out@;
        let ghost b = sub@;
        out.append(&mut sub);
        proof {
            seq_to_set_distributes_over_add(a, b);
        }
    }
    proof {
        assert(out@.to_set() =~= peaks_from(grid@, x, y));
    }
    out
}

/// How many distinct coordinates the list holds.
#[verifier::loop_isolation(false)]
fn distinct_coords(v: &Vec<(usize, usize)>) -> (count: usize)
    ensures
        count == v@.to_set().len(),
{
    broadcast use vstd::seq_lib::seq_to_set_is_finite;
    broadcast use vstd::set::group_set_axioms;

    let mut seen: Vec<(usize, usize)> = Vec::new();
    let mut i: usize = 0;
    proof {
        assert(seen@.to_set() =~= v@.take(0).to_set());
    }
    while i < v.len()
        invariant
            i <= v@.len(),
            seen@.no_duplicates(),
            seen@.to_set() == v@.take(i as int).to_set(),
        decreases v@.len() - i,
    {
        let (a, b) = v[i];
        let mut found = false;
        let mut j: usize = 0;
        while j < seen.len()
            invariant
                j <= seen@.len(),
                found == exists|k: int| 0 <= k < j && seen@[k] == (a, b),
            decreases seen@.len() - j,
        {
            let (c, d) = seen[j];
            if c == a && d == b {
                proof {
                    assert(seen@[j as int] == (a, b));
                }
                found = true;
            }
            j = j + 1;
        }
        proof {
            assert(v@.take(i + 1).drop_last() =~= v@.take(i as int));
            assert(v@.take(i + 1).last() == v@[i as int]);
            v@.take(i as int).lemma_push_to_set_commute(v@[i as int]);
            assert(v@.take(i + 1) =~= v@.take(i as int).push(v@[i as int]));
        }
        if !found {
            proof {
                assert(!seen@.contains((a, b)));
            }
            let ghost prev = seen@;
            seen.push((a, b));
            proof {
                prev.lemma_push_to_set_commute((a, b));
                assert(seen@.to_set() == prev.to_set().insert((a, b)));
                assert(seen@.no_duplicates()) by {
                    assert(forall|k: int| 0 <= k < prev.len() ==> prev[k] != (a, b));
                }
            }
        } else {
            proof {
                assert(seen@.contains((a, b)));
                assert(v@.take(i as int).to_set().insert(v@[i as int]) =~= v@.take(
                    i as int,
                ).to_set());
            }
        }
        i = i + 1;
    }
    proof {
        assert(v@.take(v@.len() as int) =~= v@);
        seen@.unique_seq_to_set();
    }
    seen.len()
}

/// The total score of every trailhead: for each cell of elevation zero,
/// the number of distinct reachable peaks.
#[verifier::loop_isolation(false)]
pub fn score_trailheads(topographical_map: &Vec<Vec<u32>>) -> (score: usize)
    requires
        map_rect(topographical_map@),
        total_score(topographical_map@, topographical_map@.len() as int) <= usize::MAX,
    ensures
        score == total_score(topographical_map@, topographical_map@.len() as int),
{
    let g = topographical_map;
    let mut score: usize = 0;
    let mut y: usize = 0;
    proof {
        lemma_total_score_mono(g@, 0, g@.len() as int);
    }
    while y < g.len()
        invariant
            y <= g@.len(),
            score == total_score(g@, y as int),
            score <= total_score(g@, g@.len() as int),
        decreases g@.len() - y,
    {
        proof {
            assert(g@[y as int]@.len() == map_width(g@));
        }
        let width = g[y].len();
        let mut x: usize = 0;
        while x < width
            invariant
                y < g@.len(),
                width == map_width(g@),
                x <= width,
                score == total_score(g@, y as int) + row_score(g@, y, x as int),
                score <= total_score(g@, g@.len() as int),
            decreases width - x,
        {
            proof {
                lemma_row_score_mono(g@, y, x + 1, width as int);
                lemma_total_score_mono(g@, y + 1, g@.len() as int);
            }
            if g[y][x] == 0 {
                let peaks = collect_peaks(g, x, y);
                let found = distinct_coords(&peaks);
                score = score + found;
            }
            x = x + 1;
        }
        y = y + 1;
    }
    score
}

/// Counts the distinct trails from (x, y) up to the peaks.
#[verifier::loop_isolation(false)]
fn count_trails(grid: &Vec<Vec<u32>>, x: usize, y: usize) -> (count: usize)
    requires
        map_rect(grid@),
        on_map(grid@, x as int, y as int),
        trails_from(grid@, x, y) <= usize::MAX,
    ensures
        count == trails_from(grid@, x, y),
    decreases 9 - grid@[y as int]@[x as int],
{
    proof {
        assert(grid@[y as int]@.len() == map_width(grid@));
    }
    let row_len = grid[y].len();
    let height = grid.len();
    let cur = grid[y][x];
    if cur >= 9 {
        if cur == 9 {
            return 1;
        } else {
            return 0;
        }
    }
    let mut count: usize = 0;
    if y > 0 && grid[y - 1][x] == cur + 1 {
        count = count + count_trails(grid, x, y - 1);
    }
    if x + 1 < row_len {
        if grid[y][x + 1] == cur + 1 {
            count = count + count_trails(grid, x + 1, y);
        }
    }
    if y + 1 < height {
        if grid[y + 1][x] == cur + 1 {
            count = count + count_trails(grid, x, y + 1);
        }
    }
    if x > 0 && grid[y][x - 1] == cur + 1 {
        count = count + count_trails(grid, x - 1, y);
    }
    count
}

/// The total rating of every trailhead: for each cell of elevation
/// zero, the number of distinct trails to a peak.
#[verifier::loop_isolation(false)]
pub fn rate_trailheads(topographical_map: &Vec<Vec<u32>>) -> (rating: usize)
    requires
        map_rect(topographical_map@),
        total_rating(topographical_map@, topographical_map@.len() as int) <= usize::MAX,
    ensures
        rating == total_rating(topographical_map@, topographical_map@.len() as int),
{
    let g = topographical_map;
    let mut rating: usize = 0;
    let mut y: usize = 0;
    proof {
        lemma_total_rating_mono(g@, 0, g@.len() as int);
    }
    while y < g.len()
        invariant
            y <= g@.len(),
            rating == total_rating(g@, y as int),
            rating <= total_rating(g@, g@.len() as int),
        decreases g@.len() - y,
    {
        proof {
            assert(g@[y as int]@.len() == map_width(g@));
        }
        let width = g[y].len();
        let mut x: usize = 0;
        while x < width
            invariant
                y < g@.len(),
                width == map_width(g@),
                x <= width,
                rating == total_rating(g@, y as int) + row_rating(g@, y, x as int),
                rating <= total_rating(g@, g@.len() as int),
            decreases width - x,
        {
            proof {
                lemma_row_rating_mono(g@, y, x + 1, width as int);
                lemma_total_rating_mono(g@, y + 1, g@.len() as int);
            }
            if g[y][x] == 0 {
                let trails = count_trails(g, x, y);
                rating = rating + trails;
            }
            x = x + 1;
        }
        y = y + 1;
    }
    rating
}

/// The elevations of one text map: one row per non-empty line, one
/// digit per character.
pub open spec fn elevation_rows(lines: Seq<Seq<char>>) -> Seq<Seq<u32>>
    decreases lines.len(),
{
    if lines.len() == 0 {
        seq![]
    } else {
        let rest = elevation_rows(lines.drop_last());
        if lines.last().len() > 0 {
            rest.push(lines.last().map_values(|c: char| (crate::text::digit_val(c) as u32)))
        } else {
            rest
        }
    }
}

/// Every character of every line is a decimal digit.
pub open spec fn elevation_text_ok(s: Seq<char>) -> bool {
    forall|i: int, j: int|
        0 <= i < crate::text::split_lines(s).len() && 0 <= j < crate::text::split_lines(s)[i].len()
            ==> crate::text::is_digit_char(#[trigger] crate::text::split_lines(s)[i][j])
}

/// Parses a map of single-digit elevations.  Returns `None` exactly
/// when some character is not a digit.
#[verifier::loop_isolation(false)]
pub fn parse_elevations(input: &str) -> (r: Option<Vec<Vec<u32>>>)
    ensures
        (r is Some) <==> elevation_text_ok(input@),
        r is Some ==> crate::text::views_of((r->0)@) == elevation_rows(
            crate::text::split_lines(input@),
        ),
{
    let v = crate::text::chars_of(input);
    let lines = crate::text::split_newlines(&v);
    let ghost ls = crate::text::split_lines(input@);
    let mut rows: Vec<Vec<u32>> = Vec::new();
    let mut i: usize = 0;
    while i < lines.len()
        invariant
            i <= lines.len(),
            crate::text::views_of(lines@) == ls,
            crate::text::views_of(rows@) == elevation_rows(ls.take(i as int)),
            forall|a: int, b: int|
                0 <= a < i && 0 <= b < ls[a].len() ==> crate::text::is_digit_char(
                    #[trigger] ls[a][b],
                ),
        decreases lines.len() - i,
    {
        proof {
            assert(ls[i as int] == lines@[i as int]@);
            assert(ls.take(i + 1).drop_last() =~= ls.take(i as int));
        }
        let line = &lines[i];
        let mut row: Vec<u32> = Vec::new();
        let mut j: usize = 0;
        while j < line.len()
            invariant
                j <= line@.len(),
                line@ == ls[i as int],
                i < ls.len(),
                row@ == ls[i as int].take(j as int).map_values(
                    |c: char| (crate::text::digit_val(c) as u32),
                ),
                forall|b: int| 0 <= b < j ==> crate::text::is_digit_char(
                    #[trigger] ls[i as int][b],
                ),
            decreases line@.len() - j,
        {
            let c = line[j];
            if !('0' <= c && c <= '9') {
                return None;
            }
            row.push((c as u32) - ('0' as u32));
            proof {
                assert(row@ =~= ls[i as int].take(j + 1).map_values(
                    |c: char| (crate::text::digit_val(c) as u32),
                ));
            }
            j = j + 1;
        }
        proof {
            assert(ls[i as int].take(ls[i as int].len() as int) =~= ls[i as int]);
        }
        if row.len() > 0 {
            let ghost prev = rows@;
            let ghost row_view = row@;
            rows.push(row);
            proof {
                assert(crate::text::views_of(rows@) =~= crate::text::views_of(prev).push(
                    row_view,
                ));
                assert(crate::text::views_of(rows@) =~= elevation_rows(ls.take(i + 1)));
            }
        } else {
            proof {
                assert(crate::text::views_of(rows@) =~= elevation_rows(ls.take(i + 1)));
            }
        }
        i = i + 1;
    }
    proof {
        assert(ls.take(ls.len() as int) =~= ls);
    }
    Some(rows)
}

} // verus!
