//! Garden plots grouped into connected regions of one plant letter.
//! Fencing a region costs its area times its perimeter, or — with the
//! bulk discount — its area times its number of sides, counted as
//! corners.
//!
//! Region discovery is a depth-first flood fill; its specification
//! mirrors the fill's stack walk step for step, with a fuel budget that
//! the fill is proved never to exhaust.

use vstd::prelude::*;
use vstd::relations::injective_on;
use vstd::set_lib::set_int_range;
use vstd::set_lib::lemma_int_range;
use vstd::set_lib::lemma_map_size;
use vstd::set_lib::lemma_len_subset;

verus! {

/// One plot, as (column, row).
pub open spec fn plot_at(g: Seq<Seq<char>>, c: (usize, usize)) -> char {
    g[c.1 as int][c.0 as int]
}

/// The plot lies on the grid.
pub open spec fn on_plot(g: Seq<Seq<char>>, c: (usize, usize)) -> bool {
    (c.1 as int) < g.len() && (c.0 as int) < g[c.1 as int].len()
}

/// Some already-found region holds the plot.
pub open spec fn in_any(regions: Seq<Seq<(usize, usize)>>, c: (usize, usize)) -> bool {
    exists|i: int| 0 <= i < regions.len() && (#[trigger] regions[i]).contains(c)
}

/// How many plots the first `y` rows hold.
pub open spec fn plots_before(g: Seq<Seq<char>>, y: int) -> int
    decreases y,
{
    if y <= 0 {
        0
    } else {
        plots_before(g, y - 1) + g[y - 1].len()
    }
}

/// How many plots the grid holds.
pub open spec fn total_plots(g: Seq<Seq<char>>) -> int {
    plots_before(g, g.len() as int)
}

proof fn lemma_plots_before_mono(g: Seq<Seq<char>>, a: int, b: int)
    requires
        0 <= a <= b <= g.len(),
    ensures
        plots_before(g, a) <= plots_before(g, b),
    decreases b - a,
{
    if a < b {
        lemma_plots_before_mono(g, a, b - 1);
    }
}

/// A duplicate-free list of on-grid plots is no longer than the grid.
proof fn lemma_region_card(g: Seq<Seq<char>>, region: Seq<(usize, usize)>)
    requires
        region.no_duplicates(),
        forall|i: int| 0 <= i < region.len() ==> on_plot(g, #[trigger] region[i]),
    ensures
        region.len() <= total_plots(g),
{
    broadcast use vstd::seq_lib::seq_to_set_is_finite;
    broadcast use vstd::set::group_set_axioms;

    let f = |c: (usize, usize)| plots_before(g, c.1 as int) + c.0;
    let cells = region.to_set();
    region.unique_seq_to_set();
    assert forall|c: (usize, usize)| #[trigger] cells.contains(c) implies 0 <= f(c) < total_plots(
        g,
    ) by {
        assert(region.contains(c));
        let idx = choose|i: int| 0 <= i < region.len() && region[i] == c;
        assert(on_plot(g, region[idx]));
        lemma_plots_before_mono(g, 0, c.1 as int);
        lemma_plots_before_mono(g, c.1 as int + 1, g.len() as int);
        assert(plots_before(g, c.1 as int + 1) == plots_before(g, c.1 as int) + g[c.1 as int].len());
    }
    assert(injective_on(f, cells)) by {
        assert forall|a: (usize, usize), b: (usize, usize)|
            #![trigger f(a), f(b)]
            cells.contains(a) && cells.contains(b) && f(a) == f(b) implies a == b by {
            assert(region.contains(a) && region.contains(b));
            let ia = choose|i: int| 0 <= i < region.len() && region[i] == a;
            let ib = choose|i: int| 0 <= i < region.len() && region[i] == b;
            assert(on_plot(g, region[ia]));
            assert(on_plot(g, region[ib]));
            if a.1 != b.1 {
                if (a.1 as int) < b.1 as int {
                    lemma_plots_before_mono(g, a.1 as int + 1, b.1 as int);
                    assert(plots_before(g, a.1 as int + 1) == plots_before(g, a.1 as int) + g[a.1 as int].len());
                } else {
                    lemma_plots_before_mono(g, b.1 as int + 1, a.1 as int);
                    assert(plots_before(g, b.1 as int + 1) == plots_before(g, b.1 as int) + g[b.1 as int].len());
                }
            }
        }
    }
    let image = cells.map(f);
    lemma_map_size(cells, image, f);
    lemma_plots_before_mono(g, 0, g.len() as int);
    assert(image.subset_of(set_int_range(0, total_plots(g))));
    lemma_int_range(0, total_plots(g));
    lemma_len_subset(image, set_int_range(0, total_plots(g)));
}

/// The column to the left, wrapping below zero as the scan does.
pub open spec fn left_of(x: usize) -> usize {
    if x == 0 {
        usize::MAX
    } else {
        (x - 1) as usize
    }
}

/// The flood fill, one stack step at a time: pop a candidate; skip it
/// if it is off the grid, wrapped, already in this region, claimed by
/// an earlier region, or of another letter; otherwise take it and push
/// its four neighbours.
pub open spec fn flood(
    g: Seq<Seq<char>>,
    prior: Seq<Seq<(usize, usize)>>,
    letter: char,
    region: Seq<(usize, usize)>,
    stack: Seq<(usize, usize)>,
    fuel: nat,
) -> Seq<(usize, usize)>
    decreases fuel,
{
    if fuel == 0 || stack.len() == 0 {
        region
    } else {
        let c = stack.last();
        let rest = stack.drop_last();
        let (x, y) = c;
        if x == usize::MAX || y == usize::MAX || !on_plot(g, c) || region.contains(c) {
            flood(g, prior, letter, region, rest, (fuel - 1) as nat)
        } else if !in_any(prior, c) && plot_at(g, c) == letter {
            flood(
                g,
                prior,
                letter,
                region.push(c),
                rest.push(((x + 1) as usize, y)).push((left_of(x), y)).push(
                    (x, (y + 1) as usize),
                ).push((x, left_of(y))),
                (fuel - 1) as nat,
            )
        } else {
            flood(g, prior, letter, region, rest, (fuel - 1) as nat)
        }
    }
}

/// Enough fuel for any flood fill of the grid.
pub open spec fn flood_fuel(g: Seq<Seq<char>>) -> nat {
    (4 * total_plots(g) + 5) as nat
}

/// The regions discovered up to the cell (x, y), scanning row-major.
pub open spec fn regions_step(
    g: Seq<Seq<char>>,
    acc: Seq<Seq<(usize, usize)>>,
    y: usize,
    x: usize,
) -> Seq<Seq<(usize, usize)>>
    decreases g.len() - y, g[y as int].len() - x,
{
    if y as int >= g.len() {
        acc
    } else if x as int >= g[y as int].len() || x == usize::MAX || y == usize::MAX {
        if y == usize::MAX {
            acc
        } else {
            regions_step(g, acc, (y + 1) as usize, 0)
        }
    } else {
        let acc2 = if !in_any(acc, (x, y)) {
            let region = flood(
                g,
                acc,
                plot_at(g, (x, y)),
                Seq::empty(),
                seq![(x, y)],
                flood_fuel(g),
            );
            if region.len() > 0 {
                acc.push(region)
            } else {
                acc
            }
        } else {
            acc
        };
        regions_step(g, acc2, y, (x + 1) as usize)
    }
}

/// All regions of the grid, in discovery order.
pub open spec fn regions_of(g: Seq<Seq<char>>) -> Seq<Seq<(usize, usize)>> {
    regions_step(g, Seq::empty(), 0, 0)
}

/// Whether the plot is claimed by any collected region.
#[verifier::loop_isolation(false)]
fn claimed(regions: &Vec<Vec<(usize, usize)>>, x: usize, y: usize) -> (b: bool)
    ensures
        b == in_any(crate::text::views_of(regions@), (x, y)),
{
    let ghost views = crate::text::views_of(regions@);
    let mut i: usize = 0;
    while i < regions.len()
        invariant
            i <= regions@.len(),
            forall|j: int| 0 <= j < i ==> !(#[trigger] views[j]).contains((x, y)),
        decreases regions@.len() - i,
    {
        proof {
            assert(views[i as int] == regions@[i as int]@);
        }
        let region = &regions[i];
        let mut j: usize = 0;
        while j < region.len()
            invariant
                j <= region@.len(),
                region@ == views[i as int],
                i < regions@.len(),
                forall|k: int| 0 <= k < j ==> region@[k] != (x, y),
            decreases region@.len() - j,
        {
            let (a, b) = region[j];
            if a == x && b == y {
                proof {
                    assert(views[i as int].contains((x, y))) by {
                        assert(views[i as int][j as int] == (x, y));
                    }
                }
                return true;
            }
            j = j + 1;
        }
        i = i + 1;
    }
    false
}

/// Whether the region already holds the plot.
fn region_holds(region: &Vec<(usize, usize)>, x: usize, y: usize) -> (b: bool)
    ensures
        b == region@.contains((x, y)),
{
    let mut j: usize = 0;
    while j < region.len()
        invariant
            j <= region@.len(),
            forall|k: int| 0 <= k < j ==> region@[k] != (x, y),
        decreases region@.len() - j,
    {
        let (a, b) = region[j];
        if a == x && b == y {
            proof {
                assert(region@[j as int] == (x, y));
            }
            return true;
        }
        j = j + 1;
    }
    false
}

/// Splits the grid into its connected same-letter regions by repeated
/// flood fills, scanning the plots row-major.
#[verifier::loop_isolation(false)]
pub fn get_regions(input: &Vec<Vec<char>>) -> (regions: Vec<Vec<(usize, usize)>>)
    ensures
        crate::text::views_of(regions@) == regions_of(crate::text::views_of(input@)),
{
    let ghost g = crate::text::views_of(input@);
    let mut regions: Vec<Vec<(usize, usize)>> = Vec::new();
    let mut y: usize = 0;
    proof {
        assert(crate::text::views_of(regions@) =~= Seq::<Seq<(usize, usize)>>::empty());
    }
    while y < input.len()
        invariant
            y <= input@.len(),
            g == crate::text::views_of(input@),
            regions_of(g) == regions_step(g, crate::text::views_of(regions@), y, 0),
        decreases input@.len() - y,
    {
        let mut x: usize = 0;
        while x < input[y].len()
            invariant
                y < input@.len(),
                x <= input@[y as int]@.len(),
                g == crate::text::views_of(input@),
                regions_of(g) == regions_step(g, crate::text::views_of(regions@), y, x),
            decreases input@[y as int]@.len() - x,
        {
            proof {
                assert(g[y as int] == input@[y as int]@);
            }
            if !claimed(&regions, x, y) {
                let region_id = input[y][x];
                let ghost prior = crate::text::views_of(regions@);
                let mut region: Vec<(usize, usize)> = Vec::new();
                let mut stack: Vec<(usize, usize)> = Vec::new();
                stack.push((x, y));
                let ghost mut fuel: nat = flood_fuel(g);
                proof {
                    assert(stack@ =~= seq![(x, y)]);
                    assert(region@ =~= Seq::<(usize, usize)>::empty());
                    lemma_region_card(g, region@);
                }
                while stack.len() > 0
                    invariant
                        g == crate::text::views_of(input@),
                        prior == crate::text::views_of(regions@),
                        region@.no_duplicates(),
                        forall|i: int| 0 <= i < region@.len() ==> on_plot(
                            g,
                            #[trigger] region@[i],
                        ),
                        fuel >= stack@.len() + 4 * (total_plots(g) + 1 - region@.len()),
                        flood(g, prior, region_id, Seq::empty(), seq![(x, y)], flood_fuel(g))
                            == flood(g, prior, region_id, region@, stack@, fuel),
                    decreases fuel,
                {
                    proof {
                        lemma_region_card(g, region@);
                        assert(fuel >= 1);
                    }
                    let (cx, cy) = stack[stack.len() - 1];
                    let ghost stack_prev = stack@;
                    let _popped = stack.pop();
                    proof {
                        assert(stack@ =~= stack_prev.drop_last());
                        assert(stack_prev.last() == (cx, cy));
                    }
                    let off_grid = cx == usize::MAX || cy == usize::MAX || cy >= input.len()
                        || cx >= input[cy].len();
                    proof {
                        if !off_grid {
                            assert(g[cy as int] == input@[cy as int]@);
                            assert(on_plot(g, (cx, cy)));
                        } else {
                            if cx != usize::MAX && cy != usize::MAX && (cy as int) < g.len() {
                                assert(g[cy as int] == input@[cy as int]@);
                            }
                        }
                    }
                    if !off_grid && !region_holds(&region, cx, cy) {
                        let same = !claimed(&regions, cx, cy) && input[cy][cx] == region_id;
                        if same {
                            let ghost region_prev = region@;
                            let ghost stack_mid = stack@;
                            region.push((cx, cy));
                            stack.push((cx + 1, cy));
                            let leftx = if cx == 0 {
                                usize::MAX
                            } else {
                                cx - 1
                            };
                            stack.push((leftx, cy));
                            stack.push((cx, cy + 1));
                            let lefty = if cy == 0 {
                                usize::MAX
                            } else {
                                cy - 1
                            };
                            stack.push((cx, lefty));
                            proof {
                                assert(!region_prev.contains((cx, cy)));
                                assert(region@ == region_prev.push((cx, cy)));
                                assert(region@.no_duplicates()) by {
                                    assert(forall|k: int|
                                        0 <= k < region_prev.len() ==> region_prev[k] != (
                                        cx,
                                        cy,
                                        ));
                                }
                                assert(leftx == left_of(cx));
                                assert(lefty == left_of(cy));
                                assert(stack@ == stack_mid.push(((cx + 1) as usize, cy)).push(
                                    (left_of(cx), cy),
                                ).push((cx, (cy + 1) as usize)).push((cx, left_of(cy))));
                                fuel = (fuel - 1) as nat;
                            }
                        } else {
                            proof {
                                fuel = (fuel - 1) as nat;
                            }
                        }
                    } else {
                        proof {
                            fuel = (fuel - 1) as nat;
                        }
                    }
                }
                proof {
                    assert(flood(g, prior, region_id, region@, stack@, fuel) == region@);
                }
                if region.len() > 0 {
                    let ghost regions_prev = regions@;
                    let ghost region_view = region@;
                    regions.push(region);
                    proof {
                        assert(crate::text::views_of(regions@) =~= crate::text::views_of(
                            regions_prev,
                        ).push(region_view));
                    }
                }
            }
            x = x + 1;
        }
        y = y + 1;
    }
    proof {
        assert(regions_step(g, crate::text::views_of(regions@), y, 0) == crate::text::views_of(
            regions@,
        ));
    }
    regions
}

/// How many of the four sides of one plot face out of the region.
pub open spec fn plot_perimeter(region: Seq<(usize, usize)>, c: (usize, usize)) -> int {
    let (x, y) = c;
    (if region.contains(((x + 1) as usize, y)) {
        0int
    } else {
        1int
    }) + (if region.contains((left_of(x), y)) {
        0int
    } else {
        1int
    }) + (if region.contains((x, (y + 1) as usize)) {
        0int
    } else {
        1int
    }) + (if region.contains((x, left_of(y))) {
        0int
    } else {
        1int
    })
}

/// The summed perimeter of the first `n` plots of the region.
pub open spec fn perimeter_upto(region: Seq<(usize, usize)>, n: int) -> int
    decreases n,
{
    if n <= 0 {
        0
    } else {
        perimeter_upto(region, n - 1) + plot_perimeter(region, region[n - 1])
    }
}

proof fn lemma_perimeter_bounds(region: Seq<(usize, usize)>, m: int, n: int)
    requires
        0 <= m <= n,
    ensures
        0 <= perimeter_upto(region, m),
        perimeter_upto(region, m) <= perimeter_upto(region, n) <= 4 * n,
    decreases n,
{
    if n > 0 {
        if m == n {
            lemma_perimeter_bounds(region, n - 1, n - 1);
        } else {
            lemma_perimeter_bounds(region, m, n - 1);
        }
    }
}

/// How many of the four corners of one plot are corners of the region:
/// an outer corner has both flanking neighbours outside, an inner
/// corner has both inside but the diagonal outside.
pub open spec fn plot_corners(region: Seq<(usize, usize)>, c: (usize, usize)) -> int {
    let (x, y) = c;
    corner_count(region, (left_of(x), y), (x, left_of(y)), (left_of(x), left_of(y)))
        + corner_count(region, (left_of(x), y), (x, (y + 1) as usize), (left_of(x), (y + 1) as usize))
        + corner_count(region, ((x + 1) as usize, y), (x, left_of(y)), ((x + 1) as usize, left_of(y)))
        + corner_count(
        region,
        ((x + 1) as usize, y),
        (x, (y + 1) as usize),
        ((x + 1) as usize, (y + 1) as usize),
    )
}

/// One corner test: both flanks out, or both flanks in with the
/// diagonal out.
pub open spec fn corner_count(
    region: Seq<(usize, usize)>,
    side1: (usize, usize),
    side2: (usize, usize),
    diagonal: (usize, usize),
) -> int {
    if (!region.contains(side1) && !region.contains(side2)) || (region.contains(side1)
        && region.contains(side2) && !region.contains(diagonal)) {
        1
    } else {
        0
    }
}

/// The summed corner count of the first `n` plots of the region.
pub open spec fn corners_upto(region: Seq<(usize, usize)>, n: int) -> int
    decreases n,
{
    if n <= 0 {
        0
    } else {
        corners_upto(region, n - 1) + plot_corners(region, region[n - 1])
    }
}

proof fn lemma_corners_bounds(region: Seq<(usize, usize)>, m: int, n: int)
    requires
        0 <= m <= n,
    ensures
        0 <= corners_upto(region, m),
        corners_upto(region, m) <= corners_upto(region, n) <= 4 * n,
    decreases n,
{
    if n > 0 {
        if m == n {
            lemma_corners_bounds(region, n - 1, n - 1);
        } else {
            lemma_corners_bounds(region, m, n - 1);
        }
    }
}

/// The plain fencing cost of a region: its area times its perimeter.
#[verifier::loop_isolation(false)]
pub fn get_cost_to_fence(region: &Vec<(usize, usize)>) -> (cost: usize)
    requires
        forall|i: int|
            0 <= i < region@.len() ==> (#[trigger] region@[i]).0 < usize::MAX && region@[i].1
                < usize::MAX,
        region@.len() * perimeter_upto(region@, region@.len() as int) <= usize::MAX,
    ensures
        cost == region@.len() * perimeter_upto(region@, region@.len() as int),
{
    let area = region.len();
    let mut perimeter: usize = 0;
    let mut i: usize = 0;
    proof {
        lemma_perimeter_bounds(region@, 0, region@.len() as int);
        if region@.len() >= 1 {
            let total = perimeter_upto(region@, region@.len() as int);
            assert(total <= region@.len() * total) by (nonlinear_arith)
                requires
                    region@.len() >= 1,
                    total >= 0,
            ;
        }
    }
    while i < region.len()
        invariant
            i <= region@.len(),
            perimeter == perimeter_upto(region@, i as int),
            perimeter <= perimeter_upto(region@, region@.len() as int),
            perimeter_upto(region@, region@.len() as int) <= usize::MAX,
        decreases region@.len() - i,
    {
        proof {
            lemma_perimeter_bounds(region@, i + 1, region@.len() as int);
        }
        let (x, y) = region[i];
        let mut sides: usize = 0;
        if !region_holds(region, x + 1, y) {
            sides = sides + 1;
        }
        let lx = if x == 0 {
            usize::MAX
        } else {
            x - 1
        };
        if !region_holds(region, lx, y) {
            sides = sides + 1;
        }
        if !region_holds(region, x, y + 1) {
            sides = sides + 1;
        }
        let ly = if y == 0 {
            usize::MAX
        } else {
            y - 1
        };
        if !region_holds(region, x, ly) {
            sides = sides + 1;
        }
        proof {
            assert(sides == plot_perimeter(region@, region@[i as int]));
        }
        perimeter = perimeter + sides;
        i = i + 1;
    }
    area * perimeter
}

/// The discounted fencing cost of a region: its area times its number
/// of sides, counted one corner at a time.
#[verifier::loop_isolation(false)]
pub fn get_discounted_cost_to_fence(region: &Vec<(usize, usize)>) -> (cost: usize)
    requires
        forall|i: int|
            0 <= i < region@.len() ==> (#[trigger] region@[i]).0 < usize::MAX && region@[i].1
                < usize::MAX,
        region@.len() * corners_upto(region@, region@.len() as int) <= usize::MAX,
    ensures
        cost == region@.len() * corners_upto(region@, region@.len() as int),
{
    let area = region.len();
    let mut sides: usize = 0;
    let mut i: usize = 0;
    proof {
        lemma_corners_bounds(region@, 0, region@.len() as int);
        if region@.len() >= 1 {
            let total = corners_upto(region@, region@.len() as int);
            assert(total <= region@.len() * total) by (nonlinear_arith)
                requires
                    region@.len() >= 1,
                    total >= 0,
            ;
        }
    }
    while i < region.len()
        invariant
            i <= region@.len(),
            sides == corners_upto(region@, i as int),
            sides <= corners_upto(region@, region@.len() as int),
            corners_upto(region@, region@.len() as int) <= usize::MAX,
        decreases region@.len() - i,
    {
        proof {
            lemma_corners_bounds(region@, i + 1, region@.len() as int);
        }
        let (x, y) = region[i];
        let lx = if x == 0 {
            usize::MAX
        } else {
            x - 1
        };
        let ly = if y == 0 {
            usize::MAX
        } else {
            y - 1
        };
        let mut corners: usize = 0;
        if corner_here(region, lx, y, x, ly, lx, ly) {
            corners = corners + 1;
        }
        if corner_here(region, lx, y, x, y + 1, lx, y + 1) {
            corners = corners + 1;
        }
        if corner_here(region, x + 1, y, x, ly, x + 1, ly) {
            corners = corners + 1;
        }
        if corner_here(region, x + 1, y, x, y + 1, x + 1, y + 1) {
            corners = corners + 1;
        }
        proof {
            assert(lx == left_of(x));
            assert(ly == left_of(y));
            assert(corners == plot_corners(region@, region@[i as int]));
        }
        sides = sides + corners;
        i = i + 1;
    }
    area * sides
}

/// Evaluates one corner test of the discounted cost.
fn corner_here(
    region: &Vec<(usize, usize)>,
    s1x: usize,
    s1y: usize,
    s2x: usize,
    s2y: usize,
    dx: usize,
    dy: usize,
) -> (b: bool)
    ensures
        b == (corner_count(region@, (s1x, s1y), (s2x, s2y), (dx, dy)) == 1),
{
    let side1 = region_holds(region, s1x, s1y);
    let side2 = region_holds(region, s2x, s2y);
    let diagonal = region_holds(region, dx, dy);
    (!side1 && !side2) || (side1 && side2 && !diagonal)
}

} // verus!
