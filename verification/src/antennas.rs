//! Antennas on a bounded grid, grouped by frequency.  Every pair of
//! same-frequency antennas projects antinodes along its own line: one
//! beyond each antenna, or — with resonant harmonics — a grid point at
//! every pair-distance multiple.  Only antinodes on the grid count.

use vstd::prelude::*;

verus! {

/// A cell of the grid.
#[derive(PartialEq, Eq, Clone, Copy, Hash, Debug, Structural)]
pub struct Position {
    pub x: i32,
    pub y: i32,
}

/// (x, y) lies inside the `w` by `h` grid.
pub open spec fn on_grid(w: int, h: int, x: int, y: int) -> bool {
    0 <= x < w && 0 <= y < h
}

/// The in-bounds plain antinodes of an antenna pair: the point beyond
/// each antenna at the pair's distance, when it lies on the grid.
pub open spec fn pair_antinodes(w: int, h: int, a1: Position, a2: Position) -> Seq<(i32, i32)> {
    let dx = a1.x - a2.x;
    let dy = a1.y - a2.y;
    (if on_grid(w, h, a1.x + dx, a1.y + dy) {
        seq![(((a1.x + dx) as i32, (a1.y + dy) as i32))]
    } else {
        seq![]
    }) + (if on_grid(w, h, a2.x - dx, a2.y - dy) {
        seq![(((a2.x - dx) as i32, (a2.y - dy) as i32))]
    } else {
        seq![]
    })
}

/// More steps than any in-bounds walk along a non-zero delta can take.
pub open spec fn resonant_fuel() -> nat {
    0x2_0000_0002
}

/// The in-bounds resonant antinodes from multiple `m` on: both
/// projections at every multiple of the delta, scanned outward until
/// both sides have left the grid.
pub open spec fn resonant_from(
    w: int,
    h: int,
    a1: Position,
    a2: Position,
    m: int,
    fuel: nat,
) -> Seq<(i32, i32)>
    decreases fuel,
{
    if fuel == 0 {
        seq![]
    } else {
        let dx = a1.x - a2.x;
        let dy = a1.y - a2.y;
        let p1x = a1.x + m * dx;
        let p1y = a1.y + m * dy;
        let p2x = a2.x - m * dx;
        let p2y = a2.y - m * dy;
        let in1 = on_grid(w, h, p1x, p1y);
        let in2 = on_grid(w, h, p2x, p2y);
        if !in1 && !in2 {
            seq![]
        } else {
            (if in1 {
                seq![((p1x as i32, p1y as i32))]
            } else {
                seq![]
            }) + (if in2 {
                seq![((p2x as i32, p2y as i32))]
            } else {
                seq![]
            }) + resonant_from(w, h, a1, a2, m + 1, (fuel - 1) as nat)
        }
    }
}

/// The in-bounds resonant antinodes of one pair.
pub open spec fn pair_resonant(w: int, h: int, a1: Position, a2: Position) -> Seq<(i32, i32)> {
    resonant_from(w, h, a1, a2, 0, resonant_fuel())
}

/// An in-bounds projection bounds its multiple: a non-zero delta walks
/// off a bounded grid within the fuel budget.
proof fn lemma_multiple_bounded(w: int, h: int, a1: Position, a2: Position, m: int)
    requires
        0 <= w <= i32::MAX,
        0 <= h <= i32::MAX,
        a1 != a2,
        m >= 0,
        on_grid(w, h, a1.x + m * (a1.x - a2.x), a1.y + m * (a1.y - a2.y)) || on_grid(
            w,
            h,
            a2.x - m * (a1.x - a2.x),
            a2.y - m * (a1.y - a2.y),
        ),
    ensures
        m < 0x2_0000_0000,
{
    let dx = a1.x - a2.x;
    let dy = a1.y - a2.y;
    if m >= 0x2_0000_0000 {
        if dx != 0 {
            assert(m * dx >= m || m * dx <= -m) by (nonlinear_arith)
                requires
                    m >= 0,
                    dx != 0,
            ;
        } else {
            assert(dy != 0);
            assert(m * dy >= m || m * dy <= -m) by (nonlinear_arith)
                requires
                    m >= 0,
                    dy != 0,
            ;
        }
    }
}

/// The antinodes of one antenna paired with each earlier antenna of its
/// group, both directions included.
pub open spec fn partner_antinodes(
    earlier: Seq<Position>,
    last: Position,
    resonant: bool,
    w: int,
    h: int,
) -> Seq<(i32, i32)>
    decreases earlier.len(),
{
    if earlier.len() == 0 {
        seq![]
    } else {
        partner_antinodes(earlier.drop_last(), last, resonant, w, h) + (if resonant {
            pair_resonant(w, h, earlier.last(), last)
        } else {
            pair_antinodes(w, h, earlier.last(), last)
        })
    }
}

/// The antinodes of every unordered pair of one frequency group.
pub open spec fn group_antinodes(positions: Seq<Position>, resonant: bool, w: int, h: int) -> Seq<
    (i32, i32),
>
    decreases positions.len(),
{
    if positions.len() == 0 {
        seq![]
    } else {
        group_antinodes(positions.drop_last(), resonant, w, h) + partner_antinodes(
            positions.drop_last(),
            positions.last(),
            resonant,
            w,
            h,
        )
    }
}

/// The antinodes of every frequency group.
pub open spec fn all_antinodes(
    groups: Seq<(char, Seq<Position>)>,
    resonant: bool,
    w: int,
    h: int,
) -> Seq<(i32, i32)>
    decreases groups.len(),
{
    if groups.len() == 0 {
        seq![]
    } else {
        all_antinodes(groups.drop_last(), resonant, w, h) + group_antinodes(
            groups.last().1,
            resonant,
            w,
            h,
        )
    }
}

/// The antenna map: grid bounds and the antennas grouped by frequency.
/// (Named for its role; a bare `Map` would collide with the verifier's
/// mathematical maps.)
pub struct AntennaMap {
    width: i32,
    height: i32,
    groups: Vec<(char, Vec<Position>)>,
}

/// The full abstract contents of an [`AntennaMap`].
pub ghost struct MapView {
    pub width: int,
    pub height: int,
    pub groups: Seq<(char, Seq<Position>)>,
}

impl View for AntennaMap {
    type V = MapView;

    closed spec fn view(&self) -> MapView {
        MapView {
            width: self.width as int,
            height: self.height as int,
            groups: self.groups@.map_values(|g: (char, Vec<Position>)| (g.0, g.1@)),
        }
    }
}

impl MapView {
    /// Frequencies are distinct and no antenna is listed twice within
    /// its frequency.
    pub open spec fn wf(self) -> bool {
        &&& 0 <= self.width
        &&& 0 <= self.height
        &&& forall|i: int, j: int|
            0 <= i < j < self.groups.len() ==> (#[trigger] self.groups[i]).0 != (
            #[trigger] self.groups[j]).0
        &&& forall|i: int|
            0 <= i < self.groups.len() ==> (#[trigger] self.groups[i]).1.no_duplicates()
    }

    /// How many distinct in-bounds antinodes all antenna pairs project.
    pub open spec fn antinode_count(self, resonant: bool) -> nat {
        all_antinodes(self.groups, resonant, self.width, self.height).to_set().len()
    }
}

/// What recording one antenna does to the grouped list: push onto its
/// frequency's group if the antenna is new there, create the group if
/// the frequency is new, change nothing otherwise.
pub open spec fn upsert_antenna(
    groups: Seq<(char, Seq<Position>)>,
    frequency: char,
    position: Position,
) -> Seq<(char, Seq<Position>)> {
    if exists|i: int| 0 <= i < groups.len() && (#[trigger] groups[i]).0 == frequency {
        let i = choose|i: int| 0 <= i < groups.len() && (#[trigger] groups[i]).0 == frequency;
        if groups[i].1.contains(position) {
            groups
        } else {
            groups.update(i, (frequency, groups[i].1.push(position)))
        }
    } else {
        groups.push((frequency, seq![position]))
    }
}

/// With distinct frequencies, the matched group is the found one.
proof fn lemma_upsert_found(
    groups: Seq<(char, Seq<Position>)>,
    frequency: char,
    position: Position,
    i: int,
)
    requires
        0 <= i < groups.len(),
        groups[i].0 == frequency,
        forall|a: int, b: int|
            0 <= a < b < groups.len() ==> (#[trigger] groups[a]).0 != (#[trigger] groups[b]).0,
    ensures
        upsert_antenna(groups, frequency, position) == (if groups[i].1.contains(position) {
            groups
        } else {
            groups.update(i, (frequency, groups[i].1.push(position)))
        }),
{
    assert(exists|k: int| 0 <= k < groups.len() && (#[trigger] groups[k]).0 == frequency);
    let k = choose|k: int| 0 <= k < groups.len() && (#[trigger] groups[k]).0 == frequency;
    if k < i {
        assert(groups[k].0 != groups[i].0);
    }
    if i < k {
        assert(groups[i].0 != groups[k].0);
    }
}

/// The two projections of an antenna pair, one beyond each antenna at
/// the pair's distance, regardless of the grid bounds.
pub fn get_antinodes(antenna1: &Position, antenna2: &Position) -> (r: [Position; 2])
    requires
        i32::MIN <= 2 * antenna1.x - antenna2.x <= i32::MAX,
        i32::MIN <= 2 * antenna1.y - antenna2.y <= i32::MAX,
        i32::MIN <= 2 * antenna2.x - antenna1.x <= i32::MAX,
        i32::MIN <= 2 * antenna2.y - antenna1.y <= i32::MAX,
    ensures
        r[0].x == 2 * antenna1.x - antenna2.x,
        r[0].y == 2 * antenna1.y - antenna2.y,
        r[1].x == 2 * antenna2.x - antenna1.x,
        r[1].y == 2 * antenna2.y - antenna1.y,
{
    let dx: i64 = antenna1.x as i64 - antenna2.x as i64;
    let dy: i64 = antenna1.y as i64 - antenna2.y as i64;
    [
        Position {
            x: (antenna1.x as i64 + dx) as i32,
            y: (antenna1.y as i64 + dy) as i32,
        },
        Position {
            x: (antenna2.x as i64 - dx) as i32,
            y: (antenna2.y as i64 - dy) as i32,
        },
    ]
}

/// Whether the group already lists the antenna.
fn position_listed(v: &Vec<Position>, p: Position) -> (b: bool)
    ensures
        b == v@.contains(p),
{
    let mut i: usize = 0;
    while i < v.len()
        invariant
            i <= v@.len(),
            forall|j: int| 0 <= j < i ==> v@[j] != p,
        decreases v@.len() - i,
    {
        if v[i] == p {
            return true;
        }
        i = i + 1;
    }
    false
}

impl AntennaMap {
    /// An empty antenna map with the given bounds.
    pub fn new(width: i32, height: i32) -> (m: AntennaMap)
        requires
            0 <= width,
            0 <= height,
        ensures
            m@ == (MapView { width: width as int, height: height as int, groups: Seq::empty() }),
            m@.wf(),
    {
        let m = AntennaMap { width, height, groups: Vec::new() };
        proof {
            assert(m@.groups =~= Seq::<(char, Seq<Position>)>::empty());
        }
        m
    }

    /// Whether a cell lies inside the map's bounds.
    pub fn in_bounds(&self, position: &Position) -> (b: bool)
        ensures
            b == on_grid(self@.width, self@.height, position.x as int, position.y as int),
    {
        0 <= position.x && position.x < self.width && 0 <= position.y && position.y < self.height
    }

    /// Records one antenna under its frequency; an antenna already
    /// listed for that frequency is not recorded twice.
    #[verifier::loop_isolation(false)]
    pub fn insert_antenna(&mut self, frequency: char, position: Position)
        requires
            old(self)@.wf(),
        ensures
            final(self)@.wf(),
            final(self)@.width == old(self)@.width,
            final(self)@.height == old(self)@.height,
            final(self)@.groups == upsert_antenna(old(self)@.groups, frequency, position),
    {
        let ghost groups0 = self@.groups;
        let mut i: usize = 0;
        while i < self.groups.len()
            invariant
                i <= self.groups@.len(),
                self@ == old(self)@,
                self@.groups == groups0,
                forall|j: int| 0 <= j < i ==> (#[trigger] groups0[j]).0 != frequency,
            decreases self.groups@.len() - i,
        {
            let hit = self.groups[i].0 == frequency;
            if hit {
                proof {
                    assert(groups0[i as int].0 == frequency);
                }
                let listed = position_listed(&self.groups[i].1, position);
                if !listed {
                    let ghost group_prev = self@.groups[i as int].1;
                    self.groups[i].1.push(position);
                    proof {
                        lemma_upsert_found(groups0, frequency, position, i as int);
                        assert(self@.groups =~= groups0.update(
                            i as int,
                            (frequency, group_prev.push(position)),
                        ));
                        assert forall|k: int|
                            0 <= k < self@.groups.len() implies (
                        #[trigger] self@.groups[k]).1.no_duplicates() by {
                            if k != i {
                                assert(self@.groups[k] == groups0[k]);
                            }
                        }
                        assert forall|a: int, b: int|
                            0 <= a < b < self@.groups.len() implies (
                        #[trigger] self@.groups[a]).0 != (#[trigger] self@.groups[b]).0 by {
                            assert(self@.groups[a].0 == groups0[a].0);
                            assert(self@.groups[b].0 == groups0[b].0);
                        }
                    }
                } else {
                    proof {
                        lemma_upsert_found(groups0, frequency, position, i as int);
                        assert(self@.groups =~= groups0);
                    }
                }
                return ;
            }
            i = i + 1;
        }
        let mut fresh: Vec<Position> = Vec::new();
        fresh.push(position);
        self.groups.push((frequency, fresh));
        proof {
            assert(self@.groups =~= groups0.push((frequency, seq![position])));
            assert forall|k: int|
                0 <= k < self@.groups.len() implies (#[trigger] self@.groups[k]).1.no_duplicates() by {
                if k < groups0.len() {
                    assert(self@.groups[k] == groups0[k]);
                } else {
                    assert(self@.groups[k].1 =~= seq![position]);
                }
            }
            assert forall|a: int, b: int|
                0 <= a < b < self@.groups.len() implies (#[trigger] self@.groups[a]).0 != (
            #[trigger] self@.groups[b]).0 by {
                if b < groups0.len() {
                    assert(self@.groups[a].0 == groups0[a].0);
                    assert(self@.groups[b].0 == groups0[b].0);
                } else {
                    assert(self@.groups[a].0 == groups0[a].0);
                    assert(groups0[a].0 != frequency);
                }
            }
        }
    }

    /// The in-bounds resonant antinodes of one antenna pair: both
    /// projections at every multiple of the pair's distance, scanned
    /// outward until both sides have left the grid.
    #[verifier::loop_isolation(false)]
    pub fn get_antinodes_with_resonant_harmonics(
        &self,
        antenna1: &Position,
        antenna2: &Position,
    ) -> (r: Vec<Position>)
        requires
            self@.wf(),
            *antenna1 != *antenna2,
        ensures
            r@.map_values(|p: Position| ((p.x, p.y))) == pair_resonant(
                self@.width,
                self@.height,
                *antenna1,
                *antenna2,
            ),
    {
        let mut pairs: Vec<(i32, i32)> = Vec::new();
        push_pair(&mut pairs, *antenna1, *antenna2, true, self);
        let mut antinodes: Vec<Position> = Vec::new();
        let mut i: usize = 0;
        proof {
            assert(pairs@ =~= pair_resonant(self@.width, self@.height, *antenna1, *antenna2));
        }
        while i < pairs.len()
            invariant
                i <= pairs@.len(),
                antinodes@.map_values(|p: Position| ((p.x, p.y))) == pairs@.take(i as int),
            decreases pairs@.len() - i,
        {
            let (x, y) = pairs[i];
            antinodes.push(Position { x, y });
            proof {
                assert(antinodes@.map_values(|p: Position| ((p.x, p.y))) =~= pairs@.take(i + 1));
            }
            i = i + 1;
        }
        proof {
            assert(pairs@.take(pairs@.len() as int) =~= pairs@);
        }
        antinodes
    }

    /// Counts the distinct in-bounds antinodes of all antenna pairs.
    pub fn count_all_antinodes_in_bounds(&self) -> (count: usize)
        requires
            self@.wf(),
        ensures
            count == self@.antinode_count(false),
    {
        count_antinodes(self, false)
    }

    /// Counts the distinct in-bounds antinodes with resonant harmonics.
    pub fn count_all_antinodes_with_resonant_harmonics_in_bounds(&self) -> (count: usize)
        requires
            self@.wf(),
        ensures
            count == self@.antinode_count(true),
    {
        count_antinodes(self, true)
    }
}

/// The antennas of the first `n` characters of row `y`: every
/// character but `.`, with its coordinates.
pub open spec fn scan_cells(line: Seq<char>, y: usize, n: int) -> Seq<(char, Position)>
    decreases n,
{
    if n <= 0 {
        seq![]
    } else {
        let rest = scan_cells(line, y, n - 1);
        if line[n - 1] != '.' {
            rest.push((line[n - 1], Position { x: (n - 1) as i32, y: y as i32 }))
        } else {
            rest
        }
    }
}

/// The antennas of the first `n` rows, row by row.
pub open spec fn scan_rows(lines: Seq<Seq<char>>, n: int) -> Seq<(char, Position)>
    decreases n,
{
    if n <= 0 {
        seq![]
    } else {
        scan_rows(lines, n - 1) + scan_cells(lines[n - 1], (n - 1) as usize, lines[n - 1].len() as int)
    }
}

/// The grouped antennas after recording a whole scan in order.
pub open spec fn build_groups(scan: Seq<(char, Position)>) -> Seq<(char, Seq<Position>)>
    decreases scan.len(),
{
    if scan.len() == 0 {
        seq![]
    } else {
        upsert_antenna(build_groups(scan.drop_last()), scan.last().0, scan.last().1)
    }
}

/// Every dimension of the antenna grid fits `i32` coordinates.
pub open spec fn antenna_text_fits(lines: Seq<Seq<char>>) -> bool {
    &&& lines.len() <= i32::MAX
    &&& lines.last().len() <= i32::MAX
    &&& forall|i: int| 0 <= i < lines.len() ==> (#[trigger] lines[i]).len() <= i32::MAX
}

/// Parses an antenna grid: every character but `.` is an antenna of
/// that frequency; the width is the last line's length and the height
/// the line count.  Returns `None` exactly when a dimension leaves
/// `i32` range.
#[verifier::loop_isolation(false)]
pub fn parse_antenna_map(input: &str) -> (r: Option<AntennaMap>)
    ensures
        (r is Some) <==> antenna_text_fits(crate::text::split_lines(input@)),
        r is Some ==> {
            let lines = crate::text::split_lines(input@);
            &&& (r->0)@.width == lines.last().len()
            &&& (r->0)@.height == lines.len()
            &&& (r->0)@.groups == build_groups(scan_rows(lines, lines.len() as int))
            &&& (r->0)@.wf()
        },
{
    let v = crate::text::chars_of(input);
    let line_vecs = crate::text::split_newlines(&v);
    let ghost lines = crate::text::split_lines(input@);
    proof {
        assert(lines.len() >= 1);
    }
    if line_vecs.len() > i32::MAX as usize {
        return None;
    }
    let mut widest_ok = true;
    let mut y: usize = 0;
    while y < line_vecs.len()
        invariant
            y <= line_vecs@.len(),
            crate::text::views_of(line_vecs@) == lines,
            widest_ok == forall|i: int| 0 <= i < y ==> (#[trigger] lines[i]).len() <= i32::MAX,
        decreases line_vecs@.len() - y,
    {
        proof {
            assert(lines[y as int] == line_vecs@[y as int]@);
        }
        if line_vecs[y].len() > i32::MAX as usize {
            widest_ok = false;
        }
        y = y + 1;
    }
    if !widest_ok {
        return None;
    }
    let height = line_vecs.len();
    proof {
        assert(line_vecs@.len() >= 1);
        assert(lines[line_vecs@.len() - 1] == line_vecs@[line_vecs@.len() - 1]@);
        assert(lines.last().len() <= i32::MAX);
    }
    let width = line_vecs[line_vecs.len() - 1].len();
    let mut map = AntennaMap::new(width as i32, height as i32);
    let mut y: usize = 0;
    proof {
        assert(map@.groups =~= build_groups(scan_rows(lines, 0)));
    }
    while y < line_vecs.len()
        invariant
            y <= line_vecs@.len(),
            crate::text::views_of(line_vecs@) == lines,
            map@.wf(),
            map@.width == lines.last().len(),
            map@.height == lines.len(),
            map@.groups == build_groups(scan_rows(lines, y as int)),
            forall|i: int| 0 <= i < lines.len() ==> (#[trigger] lines[i]).len() <= i32::MAX,
        decreases line_vecs@.len() - y,
    {
        proof {
            assert(lines[y as int] == line_vecs@[y as int]@);
        }
        let line = &line_vecs[y];
        let mut x: usize = 0;
        let ghost row_scan_start = scan_rows(lines, y as int);
        while x < line.len()
            invariant
                x <= line@.len(),
                y < line_vecs@.len(),
                line@ == lines[y as int],
                crate::text::views_of(line_vecs@) == lines,
                map@.wf(),
                map@.width == lines.last().len(),
                map@.height == lines.len(),
                map@.groups == build_groups(
                    row_scan_start + scan_cells(lines[y as int], y, x as int),
                ),
                row_scan_start == scan_rows(lines, y as int),
                lines[y as int].len() <= i32::MAX,
            decreases line@.len() - x,
        {
            let c = line[x];
            if c != '.' {
                let position = Position { x: x as i32, y: y as i32 };
                map.insert_antenna(c, position);
                proof {
                    let processed = row_scan_start + scan_cells(lines[y as int], y, x as int);
                    let processed2 = row_scan_start + scan_cells(lines[y as int], y, x + 1);
                    assert(scan_cells(lines[y as int], y, x + 1) == scan_cells(
                        lines[y as int],
                        y,
                        x as int,
                    ).push((c, position)));
                    assert(processed2 =~= processed.push((c, position)));
                    assert(processed2.drop_last() =~= processed);
                    assert(map@.groups == build_groups(processed2));
                }
            } else {
                proof {
                    assert(row_scan_start + scan_cells(lines[y as int], y, x + 1)
                        =~= row_scan_start + scan_cells(lines[y as int], y, x as int));
                }
            }
            x = x + 1;
        }
        proof {
            assert(scan_rows(lines, y + 1) =~= scan_rows(lines, y as int) + scan_cells(
                lines[y as int],
                y,
                lines[y as int].len() as int,
            ));
        }
        y = y + 1;
    }
    Some(map)
}

/// Appends the in-bounds antinodes of one antenna pair, in the order
/// the specification lists them.
#[verifier::loop_isolation(false)]
fn push_pair(out: &mut Vec<(i32, i32)>, a1: Position, a2: Position, resonant: bool, map: &AntennaMap)
    requires
        0 <= map@.width <= i32::MAX,
        0 <= map@.height <= i32::MAX,
        resonant ==> a1 != a2,
    ensures
        final(out)@ == old(out)@ + (if resonant {
            pair_resonant(map@.width, map@.height, a1, a2)
        } else {
            pair_antinodes(map@.width, map@.height, a1, a2)
        }),
{
    let ghost w = map@.width;
    let ghost h = map@.height;
    let ghost before = out@;
    if !resonant {
        let dx: i64 = a1.x as i64 - a2.x as i64;
        let dy: i64 = a1.y as i64 - a2.y as i64;
        let c1x: i64 = a1.x as i64 + dx;
        let c1y: i64 = a1.y as i64 + dy;
        let c2x: i64 = a2.x as i64 - dx;
        let c2y: i64 = a2.y as i64 - dy;
        if 0 <= c1x && c1x < map.width_i64() && 0 <= c1y && c1y < map.height_i64() {
            out.push((c1x as i32, c1y as i32));
        }
        if 0 <= c2x && c2x < map.width_i64() && 0 <= c2y && c2y < map.height_i64() {
            out.push((c2x as i32, c2y as i32));
        }
        proof {
            assert(out@ =~= before + pair_antinodes(w, h, a1, a2));
        }
        return ;
    }
    let dx: i64 = a1.x as i64 - a2.x as i64;
    let dy: i64 = a1.y as i64 - a2.y as i64;
    let mut m: i64 = 0;
    let ghost mut fuel: nat = resonant_fuel();
    loop
        invariant
            w == map@.width,
            h == map@.height,
            0 <= w <= i32::MAX,
            0 <= h <= i32::MAX,
            a1 != a2,
            dx == a1.x - a2.x,
            dy == a1.y - a2.y,
            0 <= m,
            fuel == resonant_fuel() - m,
            m <= 0x2_0000_0000,
            before + pair_resonant(w, h, a1, a2) == out@ + resonant_from(
                w,
                h,
                a1,
                a2,
                m as int,
                fuel,
            ),
        decreases fuel,
    {
        proof {
            assert((m as i128) * (dx as i128) == m * (a1.x - a2.x) && -0x1_0000_0000_0000_0000_0000
                <= (m as i128) * (dx as i128) <= 0x1_0000_0000_0000_0000_0000) by (nonlinear_arith)
                requires
                    dx == a1.x - a2.x,
                    -0x1_0000_0000 <= dx <= 0x1_0000_0000,
                    0 <= m <= 0x2_0000_0000,
            ;
            assert((m as i128) * (dy as i128) == m * (a1.y - a2.y) && -0x1_0000_0000_0000_0000_0000
                <= (m as i128) * (dy as i128) <= 0x1_0000_0000_0000_0000_0000) by (nonlinear_arith)
                requires
                    dy == a1.y - a2.y,
                    -0x1_0000_0000 <= dy <= 0x1_0000_0000,
                    0 <= m <= 0x2_0000_0000,
            ;
            assert(fuel >= 1);
        }
        let p1x: i128 = a1.x as i128 + (m as i128) * (dx as i128);
        let p1y: i128 = a1.y as i128 + (m as i128) * (dy as i128);
        let p2x: i128 = a2.x as i128 - (m as i128) * (dx as i128);
        let p2y: i128 = a2.y as i128 - (m as i128) * (dy as i128);
        let in1 = 0 <= p1x && p1x < map.width_i64() as i128 && 0 <= p1y && p1y < map.height_i64()
            as i128;
        let in2 = 0 <= p2x && p2x < map.width_i64() as i128 && 0 <= p2y && p2y < map.height_i64()
            as i128;
        if !in1 && !in2 {
            proof {
                assert(resonant_from(w, h, a1, a2, m as int, fuel) =~= Seq::<(i32, i32)>::empty());
                assert(out@ =~= out@ + resonant_from(w, h, a1, a2, m as int, fuel));
                assert(out@ =~= before + pair_resonant(w, h, a1, a2));
            }
            return ;
        }
        proof {
            lemma_multiple_bounded(w, h, a1, a2, m as int);
        }
        let ghost out_prev = out@;
        let ghost head = resonant_from(w, h, a1, a2, m as int, fuel);
        let ghost tail = resonant_from(w, h, a1, a2, m as int + 1, (fuel - 1) as nat);
        if in1 {
            out.push((p1x as i32, p1y as i32));
        }
        if in2 {
            out.push((p2x as i32, p2y as i32));
        }
        proof {
            assert(out_prev + head =~= out@ + tail);
            assert(before + pair_resonant(w, h, a1, a2) =~= out@ + tail) by {
                assert(before + pair_resonant(w, h, a1, a2) =~= out_prev + head);
            }
            fuel = (fuel - 1) as nat;
        }
        m = m + 1;
    }
}

impl AntennaMap {
    /// The grid width, widened for overflow-free arithmetic.
    fn width_i64(&self) -> (r: i64)
        ensures
            r == self@.width,
    {
        self.width as i64
    }

    /// The grid height, widened for overflow-free arithmetic.
    fn height_i64(&self) -> (r: i64)
        ensures
            r == self@.height,
    {
        self.height as i64
    }
}

/// How many distinct pairs the list holds.
#[verifier::loop_isolation(false)]
fn distinct_pairs(v: &Vec<(i32, i32)>) -> (count: usize)
    ensures
        count == v@.to_set().len(),
{
    broadcast use vstd::seq_lib::seq_to_set_is_finite;
    broadcast use vstd::set::group_set_axioms;

    let mut seen: Vec<(i32, i32)> = Vec::new();
    let mut i: usize = 0;
    proof {
        assert(seen@.to_set() =~= v@.take(0).to_set());
    }
    while i < v.len()
        invariant
            i <= v@.len(),
            seen@.no_duplicates(),
            seen@.to_set() == v@.take(i as int).to_set(),
        decreases v@.len() - i,
    {
        let (a, b) = v[i];
        let mut found = false;
        let mut j: usize = 0;
        while j < seen.len()
            invariant
                j <= seen@.len(),
                found == exists|k: int| 0 <= k < j && seen@[k] == (a, b),
            decreases seen@.len() - j,
        {
            let (c, d) = seen[j];
            if c == a && d == b {
                proof {
                    assert(seen@[j as int] == (a, b));
                }
                found = true;
            }
            j = j + 1;
        }
        proof {
            assert(v@.take(i + 1) =~= v@.take(i as int).push(v@[i as int]));
            v@.take(i as int).lemma_push_to_set_commute(v@[i as int]);
        }
        if !found {
            proof {
                assert(!seen@.contains((a, b)));
            }
            let ghost prev = seen@;
            seen.push((a, b));
            proof {
                prev.lemma_push_to_set_commute((a, b));
                assert(seen@.no_duplicates()) by {
                    assert(forall|k: int| 0 <= k < prev.len() ==> prev[k] != (a, b));
                }
            }
        } else {
            proof {
                assert(seen@.contains((a, b)));
                assert(v@.take(i as int).to_set().insert(v@[i as int]) =~= v@.take(
                    i as int,
                ).to_set());
            }
        }
        i = i + 1;
    }
    proof {
        assert(v@.take(v@.len() as int) =~= v@);
        seen@.unique_seq_to_set();
    }
    seen.len()
}

/// Collects the antinodes of every pair of every group, then counts the
/// distinct ones.
#[verifier::loop_isolation(false)]
fn count_antinodes(map: &AntennaMap, resonant: bool) -> (count: usize)
    requires
        map@.wf(),
    ensures
        count == map@.antinode_count(resonant),
{
    let ghost w = map@.width;
    let ghost h = map@.height;
    let ghost groups = map@.groups;
    let mut out: Vec<(i32, i32)> = Vec::new();
    let mut gi: usize = 0;
    proof {
        assert(out@ =~= all_antinodes(groups.take(0), resonant, w, h));
    }
    while gi < map.groups.len()
        invariant
            gi <= groups.len(),
            groups == map@.groups,
            out@ == all_antinodes(groups.take(gi as int), resonant, w, h),
        decreases groups.len() - gi,
    {
        proof {
            assert(groups[gi as int] == (map.groups@[gi as int].0, map.groups@[gi as int].1@));
            assert(groups.take(gi + 1).drop_last() =~= groups.take(gi as int));
            assert(groups.take(gi + 1).last() == groups[gi as int]);
        }
        let ghost positions = groups[gi as int].1;
        let mut pj: usize = 1;
        let ghost out_group_start = out@;
        proof {
            if positions.len() >= 1 {
                assert(positions.take(1).drop_last() =~= positions.take(0));
                assert(partner_antinodes(
                    positions.take(0),
                    positions.take(1).last(),
                    resonant,
                    w,
                    h,
                ) =~= Seq::<(i32, i32)>::empty());
                assert(group_antinodes(positions.take(0), resonant, w, h) =~= Seq::<
                    (i32, i32),
                >::empty());
                assert(group_antinodes(positions.take(1), resonant, w, h) =~= Seq::<
                    (i32, i32),
                >::empty());
                assert(out@ + group_antinodes(positions.take(1), resonant, w, h) =~= out@);
            }
        }
        while pj < map.groups[gi].1.len()
            invariant
                gi < groups.len(),
                groups == map@.groups,
                positions == groups[gi as int].1,
                1 <= pj,
                pj <= positions.len() || (pj == 1 && positions.len() <= 1),
                positions.len() >= 1 ==> out@ == out_group_start + group_antinodes(
                    positions.take(pj as int),
                    resonant,
                    w,
                    h,
                ),
                positions.len() == 0 ==> out@ == out_group_start,
            decreases positions.len() - pj,
        {
            let last = map.groups[gi].1[pj];
            let mut pi: usize = 0;
            let ghost out_row_start = out@;
            proof {
                assert(out@ =~= out@ + partner_antinodes(
                    positions.take(pj as int).take(0),
                    positions[pj as int],
                    resonant,
                    w,
                    h,
                ));
            }
            while pi < pj
                invariant
                    gi < groups.len(),
                    groups == map@.groups,
                    positions == groups[gi as int].1,
                    pi <= pj < positions.len(),
                    last == positions[pj as int],
                    out@ == out_row_start + partner_antinodes(
                        positions.take(pj as int).take(pi as int),
                        positions[pj as int],
                        resonant,
                        w,
                        h,
                    ),
                decreases pj - pi,
            {
                proof {
                    assert(positions.take(pj as int).take(pi + 1).drop_last() =~= positions.take(
                        pj as int,
                    ).take(pi as int));
                    assert(positions.take(pj as int).take(pi + 1).last() == positions[pi as int]);
                    if resonant {
                        assert(positions[pi as int] != positions[pj as int]) by {
                            assert(positions.no_duplicates());
                        }
                    }
                    assert(0 <= w <= i32::MAX && 0 <= h <= i32::MAX);
                }
                let first = map.groups[gi].1[pi];
                push_pair(&mut out, first, last, resonant, map);
                proof {
                    assert(out@ =~= out_row_start + partner_antinodes(
                        positions.take(pj as int).take(pi + 1),
                        positions[pj as int],
                        resonant,
                        w,
                        h,
                    ));
                }
                pi = pi + 1;
            }
            proof {
                assert(positions.take(pj as int).take(pj as int) =~= positions.take(pj as int));
                assert(positions.take(pj + 1).drop_last() =~= positions.take(pj as int));
                assert(positions.take(pj + 1).last() == positions[pj as int]);
                assert(out@ =~= out_group_start + group_antinodes(
                    positions.take(pj + 1),
                    resonant,
                    w,
                    h,
                ));
            }
            pj = pj + 1;
        }
        proof {
            if positions.len() >= 1 {
                assert(positions.take(positions.len() as int) =~= positions);
            } else {
                assert(group_antinodes(positions, resonant, w, h) =~= Seq::<(i32, i32)>::empty());
                assert(out@ =~= out_group_start);
            }
            assert(out@ =~= all_antinodes(groups.take(gi + 1), resonant, w, h));
        }
        gi = gi + 1;
    }
    proof {
        assert(groups.take(groups.len() as int) =~= groups);
    }
    distinct_pairs(&out)
}

} // verus!
