//! The guard-patrol simulator: a bounded rectangular area, a mobile guard
//! with a position and a heading, static obstacles, and loop detection.
//!
//! A traversal advances the guard one cell at a time.  When the cell ahead
//! is an obstacle the guard turns ninety degrees clockwise without moving;
//! otherwise it steps forward.  After every turn or step the current
//! (position, direction) pair is recorded; seeing a pair a second time
//! proves the walk has entered an infinite loop, while stepping outside the
//! bounds ends the walk without a loop.
//!
//! The mathematical model is the step function [`step`] and the bounded
//! iteration [`run`]: the pigeonhole bound [`lemma_run_terminates`] shows a
//! traversal always finishes within `4 * width * height` steps, because
//! every step that continues records a previously unseen pair out of the
//! at most `4 * width * height` pairs that exist.

use vstd::prelude::*;
use vstd::relations::injective_on;
use vstd::set_lib::set_int_range;
use vstd::set_lib::lemma_int_range;
use vstd::set_lib::lemma_map_size;
use vstd::set_lib::lemma_len_subset;

verus! {

/// A cell of the grid, as a pair of integer coordinates.
#[derive(Clone, Copy, PartialEq, Eq, Structural, Debug, Hash)]
pub struct Position {
    pub x: i32,
    pub y: i32,
}

/// One of the four headings the guard can face.
#[derive(Clone, Copy, PartialEq, Eq, Structural, Debug, Hash)]
pub enum Direction {
    Up,
    Down,
    Left,
    Right,
}

/// The mobile agent: its position, its heading, and the history of
/// (position, direction) pairs seen so far, with the distinct positions
/// kept alongside in first-visit order.
pub struct Guard {
    position: Position,
    direction: Direction,
    visited_pairs: Vec<(Position, Direction)>,
    visited_positions: Vec<Position>,
    will_loop: bool,
}

/// The full abstract contents of a [`Guard`].
pub ghost struct GuardView {
    pub pos: Position,
    pub dir: Direction,
    pub pairs: Seq<(Position, Direction)>,
    pub positions: Seq<Position>,
    pub will_loop: bool,
}

/// The part of the guard state that drives the traversal: position,
/// direction, and the sets of recorded pairs and positions.
pub ghost struct GuardModel {
    pub pos: Position,
    pub dir: Direction,
    pub pairs: Set<(Position, Direction)>,
    pub positions: Set<Position>,
}

impl View for Guard {
    type V = GuardView;

    closed spec fn view(&self) -> GuardView {
        GuardView {
            pos: self.position,
            dir: self.direction,
            pairs: self.visited_pairs@,
            positions: self.visited_positions@,
            will_loop: self.will_loop,
        }
    }
}

/// The positions mentioned by a set of (position, direction) pairs.
pub open spec fn positions_of(pairs: Set<(Position, Direction)>) -> Set<Position> {
    Set::new(|p: Position| exists|d: Direction| pairs.contains((p, d)))
}

impl GuardView {
    /// The set-level state the traversal semantics works on.
    pub open spec fn model(self) -> GuardModel {
        GuardModel {
            pos: self.pos,
            dir: self.dir,
            pairs: self.pairs.to_set(),
            positions: self.positions.to_set(),
        }
    }

    /// Internal consistency of the recorded history: both records are
    /// duplicate-free, the positions are exactly those of the pairs, and
    /// the current (position, direction) pair has been recorded.
    pub open spec fn consistent(self) -> bool {
        &&& self.pairs.no_duplicates()
        &&& self.positions.no_duplicates()
        &&& self.positions.to_set() == positions_of(self.pairs.to_set())
        &&& self.pairs.to_set().contains((self.pos, self.dir))
    }

    /// A guard at rest: consistent history and no loop flagged.
    pub open spec fn wf(self) -> bool {
        self.consistent() && !self.will_loop
    }
}

impl Guard {
    /// A fresh guard: it has visited exactly its starting pair.
    pub fn new(position: Position, direction: Direction) -> (g: Guard)
        ensures
            g@ == (GuardView {
                pos: position,
                dir: direction,
                pairs: seq![(position, direction)],
                positions: seq![position],
                will_loop: false,
            }),
            g@.wf(),
    {
        let mut visited_pairs: Vec<(Position, Direction)> = Vec::new();
        visited_pairs.push((position, direction));
        let mut visited_positions: Vec<Position> = Vec::new();
        visited_positions.push(position);
        let g = Guard { position, direction, visited_pairs, visited_positions, will_loop: false };
        proof {
            let pd = (position, direction);
            assert(g@.pairs =~= seq![pd]);
            assert(g@.positions =~= seq![position]);
            assert(g@.pairs.contains(pd)) by {
                assert(g@.pairs[0] == pd);
            }
            assert(g@.positions.contains(position)) by {
                assert(g@.positions[0] == position);
            }
            assert(g@.positions.to_set() =~= positions_of(g@.pairs.to_set())) by {
                assert forall|p: Position| #[trigger]
                    positions_of(g@.pairs.to_set()).contains(p) implies g@.positions.to_set().contains(
                    p,
                ) by {
                    let d = choose|d: Direction| g@.pairs.to_set().contains((p, d));
                    assert(g@.pairs.contains((p, d)));
                    assert(p == position);
                }
                assert(g@.pairs.to_set().contains(pd));
            }
        }
        g
    }
}

/// The heading after a ninety-degree clockwise turn.
pub open spec fn turn_right(d: Direction) -> Direction {
    match d {
        Direction::Up => Direction::Right,
        Direction::Right => Direction::Down,
        Direction::Down => Direction::Left,
        Direction::Left => Direction::Up,
    }
}

/// The x coordinate of the cell directly ahead.
pub open spec fn front_x(pos: Position, dir: Direction) -> int {
    match dir {
        Direction::Up => pos.x as int,
        Direction::Down => pos.x as int,
        Direction::Left => pos.x - 1,
        Direction::Right => pos.x + 1,
    }
}

/// The y coordinate of the cell directly ahead.
pub open spec fn front_y(pos: Position, dir: Direction) -> int {
    match dir {
        Direction::Up => pos.y - 1,
        Direction::Down => pos.y + 1,
        Direction::Left => pos.y as int,
        Direction::Right => pos.y as int,
    }
}

/// (x, y) lies inside the `w` by `h` grid.
pub open spec fn in_bounds(w: int, h: int, x: int, y: int) -> bool {
    0 <= x < w && 0 <= y < h
}

/// The outcome of one simulation step.
pub ghost enum StepResult {
    /// The cell ahead is outside the grid: the walk ends without a loop.
    Exited,
    /// The new (position, direction) pair was already recorded: the walk
    /// ends, having proved a loop.  The carried state holds the updated
    /// position and direction with the history unchanged.
    Looped(GuardModel),
    /// The walk goes on with the given state.
    Moved(GuardModel),
}

/// One step of the traversal: look at the cell ahead, turn or move, then
/// record the new (position, direction) pair.
pub open spec fn step(w: int, h: int, obstacles: Set<Position>, s: GuardModel) -> StepResult {
    let fx = front_x(s.pos, s.dir);
    let fy = front_y(s.pos, s.dir);
    if !in_bounds(w, h, fx, fy) {
        StepResult::Exited
    } else {
        let ahead = Position { x: fx as i32, y: fy as i32 };
        let pos2 = if obstacles.contains(ahead) {
            s.pos
        } else {
            ahead
        };
        let dir2 = if obstacles.contains(ahead) {
            turn_right(s.dir)
        } else {
            s.dir
        };
        if s.pairs.contains((pos2, dir2)) {
            StepResult::Looped(GuardModel { pos: pos2, dir: dir2, pairs: s.pairs, positions: s.positions })
        } else {
            StepResult::Moved(
                GuardModel {
                    pos: pos2,
                    dir: dir2,
                    pairs: s.pairs.insert((pos2, dir2)),
                    positions: s.positions.insert(pos2),
                },
            )
        }
    }
}

/// Iterates [`step`] for at most `fuel` steps.  `Some((looped, t))` means
/// the walk ended, in state `t`, and `looped` tells whether it ended by
/// revisiting a pair; `None` means `fuel` ran out first.
pub open spec fn run(
    w: int,
    h: int,
    obstacles: Set<Position>,
    s: GuardModel,
    fuel: nat,
) -> Option<(bool, GuardModel)>
    decreases fuel,
{
    if fuel == 0 {
        None
    } else {
        match step(w, h, obstacles, s) {
            StepResult::Exited => Some((false, s)),
            StepResult::Looped(t) => Some((true, t)),
            StepResult::Moved(t) => run(w, h, obstacles, t, (fuel - 1) as nat),
        }
    }
}

/// Enough fuel for any traversal of a `w` by `h` grid: one more step than
/// there are (position, direction) states.
pub open spec fn fuel_bound(w: int, h: int) -> nat {
    (4 * w * h + 1) as nat
}

/// A guard state that fits the grid: the guard stands in bounds, the
/// recorded pairs are finitely many and in bounds, the current pair is
/// recorded, and the recorded positions are those of the pairs.
pub open spec fn state_wf(w: int, h: int, s: GuardModel) -> bool {
    &&& in_bounds(w, h, s.pos.x as int, s.pos.y as int)
    &&& s.pairs.finite()
    &&& forall|pd: (Position, Direction)| #[trigger]
        s.pairs.contains(pd) ==> in_bounds(w, h, pd.0.x as int, pd.0.y as int)
    &&& s.pairs.contains((s.pos, s.dir))
    &&& s.positions == positions_of(s.pairs)
}

/// The complete traversal from `s`, with the fuel bound that
/// [`lemma_run_terminates`] proves sufficient.
pub open spec fn traversal(w: int, h: int, obstacles: Set<Position>, s: GuardModel) -> (bool, GuardModel) {
    match run(w, h, obstacles, s, fuel_bound(w, h)) {
        Some(r) => r,
        None => (false, s),
    }
}

/// Whether the traversal from `s` ends by detecting a loop.
pub open spec fn traversal_loops(w: int, h: int, obstacles: Set<Position>, s: GuardModel) -> bool {
    traversal(w, h, obstacles, s).0
}

/// The set of distinct positions the traversal from `s` visits.
pub open spec fn traversal_positions(
    w: int,
    h: int,
    obstacles: Set<Position>,
    s: GuardModel,
) -> Set<Position> {
    traversal(w, h, obstacles, s).1.positions
}

/// An index in `[0, 4)` for each direction.
pub open spec fn direction_index(d: Direction) -> int {
    match d {
        Direction::Up => 0,
        Direction::Down => 1,
        Direction::Left => 2,
        Direction::Right => 3,
    }
}

/// An injective encoding of an in-bounds (position, direction) pair into
/// `[0, 4 * w * h)`.
pub open spec fn encode_pair(w: int, pd: (Position, Direction)) -> int {
    (pd.0.y * w + pd.0.x) * 4 + direction_index(pd.1)
}

proof fn lemma_cell_encoding_injective(w: int, x1: int, y1: int, x2: int, y2: int)
    requires
        0 <= x1 < w,
        0 <= x2 < w,
        y1 * w + x1 == y2 * w + x2,
    ensures
        x1 == x2 && y1 == y2,
{
    assert(y1 == y2 && x1 == x2) by (nonlinear_arith)
        requires
            0 <= x1 < w,
            0 <= x2 < w,
            y1 * w + x1 == y2 * w + x2,
    ;
}

proof fn lemma_cell_encoding_range(w: int, h: int, x: int, y: int)
    requires
        0 <= x < w,
        0 <= y < h,
    ensures
        0 <= y * w + x < w * h,
{
    assert(0 <= y * w + x < w * h) by (nonlinear_arith)
        requires
            0 <= x < w,
            0 <= y < h,
    ;
}

/// At most `4 * w * h` distinct in-bounds pairs can ever be recorded.
pub proof fn lemma_pairs_card(w: int, h: int, pairs: Set<(Position, Direction)>)
    requires
        0 < w,
        0 < h,
        pairs.finite(),
        forall|pd: (Position, Direction)|
            pairs.contains(pd) ==> in_bounds(w, h, #[trigger] pd.0.x as int, pd.0.y as int),
    ensures
        pairs.len() <= 4 * w * h,
{
    assert(0 < 4 * w * h && 4 * (w * h) == 4 * w * h) by (nonlinear_arith)
        requires
            0 < w,
            0 < h,
    ;
    let f = |pd: (Position, Direction)| encode_pair(w, pd);
    let image = pairs.map(f);
    assert(injective_on(f, pairs)) by {
        assert forall|a1: (Position, Direction), a2: (Position, Direction)|
            #![trigger f(a1), f(a2)]
            pairs.contains(a1) && pairs.contains(a2) && f(a1) == f(a2) implies a1 == a2 by {
            let c1 = a1.0.y * w + a1.0.x;
            let c2 = a2.0.y * w + a2.0.x;
            assert(c1 * 4 + direction_index(a1.1) == c2 * 4 + direction_index(a2.1));
            assert(0 <= direction_index(a1.1) < 4);
            assert(0 <= direction_index(a2.1) < 4);
            assert(c1 == c2 && direction_index(a1.1) == direction_index(a2.1)) by (nonlinear_arith)
                requires
                    c1 * 4 + direction_index(a1.1) == c2 * 4 + direction_index(a2.1),
                    0 <= direction_index(a1.1) < 4,
                    0 <= direction_index(a2.1) < 4,
            ;
            lemma_cell_encoding_injective(w, a1.0.x as int, a1.0.y as int, a2.0.x as int, a2.0.y as int);
            assert(a1.0 == a2.0);
            assert(a1.1 == a2.1);
        }
    }
    lemma_map_size(pairs, image, f);
    assert(image.subset_of(set_int_range(0, 4 * w * h))) by {
        assert forall|v: int| image.contains(v) implies 0 <= v < 4 * w * h by {
            let pd = choose|pd: (Position, Direction)| pairs.contains(pd) && f(pd) == v;
            lemma_cell_encoding_range(w, h, pd.0.x as int, pd.0.y as int);
            let c = pd.0.y * w + pd.0.x;
            assert(0 <= c * 4 + direction_index(pd.1) < 4 * (w * h)) by (nonlinear_arith)
                requires
                    0 <= c < w * h,
                    0 <= direction_index(pd.1) < 4,
            ;
        }
    }
    lemma_int_range(0, 4 * w * h);
    lemma_len_subset(image, set_int_range(0, 4 * w * h));
}

/// At most `w * h` distinct in-bounds positions can ever be recorded.
pub proof fn lemma_positions_card(w: int, h: int, positions: Set<Position>)
    requires
        0 < w,
        0 < h,
        positions.finite(),
        forall|p: Position| positions.contains(p) ==> in_bounds(w, h, #[trigger] p.x as int, p.y as int),
    ensures
        positions.len() <= w * h,
{
    let f = |p: Position| p.y * w + p.x;
    let image = positions.map(f);
    assert(injective_on(f, positions)) by {
        assert forall|a1: Position, a2: Position|
            #![trigger f(a1), f(a2)]
            positions.contains(a1) && positions.contains(a2) && f(a1) == f(a2) implies a1 == a2 by {
            lemma_cell_encoding_injective(w, a1.x as int, a1.y as int, a2.x as int, a2.y as int);
        }
    }
    lemma_map_size(positions, image, f);
    assert(0 < w * h) by (nonlinear_arith)
        requires
            0 < w,
            0 < h,
    ;
    assert(image.subset_of(set_int_range(0, w * h))) by {
        assert forall|v: int| image.contains(v) implies 0 <= v < w * h by {
            let p = choose|p: Position| positions.contains(p) && f(p) == v;
            lemma_cell_encoding_range(w, h, p.x as int, p.y as int);
        }
    }
    lemma_int_range(0, w * h);
    lemma_len_subset(image, set_int_range(0, w * h));
}

/// A step that continues preserves well-formedness and records exactly one
/// new pair.
pub proof fn lemma_step_moved_wf(w: int, h: int, obstacles: Set<Position>, s: GuardModel, t: GuardModel)
    requires
        0 < w <= i32::MAX,
        0 < h <= i32::MAX,
        state_wf(w, h, s),
        step(w, h, obstacles, s) == StepResult::Moved(t),
    ensures
        state_wf(w, h, t),
        t.pairs.len() == s.pairs.len() + 1,
        s.pairs.subset_of(t.pairs),
{
    let fx = front_x(s.pos, s.dir);
    let fy = front_y(s.pos, s.dir);
    let ahead = Position { x: fx as i32, y: fy as i32 };
    let pd = (t.pos, t.dir);
    assert(!s.pairs.contains(pd));
    assert(in_bounds(w, h, t.pos.x as int, t.pos.y as int));
    assert(t.positions =~= positions_of(t.pairs)) by {
        assert forall|p: Position| #[trigger] positions_of(t.pairs).contains(p)
            implies t.positions.contains(p) by {
            let d = choose|d: Direction| t.pairs.contains((p, d));
            if (p, d) != pd {
                assert(s.pairs.contains((p, d)));
                assert(positions_of(s.pairs).contains(p));
            }
        }
        assert forall|p: Position| #[trigger] t.positions.contains(p)
            implies positions_of(t.pairs).contains(p) by {
            if p == t.pos {
                assert(t.pairs.contains(pd));
            } else {
                assert(s.positions.contains(p));
                let d = choose|d: Direction| s.pairs.contains((p, d));
                assert(t.pairs.contains((p, d)));
            }
        }
    }
}

/// Loop detection is sound and complete within the fuel bound: with more
/// fuel than unrecorded pairs, the traversal always finishes, in a state
/// that is itself well formed.
pub proof fn lemma_run_terminates(w: int, h: int, obstacles: Set<Position>, s: GuardModel, fuel: nat)
    requires
        0 < w <= i32::MAX,
        0 < h <= i32::MAX,
        state_wf(w, h, s),
        fuel > 4 * w * h - s.pairs.len(),
    ensures
        run(w, h, obstacles, s, fuel) is Some,
        state_wf(w, h, run(w, h, obstacles, s, fuel).unwrap().1),
        run(w, h, obstacles, s, fuel).unwrap().1.pairs.finite(),
    decreases fuel,
{
    lemma_pairs_card(w, h, s.pairs);
    assert(fuel >= 1);
    match step(w, h, obstacles, s) {
        StepResult::Exited => {}
        StepResult::Looped(t) => {
            assert(state_wf(w, h, t));
        }
        StepResult::Moved(t) => {
            lemma_step_moved_wf(w, h, obstacles, s, t);
            lemma_run_terminates(w, h, obstacles, t, (fuel - 1) as nat);
        }
    }
}

/// The bounded area: its dimensions, its obstacles, the working guard, and
/// the pristine copy of the guard that every trial starts from.
pub struct Area {
    width: i32,
    height: i32,
    guard: Guard,
    obstacles: Vec<Position>,
    initial_guard: Guard,
}

/// The full abstract contents of an [`Area`].
pub ghost struct AreaView {
    pub width: int,
    pub height: int,
    pub obstacles: Seq<Position>,
    pub guard: GuardView,
    pub initial: GuardView,
}

impl View for Area {
    type V = AreaView;

    closed spec fn view(&self) -> AreaView {
        AreaView {
            width: self.width as int,
            height: self.height as int,
            obstacles: self.obstacles@,
            guard: self.guard@,
            initial: self.initial_guard@,
        }
    }
}

impl AreaView {
    /// The obstacles, as a set.
    pub open spec fn obstacle_set(self) -> Set<Position> {
        self.obstacles.to_set()
    }

    /// An area at rest: positive in-range dimensions, a well-formed
    /// initial guard standing in bounds, and the working guard equal to
    /// the initial one.
    pub open spec fn wf(self) -> bool {
        &&& 1 <= self.width <= i32::MAX
        &&& 1 <= self.height <= i32::MAX
        &&& self.initial.wf()
        &&& state_wf(self.width, self.height, self.initial.model())
        &&& self.guard == self.initial
    }

    /// How many distinct positions the traversal from the initial state
    /// visits.
    pub open spec fn distinct_positions(self) -> nat {
        traversal_positions(self.width, self.height, self.obstacle_set(), self.initial.model()).len()
    }

    /// Whether adding one obstacle at `p` would make the traversal loop.
    pub open spec fn causes_loop(self, p: Position) -> bool {
        traversal_loops(self.width, self.height, self.obstacle_set().insert(p), self.initial.model())
    }

    /// The candidate positions whose hypothetical obstacle induces a loop:
    /// positions visited by the unobstructed run, except the start, that
    /// make the re-run loop.  The start position is never a candidate.
    pub open spec fn loop_candidates(self) -> Set<Position> {
        traversal_positions(self.width, self.height, self.obstacle_set(), self.initial.model())
            .remove(self.initial.pos)
            .filter(|p: Position| self.causes_loop(p))
    }
}

fn copy_positions(v: &Vec<Position>) -> (r: Vec<Position>)
    ensures
        r@ == v@,
{
    let mut r: Vec<Position> = Vec::new();
    let mut i: usize = 0;
    while i < v.len()
        invariant
            i <= v@.len(),
            r@ =~= v@.take(i as int),
        decreases v@.len() - i,
    {
        r.push(v[i]);
        proof {
            assert(r@ =~= v@.take(i + 1));
        }
        i = i + 1;
    }
    proof {
        assert(v@.take(v@.len() as int) =~= v@);
    }
    r
}

fn copy_pairs(v: &Vec<(Position, Direction)>) -> (r: Vec<(Position, Direction)>)
    ensures
        r@ == v@,
{
    let mut r: Vec<(Position, Direction)> = Vec::new();
    let mut i: usize = 0;
    while i < v.len()
        invariant
            i <= v@.len(),
            r@ =~= v@.take(i as int),
        decreases v@.len() - i,
    {
        r.push(v[i]);
        proof {
            assert(r@ =~= v@.take(i + 1));
        }
        i = i + 1;
    }
    proof {
        assert(v@.take(v@.len() as int) =~= v@);
    }
    r
}

fn clone_guard(g: &Guard) -> (r: Guard)
    ensures
        r@ == g@,
{
    Guard {
        position: g.position,
        direction: g.direction,
        visited_pairs: copy_pairs(&g.visited_pairs),
        visited_positions: copy_positions(&g.visited_positions),
        will_loop: g.will_loop,
    }
}

fn contains_position(v: &Vec<Position>, p: Position) -> (b: bool)
    ensures
        b == v@.contains(p),
{
    let mut i: usize = 0;
    while i < v.len()
        invariant
            i <= v@.len(),
            forall|j: int| 0 <= j < i ==> v@[j] != p,
        decreases v@.len() - i,
    {
        if v[i] == p {
            return true;
        }
        i = i + 1;
    }
    false
}

fn pairs_contain(v: &Vec<(Position, Direction)>, p: Position, d: Direction) -> (b: bool)
    ensures
        b == v@.contains((p, d)),
{
    let mut i: usize = 0;
    while i < v.len()
        invariant
            i <= v@.len(),
            forall|j: int| 0 <= j < i ==> v@[j] != (p, d),
        decreases v@.len() - i,
    {
        let (q, e) = v[i];
        if q == p && e == d {
            proof {
                assert(v@[i as int] == (p, d));
            }
            return true;
        }
        i = i + 1;
    }
    false
}

/// The heading after a clockwise turn, as executable code.
fn rotate(d: Direction) -> (r: Direction)
    ensures
        r == turn_right(d),
{
    match d {
        Direction::Up => Direction::Right,
        Direction::Down => Direction::Left,
        Direction::Left => Direction::Up,
        Direction::Right => Direction::Down,
    }
}

impl Area {
    /// Builds an area from its dimensions, the guard's initial state, and
    /// the obstacle list.
    pub fn new(width: i32, height: i32, initial_guard: Guard, obstacles: Vec<Position>) -> (a: Area)
        requires
            1 <= width,
            1 <= height,
            initial_guard@.wf(),
            state_wf(width as int, height as int, initial_guard@.model()),
        ensures
            a@ == (AreaView {
                width: width as int,
                height: height as int,
                obstacles: obstacles@,
                guard: initial_guard@,
                initial: initial_guard@,
            }),
            a@.wf(),
    {
        let guard = clone_guard(&initial_guard);
        Area { width, height, guard, obstacles, initial_guard }
    }

    /// Restores the working guard to the initial state.  The obstacle set
    /// is untouched by a reset.
    fn reset(&mut self)
        ensures
            final(self)@ == (AreaView { guard: old(self)@.initial, ..old(self)@ }),
    {
        self.guard = clone_guard(&self.initial_guard);
    }

    /// The cell directly ahead of the guard, given its heading.
    fn position_in_front(&self) -> (p: Position)
        requires
            in_bounds(self@.width, self@.height, self@.guard.pos.x as int, self@.guard.pos.y as int),
        ensures
            p.x as int == front_x(self@.guard.pos, self@.guard.dir),
            p.y as int == front_y(self@.guard.pos, self@.guard.dir),
    {
        match self.guard.direction {
            Direction::Up => Position { x: self.guard.position.x, y: self.guard.position.y - 1 },
            Direction::Down => Position { x: self.guard.position.x, y: self.guard.position.y + 1 },
            Direction::Left => Position { x: self.guard.position.x - 1, y: self.guard.position.y },
            Direction::Right => Position { x: self.guard.position.x + 1, y: self.guard.position.y },
        }
    }

    /// Whether a cell lies inside the area's bounds.
    fn position_in_bounds(&self, position: &Position) -> (b: bool)
        ensures
            b == in_bounds(self@.width, self@.height, position.x as int, position.y as int),
    {
        0 <= position.x && position.x < self.width && 0 <= position.y && position.y < self.height
    }

    /// Records the guard's current (position, direction) pair.  Seeing the
    /// pair a second time raises the loop flag instead; once recorded, a
    /// pair is never removed within a run.
    fn visit(&mut self)
        requires
            old(self)@.guard.pairs.no_duplicates(),
            old(self)@.guard.positions.no_duplicates(),
            !old(self)@.guard.will_loop,
        ensures
            final(self)@.width == old(self)@.width,
            final(self)@.height == old(self)@.height,
            final(self)@.obstacles == old(self)@.obstacles,
            final(self)@.initial == old(self)@.initial,
            final(self)@.guard.pos == old(self)@.guard.pos,
            final(self)@.guard.dir == old(self)@.guard.dir,
            final(self)@.guard.will_loop == old(self)@.guard.pairs.contains(
                (old(self)@.guard.pos, old(self)@.guard.dir),
            ),
            old(self)@.guard.pairs.contains((old(self)@.guard.pos, old(self)@.guard.dir)) ==> {
                &&& final(self)@.guard.pairs == old(self)@.guard.pairs
                &&& final(self)@.guard.positions == old(self)@.guard.positions
            },
            !old(self)@.guard.pairs.contains((old(self)@.guard.pos, old(self)@.guard.dir)) ==> {
                &&& final(self)@.guard.pairs == old(self)@.guard.pairs.push(
                    (old(self)@.guard.pos, old(self)@.guard.dir),
                )
                &&& final(self)@.guard.positions == if old(self)@.guard.positions.contains(
                    old(self)@.guard.pos,
                ) {
                    old(self)@.guard.positions
                } else {
                    old(self)@.guard.positions.push(old(self)@.guard.pos)
                }
            },
            final(self)@.guard.pairs.no_duplicates(),
            final(self)@.guard.positions.no_duplicates(),
    {
        let p = self.guard.position;
        let d = self.guard.direction;
        if pairs_contain(&self.guard.visited_pairs, p, d) {
            self.guard.will_loop = true;
        } else {
            self.guard.visited_pairs.push((p, d));
            if !contains_position(&self.guard.visited_positions, p) {
                self.guard.visited_positions.push(p);
            }
        }
    }

    /// Walks the guard until it steps outside the bounds or revisits an
    /// exact (position, direction) pair.  Returns whether the walk ended
    /// by detecting a loop; the outcome and the final state are exactly
    /// those of the mathematical traversal [`run`].
    #[verifier::loop_isolation(false)]
    fn traverse(&mut self) -> (looped: bool)
        requires
            1 <= old(self)@.width <= i32::MAX,
            1 <= old(self)@.height <= i32::MAX,
            old(self)@.guard.consistent(),
            !old(self)@.guard.will_loop,
            state_wf(old(self)@.width, old(self)@.height, old(self)@.guard.model()),
        ensures
            final(self)@.width == old(self)@.width,
            final(self)@.height == old(self)@.height,
            final(self)@.obstacles == old(self)@.obstacles,
            final(self)@.initial == old(self)@.initial,
            final(self)@.guard.consistent(),
            final(self)@.guard.will_loop == looped,
            state_wf(old(self)@.width, old(self)@.height, final(self)@.guard.model()),
            run(
                old(self)@.width,
                old(self)@.height,
                old(self)@.obstacle_set(),
                old(self)@.guard.model(),
                fuel_bound(old(self)@.width, old(self)@.height),
            ) == Some((looped, final(self)@.guard.model())),
    {
        let ghost a0 = self@;
        let ghost w = a0.width;
        let ghost h = a0.height;
        let ghost obst = a0.obstacle_set();
        let ghost s0 = a0.guard.model();
        let ghost mut fuel: nat = fuel_bound(w, h);
        proof {
            assert(4 * w * h >= 4) by (nonlinear_arith)
                requires
                    1 <= w,
                    1 <= h,
            ;
        }
        loop
            invariant
                self@.width == w,
                self@.height == h,
                self@.obstacles == a0.obstacles,
                self@.initial == a0.initial,
                obst == self@.obstacle_set(),
                1 <= w <= i32::MAX,
                1 <= h <= i32::MAX,
                self@.guard.consistent(),
                !self@.guard.will_loop,
                state_wf(w, h, self@.guard.model()),
                fuel > 4 * w * h - self@.guard.model().pairs.len(),
                run(w, h, obst, s0, fuel_bound(w, h)) == run(w, h, obst, self@.guard.model(), fuel),
            decreases fuel,
        {
            let ghost cur = self@.guard.model();
            proof {
                lemma_pairs_card(w, h, cur.pairs);
                assert(fuel >= 1);
            }
            let front = self.position_in_front();
            let ghost ahead = Position {
                x: front_x(cur.pos, cur.dir) as i32,
                y: front_y(cur.pos, cur.dir) as i32,
            };
            if !self.position_in_bounds(&front) {
                proof {
                    assert(step(w, h, obst, cur) == StepResult::Exited);
                    assert(run(w, h, obst, cur, fuel) == Some((false, cur)));
                }
                return false;
            }
            proof {
                assert(front == ahead);
            }
            if contains_position(&self.obstacles, front) {
                proof {
                    assert(obst.contains(ahead));
                }
                self.guard.direction = rotate(self.guard.direction);
            } else {
                proof {
                    assert(!obst.contains(ahead));
                }
                self.guard.position = front;
            }
            let ghost pos2 = self@.guard.pos;
            let ghost dir2 = self@.guard.dir;
            let ghost pairs_before = self@.guard.pairs;
            let ghost positions_before = self@.guard.positions;
            proof {
                assert(in_bounds(w, h, pos2.x as int, pos2.y as int));
            }
            self.visit();
            if self.guard.will_loop {
                proof {
                    let t = GuardModel {
                        pos: pos2,
                        dir: dir2,
                        pairs: cur.pairs,
                        positions: cur.positions,
                    };
                    assert(cur.pairs.contains((pos2, dir2)));
                    assert(step(w, h, obst, cur) == StepResult::Looped(t));
                    assert(run(w, h, obst, cur, fuel) == Some((true, t)));
                    assert(self@.guard.model() == t);
                    assert(state_wf(w, h, t));
                }
                return true;
            }
            proof {
                let pd = (pos2, dir2);
                let m: GuardModel = GuardModel {
                    pos: pos2,
                    dir: dir2,
                    pairs: cur.pairs.insert(pd),
                    positions: cur.positions.insert(pos2),
                };
                assert(!cur.pairs.contains(pd));
                assert(step(w, h, obst, cur) == StepResult::Moved(m));
                lemma_step_moved_wf(w, h, obst, cur, m);
                assert(self@.guard.pairs.to_set() =~= cur.pairs.insert(pd)) by {
                    pairs_before.lemma_push_to_set_commute(pd);
                }
                assert(self@.guard.positions.to_set() =~= cur.positions.insert(pos2)) by {
                    if positions_before.contains(pos2) {
                        assert(cur.positions.contains(pos2));
                        assert(cur.positions.insert(pos2) =~= cur.positions);
                    } else {
                        positions_before.lemma_push_to_set_commute(pos2);
                    }
                }
                assert(self@.guard.model() == m);
                assert(run(w, h, obst, cur, fuel) == run(w, h, obst, m, (fuel - 1) as nat));
                fuel = (fuel - 1) as nat;
            }
        }
    }

    /// Runs one full traversal from the initial state, returns the number
    /// of distinct positions visited, and resets the guard.  The area is
    /// left exactly as it was, so the count is the same on every call,
    /// and it always lies between 1 and `width * height`.
    pub fn how_many_distinct_positions(&mut self) -> (count: usize)
        requires
            old(self)@.wf(),
        ensures
            final(self)@ == old(self)@,
            count == old(self)@.distinct_positions(),
            1 <= count <= old(self)@.width * old(self)@.height,
    {
        let ghost a0 = self@;
        proof {
            assert(4 * a0.width * a0.height >= 4) by (nonlinear_arith)
                requires
                    1 <= a0.width,
                    1 <= a0.height,
            ;
            lemma_run_terminates(
                a0.width,
                a0.height,
                a0.obstacle_set(),
                a0.guard.model(),
                fuel_bound(a0.width, a0.height),
            );
        }
        let _looped = self.traverse();
        let count = self.guard.visited_positions.len();
        proof {
            broadcast use vstd::seq_lib::seq_to_set_is_finite;
            broadcast use vstd::set::group_set_axioms;

            let m = self@.guard.model();
            self@.guard.positions.unique_seq_to_set();
            assert(count == m.positions.len());
            assert(m.positions.contains(m.pos)) by {
                assert(m.pairs.contains((m.pos, m.dir)));
            }
            assert(count >= 1);
            assert forall|p: Position| m.positions.contains(p) implies in_bounds(
                a0.width,
                a0.height,
                #[trigger] p.x as int,
                p.y as int,
            ) by {
                assert(positions_of(m.pairs).contains(p));
                assert(exists|d: Direction| m.pairs.contains((p, d)));
                let d = choose|d: Direction| m.pairs.contains((p, d));
                assert(m.pairs.contains((p, d)));
            }
            lemma_positions_card(a0.width, a0.height, m.positions);
        }
        self.reset();
        count
    }

    /// First discovers every position the unobstructed run visits, then
    /// tries each of them except the start as a hypothetical new obstacle:
    /// insert it, re-run the traversal, record whether the run looped,
    /// remove it again, and reset.  Returns how many candidates induce a
    /// loop; the obstacle set and the guard are restored exactly.
    pub fn how_many_unique_new_obstacles_cause_a_loop(&mut self) -> (count: usize)
        requires
            old(self)@.wf(),
        ensures
            final(self)@ == old(self)@,
            count == old(self)@.loop_candidates().len(),
    {
        let ghost a0 = self@;
        proof {
            assert(4 * a0.width * a0.height >= 4) by (nonlinear_arith)
                requires
                    1 <= a0.width,
                    1 <= a0.height,
            ;
            lemma_run_terminates(
                a0.width,
                a0.height,
                a0.obstacle_set(),
                a0.guard.model(),
                fuel_bound(a0.width, a0.height),
            );
        }
        let _looped = self.traverse();
        let traveled = copy_positions(&self.guard.visited_positions);
        self.reset();
        proof {
            assert(self@ == a0);
            assert(traveled@.to_set() == traversal_positions(
                a0.width,
                a0.height,
                a0.obstacle_set(),
                a0.initial.model(),
            ));
        }
        let start = self.initial_guard.position;
        let mut count: usize = 0;
        let mut i: usize = 0;
        while i < traveled.len()
            invariant
                self@ == a0,
                a0.wf(),
                i <= traveled@.len(),
                traveled@.no_duplicates(),
                start == a0.initial.pos,
                count == candidate_count(a0, traveled@.take(i as int)),
                count <= i,
            decreases traveled@.len() - i,
        {
            let candidate = traveled[i];
            if !(candidate == start) {
                self.obstacles.push(candidate);
                proof {
                    a0.obstacles.lemma_push_to_set_commute(candidate);
                    assert(self@.obstacle_set() == a0.obstacle_set().insert(candidate));
                    assert(4 * a0.width * a0.height >= 4) by (nonlinear_arith)
                        requires
                            1 <= a0.width,
                            1 <= a0.height,
                    ;
                    lemma_run_terminates(
                        a0.width,
                        a0.height,
                        a0.obstacle_set().insert(candidate),
                        a0.initial.model(),
                        fuel_bound(a0.width, a0.height),
                    );
                }
                let is_loop = self.traverse();
                proof {
                    assert(is_loop == a0.causes_loop(candidate));
                }
                let _removed = self.obstacles.pop();
                self.reset();
                proof {
                    assert(self@.obstacles =~= a0.obstacles);
                    assert(self@ == a0);
                }
                if is_loop {
                    count = count + 1;
                }
            }
            proof {
                assert(traveled@.take(i + 1).drop_last() =~= traveled@.take(i as int));
                assert(traveled@.take(i + 1).last() == traveled@[i as int]);
            }
            i = i + 1;
        }
        proof {
            assert(traveled@.take(traveled@.len() as int) =~= traveled@);
            lemma_candidate_count_card(a0, traveled@);
            assert(traveled@.to_set().remove(a0.initial.pos).filter(
                |p: Position| a0.causes_loop(p),
            ) =~= a0.loop_candidates());
        }
        count
    }
}

/// How many entries of `s` are loop-inducing candidates for `a`: not the
/// start position, and looping once turned into an obstacle.
spec fn candidate_count(a: AreaView, s: Seq<Position>) -> int
    decreases s.len(),
{
    if s.len() == 0 {
        0
    } else {
        candidate_count(a, s.drop_last()) + if s.last() != a.initial.pos && a.causes_loop(
            s.last(),
        ) {
            1int
        } else {
            0int
        }
    }
}

/// For a duplicate-free sequence, counting matching entries is the
/// cardinality of the matching subset.
proof fn lemma_candidate_count_card(a: AreaView, s: Seq<Position>)
    requires
        s.no_duplicates(),
    ensures
        s.to_set().remove(a.initial.pos).filter(|p: Position| a.causes_loop(p)).len()
            == candidate_count(a, s),
        s.to_set().remove(a.initial.pos).filter(|p: Position| a.causes_loop(p)).finite(),
    decreases s.len(),
{
    broadcast use vstd::seq_lib::seq_to_set_is_finite;
    broadcast use vstd::set::group_set_axioms;

    let g = |p: Position| a.causes_loop(p);
    if s.len() == 0 {
        assert(s.to_set() =~= Set::<Position>::empty());
        assert(s.to_set().remove(a.initial.pos).filter(g) =~= Set::<Position>::empty());
    } else {
        let rest = s.drop_last();
        let last = s.last();
        assert(rest.no_duplicates());
        lemma_candidate_count_card(a, rest);
        assert(s =~= rest.push(last));
        rest.lemma_push_to_set_commute(last);
        assert(s.to_set() == rest.to_set().insert(last));
        assert(!rest.contains(last));
        assert(!rest.to_set().contains(last));
        let fs = s.to_set().remove(a.initial.pos).filter(g);
        let fr = rest.to_set().remove(a.initial.pos).filter(g);
        if last != a.initial.pos && a.causes_loop(last) {
            assert(fs =~= fr.insert(last));
        } else {
            assert(fs =~= fr);
        }
    }
}

/// Loop detection is sound and traversals are bounded: from any
/// well-formed rest state the walk finishes within `4 * width * height`
/// steps — revisiting an exact (position, direction) pair ends it with a
/// loop verdict, and the finite state space admits no unbounded run.
pub proof fn lemma_traversal_terminates(a: AreaView)
    requires
        a.wf(),
    ensures
        run(a.width, a.height, a.obstacle_set(), a.initial.model(), fuel_bound(a.width, a.height))
            is Some,
{
    assert(4 * a.width * a.height >= 4) by (nonlinear_arith)
        requires
            1 <= a.width,
            1 <= a.height,
    ;
    lemma_run_terminates(
        a.width,
        a.height,
        a.obstacle_set(),
        a.initial.model(),
        fuel_bound(a.width, a.height),
    );
}

/// The guard's starting position is never among the loop-inducing
/// candidates: inserting an obstacle there is never attempted.
pub proof fn lemma_start_not_a_candidate(a: AreaView)
    ensures
        !a.loop_candidates().contains(a.initial.pos),
{
}

/// Why a text grid was rejected at construction time.
#[derive(Clone, Copy, PartialEq, Eq, Structural, Debug)]
pub enum InputError {
    /// The lines of the grid do not all have the same positive length.
    NotRectangular,
    /// The grid has no `^` marker for the guard's starting cell.
    MissingAgent,
    /// A dimension of the grid does not fit in an `i32`.
    TooLarge,
}

/// `w` is the length of the first line of `s`.
pub open spec fn is_line_width(s: Seq<char>, w: int) -> bool {
    &&& 0 <= w <= s.len()
    &&& forall|j: int| 0 <= j < w ==> s[j] != '\n'
    &&& w < s.len() ==> s[w] == '\n'
}

/// `s` is a rectangular grid of `h` lines of `w` cells each, the lines
/// separated by single newlines: every index congruent to `w` modulo
/// `w + 1` holds a newline and no other index does.
pub open spec fn grid_shape(s: Seq<char>, w: int, h: int) -> bool {
    &&& 1 <= w
    &&& 1 <= h
    &&& s.len() == h * (w + 1) - 1
    &&& forall|i: int| 0 <= i < s.len() ==> ((s[i] == '\n') <==> i % (w + 1) == w)
}

/// `s` is a rectangular grid for some dimensions.
pub open spec fn rect_shape(s: Seq<char>) -> bool {
    exists|w: int, h: int| grid_shape(s, w, h)
}

/// Any dimensions that shape `s` fit in `i32`.
pub open spec fn size_ok(s: Seq<char>) -> bool {
    forall|w: int, h: int| grid_shape(s, w, h) ==> w <= i32::MAX && h <= i32::MAX
}

/// `s` holds a guard marker somewhere.
pub open spec fn has_marker(s: Seq<char>) -> bool {
    exists|i: int| 0 <= i < s.len() && s[i] == '^'
}

/// `i` is the index of the last guard marker of `s`.
pub open spec fn is_last_marker(s: Seq<char>, i: int) -> bool {
    &&& 0 <= i < s.len()
    &&& s[i] == '^'
    &&& forall|j: int| i < j < s.len() ==> s[j] != '^'
}

/// A text grid an [`Area`] can be built from: rectangular, within `i32`
/// dimensions, with a guard marker.
pub open spec fn text_valid(s: Seq<char>) -> bool {
    rect_shape(s) && size_ok(s) && has_marker(s)
}

/// The cells of `s` holding an obstacle mark, among the first `n`
/// characters.
pub open spec fn grid_obstacles_upto(s: Seq<char>, w: int, n: int) -> Set<Position> {
    Set::new(
        |p: Position|
            {
                &&& 0 <= p.x < w
                &&& 0 <= p.y
                &&& p.y * (w + 1) + p.x < n
                &&& s[p.y * (w + 1) + p.x] == '#'
            },
    )
}

/// The cells of `s` holding an obstacle mark.
pub open spec fn grid_obstacles(s: Seq<char>, w: int) -> Set<Position> {
    grid_obstacles_upto(s, w, s.len() as int)
}

/// A rectangular grid determines its own line width.
proof fn lemma_grid_shape_width(s: Seq<char>, w: int, h: int)
    requires
        grid_shape(s, w, h),
    ensures
        is_line_width(s, w),
{
    assert(s.len() == h * (w + 1) - 1);
    assert(h * (w + 1) >= 1 * (w + 1)) by (nonlinear_arith)
        requires
            1 <= h,
            0 < w + 1,
    ;
    assert forall|j: int| 0 <= j < w implies s[j] != '\n' by {
        vstd::arithmetic::div_mod::lemma_small_mod(j as nat, (w + 1) as nat);
        assert(j % (w + 1) == j);
    }
    if w < s.len() {
        vstd::arithmetic::div_mod::lemma_small_mod(w as nat, (w + 1) as nat);
        assert(w % (w + 1) == w);
    }
}

/// The first-line width is unique.
proof fn lemma_line_width_unique(s: Seq<char>, w1: int, w2: int)
    requires
        is_line_width(s, w1),
        is_line_width(s, w2),
    ensures
        w1 == w2,
{
    if w1 < w2 {
        assert(s[w1] == '\n');
        assert(s[w1] != '\n');
    }
    if w2 < w1 {
        assert(s[w2] == '\n');
        assert(s[w2] != '\n');
    }
}

/// The dimensions of a rectangular grid are unique.
proof fn lemma_grid_shape_unique(s: Seq<char>, w1: int, h1: int, w2: int, h2: int)
    requires
        grid_shape(s, w1, h1),
        grid_shape(s, w2, h2),
    ensures
        w1 == w2,
        h1 == h2,
{
    lemma_grid_shape_width(s, w1, h1);
    lemma_grid_shape_width(s, w2, h2);
    lemma_line_width_unique(s, w1, w2);
    assert(h1 * (w1 + 1) == h2 * (w1 + 1));
    assert(h1 == h2) by (nonlinear_arith)
        requires
            h1 * (w1 + 1) == h2 * (w1 + 1),
            w1 + 1 > 0,
    ;
}

impl Area {
    /// Builds an area from a text grid: `#` marks an obstacle, `^` the
    /// guard's starting cell (facing up; the last marker wins), `\n`
    /// separates the lines.  A non-rectangular grid, a grid without a
    /// marker, and a grid too large for `i32` coordinates are rejected,
    /// in that order of precedence.
    #[verifier::loop_isolation(false)]
    pub fn parse(input: &str) -> (r: Result<Area, InputError>)
        ensures
            (r is Ok) <==> text_valid(input@),
            (r == Err::<Area, InputError>(InputError::NotRectangular)) <==> !rect_shape(input@),
            (r == Err::<Area, InputError>(InputError::TooLarge)) <==> (rect_shape(input@)
                && !size_ok(input@)),
            (r == Err::<Area, InputError>(InputError::MissingAgent)) <==> (rect_shape(input@)
                && size_ok(input@) && !has_marker(input@)),
            r is Ok ==> {
                let a = r->Ok_0;
                &&& a@.wf()
                &&& grid_shape(input@, a@.width, a@.height)
                &&& a@.obstacles.to_set() == grid_obstacles(input@, a@.width)
                &&& a@.initial.dir == Direction::Up
                &&& 0 <= a@.initial.pos.x < a@.width
                &&& 0 <= a@.initial.pos.y < a@.height
                &&& is_last_marker(
                    input@,
                    a@.initial.pos.y * (a@.width + 1) + a@.initial.pos.x,
                )
                &&& a@.initial.pairs == seq![(a@.initial.pos, Direction::Up)]
                &&& a@.initial.positions == seq![a@.initial.pos]
                &&& a@.guard == a@.initial
            },
    {
        let v = crate::text::chars_of(input);
        let ghost s = input@;

        // The first line's width.
        let mut w: usize = 0;
        while w < v.len() && v[w] != '\n'
            invariant
                w <= s.len(),
                v@ == s,
                forall|j: int| 0 <= j < w ==> s[j] != '\n',
            decreases s.len() - w,
        {
            w = w + 1;
        }
        proof {
            assert(is_line_width(s, w as int));
        }
        if w == 0 {
            proof {
                assert(!rect_shape(s)) by {
                    if rect_shape(s) {
                        let (w2, h2) = choose|w2: int, h2: int| grid_shape(s, w2, h2);
                        lemma_grid_shape_width(s, w2, h2);
                        lemma_line_width_unique(s, 0, w2);
                    }
                }
            }
            return Err(InputError::NotRectangular);
        }

        // The number of lines, from the separator pattern.
        let h: usize;
        if w == v.len() {
            h = 1;
            proof {
                assert(grid_shape(s, w as int, 1)) by {
                    assert forall|i: int| 0 <= i < s.len() implies ((s[i] == '\n') <==> i % (
                    w + 1) == w) by {
                        vstd::arithmetic::div_mod::lemma_small_mod(i as nat, (w + 1) as nat);
                    }
                }
            }
        } else {
            let stride = w + 1;
            if v.len() % stride != w {
                proof {
                    assert(!rect_shape(s)) by {
                        if rect_shape(s) {
                            let (w2, h2) = choose|w2: int, h2: int| grid_shape(s, w2, h2);
                            lemma_grid_shape_width(s, w2, h2);
                            lemma_line_width_unique(s, w as int, w2);
                            assert((h2 - 1) * (w + 1) + w == h2 * (w + 1) - 1) by (nonlinear_arith);
                            vstd::arithmetic::div_mod::lemma_fundamental_div_mod_converse(
                                s.len() as int,
                                (w + 1) as int,
                                h2 - 1,
                                w as int,
                            );
                        }
                    }
                }
                return Err(InputError::NotRectangular);
            }
            proof {
                vstd::arithmetic::div_mod::lemma_div_is_strictly_smaller(
                    v.len() as int,
                    stride as int,
                );
            }
            h = v.len() / stride + 1;
            proof {
                vstd::arithmetic::div_mod::lemma_fundamental_div_mod(s.len() as int, stride as int);
                let q = s.len() as int / (stride as int);
                assert(s.len() == (stride as int) * q + w);
                assert((q + 1) * (w + 1) - 1 == (w + 1) * q + w) by (nonlinear_arith);
                assert(s.len() == (h as int) * (w + 1) - 1);
            }

            // Check every separator cell and nothing else holds a newline.
            let mut i: usize = 0;
            let mut col: usize = 0;
            while i < v.len()
                invariant
                    v@ == s,
                    i <= s.len(),
                    col == i as int % (w + 1),
                    1 <= w,
                    w < s.len(),
                    col <= w,
                    s.len() == (h as int) * (w + 1) - 1,
                    forall|j: int| 0 <= j < i ==> ((s[j] == '\n') <==> j % (w + 1) == w),
                decreases s.len() - i,
            {
                let c = v[i];
                let is_sep = c == '\n';
                if is_sep != (col == w) {
                    proof {
                        assert(!rect_shape(s)) by {
                            if rect_shape(s) {
                                let (w2, h2) = choose|w2: int, h2: int| grid_shape(s, w2, h2);
                                lemma_grid_shape_width(s, w2, h2);
                                lemma_line_width_unique(s, w as int, w2);
                            }
                        }
                    }
                    return Err(InputError::NotRectangular);
                }
                proof {
                    vstd::arithmetic::div_mod::lemma_fundamental_div_mod(
                        i as int,
                        (w + 1) as int,
                    );
                    let q = i as int / ((w + 1) as int);
                    assert(i as int == (w + 1) * q + col);
                    assert(q * (w + 1) == (w + 1) * q) by (nonlinear_arith);
                    assert((q + 1) * (w + 1) == q * (w + 1) + (w + 1)) by (nonlinear_arith);
                    if col == w {
                        vstd::arithmetic::div_mod::lemma_fundamental_div_mod_converse(
                            i + 1,
                            (w + 1) as int,
                            q + 1,
                            0,
                        );
                    } else {
                        vstd::arithmetic::div_mod::lemma_fundamental_div_mod_converse(
                            i + 1,
                            (w + 1) as int,
                            q,
                            col + 1,
                        );
                    }
                }
                if col == w {
                    col = 0;
                } else {
                    col = col + 1;
                }
                i = i + 1;
            }
            proof {
                assert(grid_shape(s, w as int, h as int));
            }
        }
        proof {
            assert(rect_shape(s));
        }

        // Bounds for `i32` coordinates.
        if w > i32::MAX as usize || h > i32::MAX as usize {
            proof {
                assert(grid_shape(s, w as int, h as int));
                assert(!size_ok(s));
            }
            return Err(InputError::TooLarge);
        }
        proof {
            assert(size_ok(s)) by {
                assert forall|w2: int, h2: int| grid_shape(s, w2, h2) implies w2 <= i32::MAX
                    && h2 <= i32::MAX by {
                    lemma_grid_shape_unique(s, w as int, h as int, w2, h2);
                }
            }
        }

        // The last guard marker.
        let mut marker: usize = 0;
        let mut found = false;
        let mut i: usize = 0;
        while i < v.len()
            invariant
                v@ == s,
                i <= s.len(),
                found <==> exists|j: int| 0 <= j < i && s[j] == '^',
                found ==> marker < i && s[marker as int] == '^' && (forall|j: int|
                    marker < j < i ==> s[j] != '^'),
            decreases s.len() - i,
        {
            if v[i] == '^' {
                marker = i;
                found = true;
            }
            i = i + 1;
        }
        if !found {
            return Err(InputError::MissingAgent);
        }
        proof {
            assert(is_last_marker(s, marker as int));
        }

        let stride = w + 1;
        let mx = marker % stride;
        let my = marker / stride;
        proof {
            vstd::arithmetic::div_mod::lemma_fundamental_div_mod(marker as int, stride as int);
            vstd::arithmetic::div_mod::lemma_mod_pos_bound(marker as int, stride as int);
            assert((my as int) * (w + 1) == (w + 1) * (my as int)) by (nonlinear_arith);
            assert(mx != w) by {
                assert(s[marker as int] != '\n');
            }
            assert(my < h) by {
                let hs: int = h as int;
                let st: int = stride as int;
                assert(hs * st == st * hs) by (nonlinear_arith);
                assert(marker < st * hs);
                vstd::arithmetic::div_mod::lemma_multiply_divide_lt(marker as int, st, hs);
            }
        }

        // The obstacles, cell by cell.
        let mut obstacles: Vec<Position> = Vec::new();
        let mut i: usize = 0;
        let mut col: usize = 0;
        let mut row: usize = 0;
        while i < v.len()
            invariant
                v@ == s,
                i <= s.len(),
                1 <= w <= i32::MAX,
                1 <= h <= i32::MAX,
                grid_shape(s, w as int, h as int),
                col == i as int % (w + 1),
                row == i as int / (w + 1),
                col <= w,
                row < h,
                obstacles@.to_set() == grid_obstacles_upto(s, w as int, i as int),
            decreases s.len() - i,
        {
            proof {
                vstd::arithmetic::div_mod::lemma_fundamental_div_mod(i as int, (w + 1) as int);
                assert(i as int == (w + 1) * row + col);
                assert(row * (w + 1) == (w + 1) * row) by (nonlinear_arith);
            }
            if v[i] == '#' {
                proof {
                    assert(col != w) by {
                        assert(s[i as int] != '\n');
                    }
                }
                let p = Position { x: col as i32, y: row as i32 };
                let ghost obs_prev = obstacles@;
                obstacles.push(p);
                proof {
                    obs_prev.lemma_push_to_set_commute(p);
                    assert(obstacles@.to_set() == obs_prev.to_set().insert(p));
                    assert(grid_obstacles_upto(s, w as int, i + 1) =~= grid_obstacles_upto(
                        s,
                        w as int,
                        i as int,
                    ).insert(p)) by {
                        assert forall|q: Position|
                            grid_obstacles_upto(s, w as int, i + 1).contains(q)
                            implies grid_obstacles_upto(s, w as int, i as int).insert(p).contains(
                            q,
                        ) by {
                            if q.y * (w + 1) + q.x == i as int {
                                vstd::arithmetic::div_mod::lemma_fundamental_div_mod_converse(
                                    i as int,
                                    (w + 1) as int,
                                    q.y as int,
                                    q.x as int,
                                );
                                assert(q == p);
                            }
                        }
                        assert(p.y * (w + 1) + p.x == i as int);
                    }
                }
            } else {
                proof {
                    assert(grid_obstacles_upto(s, w as int, i + 1) =~= grid_obstacles_upto(
                        s,
                        w as int,
                        i as int,
                    )) by {
                        assert forall|q: Position|
                            grid_obstacles_upto(s, w as int, i + 1).contains(q)
                            implies grid_obstacles_upto(s, w as int, i as int).contains(q) by {
                            if q.y * (w + 1) + q.x == i as int {
                                vstd::arithmetic::div_mod::lemma_fundamental_div_mod_converse(
                                    i as int,
                                    (w + 1) as int,
                                    q.y as int,
                                    q.x as int,
                                );
                            }
                        }
                    }
                }
            }
            proof {
                assert((h as int - 1) * (w + 1) + w == (h as int) * (w + 1) - 1)
                    by (nonlinear_arith);
                vstd::arithmetic::div_mod::lemma_fundamental_div_mod_converse(
                    s.len() as int,
                    (w + 1) as int,
                    h as int - 1,
                    w as int,
                );
                assert((row + 1) * (w + 1) == row * (w + 1) + (w + 1)) by (nonlinear_arith);
                if col == w {
                    vstd::arithmetic::div_mod::lemma_fundamental_div_mod_converse(
                        i + 1,
                        (w + 1) as int,
                        row + 1,
                        0,
                    );
                    vstd::arithmetic::div_mod::lemma_div_is_ordered(
                        i + 1,
                        s.len() as int,
                        (w + 1) as int,
                    );
                } else {
                    vstd::arithmetic::div_mod::lemma_fundamental_div_mod_converse(
                        i + 1,
                        (w + 1) as int,
                        row as int,
                        col + 1,
                    );
                }
            }
            if col == w {
                col = 0;
                row = row + 1;
            } else {
                col = col + 1;
            }
            i = i + 1;
        }

        let start = Position { x: mx as i32, y: my as i32 };
        let guard = Guard::new(start, Direction::Up);
        proof {
            assert(state_wf(w as int, h as int, guard@.model())) by {
                assert(guard@.pairs.contains((start, Direction::Up))) by {
                    assert(guard@.pairs[0] == (start, Direction::Up));
                }
                assert forall|pd: (Position, Direction)| #[trigger]
                    guard@.pairs.to_set().contains(pd) implies in_bounds(
                    w as int,
                    h as int,
                    pd.0.x as int,
                    pd.0.y as int,
                ) by {
                    assert(guard@.pairs.contains(pd));
                    assert(pd == (start, Direction::Up));
                }
            }
        }
        let area = Area::new(w as i32, h as i32, guard, obstacles);
        Ok(area)
    }
}

} // verus!
