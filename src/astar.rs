use vstd::prelude::*;

use crate::hyperparameters::{ASTAR_MAX_TRIALS, ASTAR_STRIDE, COORD_LIMIT, ESTIMATE_COEFFICIENT};
use crate::trace_path::{
    sgn, abs, anchors_in_range, lemma_aligned_decompose, segments_of, step_count, step_direction,
    step_length, step_parts, valid_anchors, valid_step, Direction, PathLength, TracePath,
    MAX_ANCHORS,
};
use crate::vec2::{in_range, odd_odd, sum_even, FixedVec2};

verus! {

/// The oracle reported the segment `a -> b` free of obstacles.
pub open spec fn reported_free<F: Fn(FixedVec2, FixedVec2) -> bool>(
    f: F,
    a: FixedVec2,
    b: FixedVec2,
) -> bool {
    f.ensures((a, b), false)
}

/// The oracle reported the segment `a -> b` blocked.
pub open spec fn reported_blocked<F: Fn(FixedVec2, FixedVec2) -> bool>(
    f: F,
    a: FixedVec2,
    b: FixedVec2,
) -> bool {
    f.ensures((a, b), true)
}

/// The oracle may be called on any segment.
pub open spec fn callable<F: Fn(FixedVec2, FixedVec2) -> bool>(f: F) -> bool {
    forall|a: FixedVec2, b: FixedVec2| f.requires((a, b))
}

/// Coordinates that may appear transiently, within twice the bound.
pub open spec fn near_range(p: FixedVec2) -> bool {
    -2 * COORD_LIMIT <= p.x <= 2 * COORD_LIMIT && -2 * COORD_LIMIT <= p.y <= 2 * COORD_LIMIT
}

/// A coordinate on the search lattice.
pub open spec fn on_lattice(v: int) -> bool {
    v % (ASTAR_STRIDE as int) == 0
}

/// The largest lattice coordinate strictly below `v`.
pub open spec fn lattice_below(v: int) -> int {
    if v % (ASTAR_STRIDE as int) == 0 {
        v - ASTAR_STRIDE
    } else {
        v - v % (ASTAR_STRIDE as int)
    }
}

/// The smallest lattice coordinate strictly above `v`.
pub open spec fn lattice_above(v: int) -> int {
    v - v % (ASTAR_STRIDE as int) + ASTAR_STRIDE
}

/// The point `len` steps from `p` along `d`.
pub open spec fn step_point(p: FixedVec2, d: Direction, len: int) -> FixedVec2 {
    FixedVec2 { x: (p.x + d.dx() * len) as i32, y: (p.y + d.dy() * len) as i32 }
}

/// The exact octile distance between two points, as `(axis, diagonal)`
/// coefficients of `axis + diagonal * sqrt(2)`.
pub open spec fn octile(a: FixedVec2, b: FixedVec2) -> (int, int) {
    let dx = abs(b.x - a.x);
    let dy = abs(b.y - a.y);
    if dx >= dy {
        (dx - dy, dy)
    } else {
        (dy - dx, dx)
    }
}

/// `a + b * sqrt(2) < 0`, decided exactly on integers.
pub open spec fn sqrt2_negative(a: int, b: int) -> bool {
    if a <= 0 && b <= 0 {
        a < 0 || b < 0
    } else if a >= 0 && b >= 0 {
        false
    } else if a > 0 {
        a * a < 2 * (b * b)
    } else {
        2 * (b * b) < a * a
    }
}

/// Lattice coordinates are even, so every lattice vertex is sum-even.
proof fn lemma_lattice_even(v: int)
    requires
        v % (ASTAR_STRIDE as int) == 0,
    ensures
        v % 2 == 0,
{
    assert(v == 326 * (v / 326));
    assert(v == 2 * (163 * (v / 326)));
}

/// On a lattice anti-diagonal (`x + y` on the lattice) the next lattice
/// vertices lie an equal distance away along both axes, and likewise on a
/// lattice diagonal (`x - y` on the lattice).
proof fn lemma_lattice_pairs(x: int, y: int)
    ensures
        on_lattice(x + y) ==> x - lattice_below(x) == lattice_above(y) - y && lattice_above(x) - x
            == y - lattice_below(y),
        on_lattice(x - y) ==> lattice_above(x) - x == lattice_above(y) - y && x - lattice_below(x)
            == y - lattice_below(y),
{
    let s = ASTAR_STRIDE as int;
    let rx = x % s;
    let ry = y % s;
    assert(x == s * (x / s) + rx);
    assert(y == s * (y / s) + ry);
    if on_lattice(x + y) {
        assert((x + y) == s * ((x + y) / s));
        assert(rx + ry == 0 || rx + ry == s);
    }
    if on_lattice(x - y) {
        assert((x - y) == s * ((x - y) / s));
        assert(rx == ry);
    }
}

fn clamp_down(v: i32) -> (r: i32)
    requires
        -4 * COORD_LIMIT <= v <= 4 * COORD_LIMIT,
    ensures
        r == lattice_below(v as int),
        on_lattice(r as int),
        v - ASTAR_STRIDE <= r < v,
{
    let m = match v.checked_rem_euclid(ASTAR_STRIDE) {
        Some(m) => m,
        None => 0,
    };
    if m == 0 {
        v - ASTAR_STRIDE
    } else {
        v - m
    }
}

fn clamp_up(v: i32) -> (r: i32)
    requires
        -4 * COORD_LIMIT <= v <= 4 * COORD_LIMIT,
    ensures
        r == lattice_above(v as int),
        on_lattice(r as int),
        v < r <= v + ASTAR_STRIDE,
{
    let m = match v.checked_rem_euclid(ASTAR_STRIDE) {
        Some(m) => m,
        None => 0,
    };
    v - m + ASTAR_STRIDE
}

fn is_lattice(v: i64) -> (r: bool)
    ensures
        r == on_lattice(v as int),
{
    match v.checked_rem_euclid(ASTAR_STRIDE as i64) {
        Some(m) => m == 0,
        None => false,
    }
}

fn half(v: i32) -> (r: i32)
    ensures
        r == v / 2,
{
    match v.checked_div_euclid(2) {
        Some(h) => h,
        None => 0,
    }
}

/// The point with the given `x + y` and `y - x`, both of one parity.
fn from_sum_difference(sum: i32, difference: i32) -> (r: FixedVec2)
    requires
        -8 * COORD_LIMIT <= sum <= 8 * COORD_LIMIT,
        -8 * COORD_LIMIT <= difference <= 8 * COORD_LIMIT,
        (sum - difference) % 2 == 0,
    ensures
        r.x + r.y == sum,
        r.y - r.x == difference,
{
    FixedVec2::new(half(sum - difference), half(sum + difference))
}

/// `u * v` for a unit factor `u`.
fn mul_unit(u: i32, v: i64) -> (r: i64)
    requires
        -1 <= u <= 1,
        -COST_BOUND <= v <= COST_BOUND,
    ensures
        r == u * v,
        -COST_BOUND <= r <= COST_BOUND,
{
    if u == 0 {
        0
    } else if u == 1 {
        v
    } else {
        assert(u * v == -v) by (nonlinear_arith)
            requires
                u == -1,
        ;
        -v
    }
}

/// The exact octile distance between two points in range.
pub fn octile_distance(a: &FixedVec2, b: &FixedVec2) -> (r: PathLength)
    requires
        in_range(*a),
        in_range(*b),
    ensures
        r.axis == octile(*a, *b).0,
        r.diagonal == octile(*a, *b).1,
        0 <= r.axis <= 4 * COORD_LIMIT,
        0 <= r.diagonal <= 4 * COORD_LIMIT,
{
    let dx: i64 = b.x as i64 - a.x as i64;
    let dy: i64 = b.y as i64 - a.y as i64;
    let dx: i64 = if dx < 0 { -dx } else { dx };
    let dy: i64 = if dy < 0 { -dy } else { dy };
    if dx >= dy {
        PathLength { axis: dx - dy, diagonal: dy }
    } else {
        PathLength { axis: dy - dx, diagonal: dx }
    }
}

/// Bound on the magnitude of a cost coefficient.
pub const COST_BOUND: i64 = 1099511627776;

/// The search's estimate of the remaining cost from `a` to `b`: the octile
/// distance scaled by `ESTIMATE_COEFFICIENT`.
fn estimate(a: &FixedVec2, b: &FixedVec2) -> (r: PathLength)
    requires
        in_range(*a),
        in_range(*b),
    ensures
        r.axis == octile(*a, *b).0 * ESTIMATE_COEFFICIENT,
        r.diagonal == octile(*a, *b).1 * ESTIMATE_COEFFICIENT,
        0 <= r.axis <= 4 * COORD_LIMIT,
        0 <= r.diagonal <= 4 * COORD_LIMIT,
{
    let h = octile_distance(a, b);
    PathLength { axis: h.axis * ESTIMATE_COEFFICIENT, diagonal: h.diagonal * ESTIMATE_COEFFICIENT }
}

/// Whether the cost `a` is strictly smaller than the cost `b`, both read as
/// `axis + diagonal * sqrt(2)`.
pub fn cost_less(a: PathLength, b: PathLength) -> (r: bool)
    requires
        -COST_BOUND <= a.axis <= COST_BOUND,
        -COST_BOUND <= a.diagonal <= COST_BOUND,
        -COST_BOUND <= b.axis <= COST_BOUND,
        -COST_BOUND <= b.diagonal <= COST_BOUND,
    ensures
        r == sqrt2_negative(a.axis - b.axis, a.diagonal - b.diagonal),
{
    let da: i128 = a.axis as i128 - b.axis as i128;
    let db: i128 = a.diagonal as i128 - b.diagonal as i128;
    if da <= 0 && db <= 0 {
        da < 0 || db < 0
    } else if da >= 0 && db >= 0 {
        false
    } else {
        assert(0 <= da * da <= 4835703278458516698824704) by (nonlinear_arith)
            requires
                -2199023255552 <= da <= 2199023255552,
        ;
        assert(0 <= db * db <= 4835703278458516698824704) by (nonlinear_arith)
            requires
                -2199023255552 <= db <= 2199023255552,
        ;
        let aa: i128 = da * da;
        let bb: i128 = 2 * (db * db);
        if da > 0 {
            aa < bb
        } else {
            bb < aa
        }
    }
}

/// The point with coordinates `x` and `y`.
pub open spec fn point(x: int, y: int) -> FixedVec2 {
    FixedVec2 { x: x as i32, y: y as i32 }
}

/// The lattice neighbours of `p`, in the order Left, Right, Up, Down,
/// TopLeft, BottomRight, TopRight, BottomLeft: a pair of opposite
/// directions is present exactly when `p` lies on a lattice line of that
/// pair's family (`y`, `x`, `x + y` and `x - y` on the lattice), and each
/// leads to the next lattice coordinates along it.
pub open spec fn grid_neighbours(p: FixedVec2) -> Seq<(Direction, FixedVec2)> {
    let (x, y) = (p.x as int, p.y as int);
    let horizontal = if on_lattice(y) {
        seq![
            (Direction::Left, point(lattice_below(x), y)),
            (Direction::Right, point(lattice_above(x), y)),
        ]
    } else {
        Seq::empty()
    };
    let vertical = if on_lattice(x) {
        seq![
            (Direction::Up, point(x, lattice_above(y))),
            (Direction::Down, point(x, lattice_below(y))),
        ]
    } else {
        Seq::empty()
    };
    let anti = if on_lattice(x + y) {
        seq![
            (Direction::TopLeft, point(lattice_below(x), lattice_above(y))),
            (Direction::BottomRight, point(lattice_above(x), lattice_below(y))),
        ]
    } else {
        Seq::empty()
    };
    let diag = if on_lattice(x - y) {
        seq![
            (Direction::TopRight, point(lattice_above(x), lattice_above(y))),
            (Direction::BottomLeft, point(lattice_below(x), lattice_below(y))),
        ]
    } else {
        Seq::empty()
    };
    horizontal + vertical + anti + diag
}

/// Both parity rules for a clamped endpoint: sum-even and not odd-odd.
pub open spec fn parity_ok(p: FixedVec2) -> bool {
    sum_even(p) && !odd_odd(p)
}

/// The endpoint a free prefix of `m` steps along `d` clamps to: the prefix
/// itself when its end keeps the parity rules, else one step shorter, and
/// nothing when no length is left.
pub open spec fn backed_off(s: FixedVec2, d: Direction, m: int) -> Option<FixedVec2> {
    if m <= 0 {
        None
    } else if parity_ok(step_point(s, d, m)) {
        Some(step_point(s, d, m))
    } else if m - 1 > 0 && parity_ok(step_point(s, d, m - 1)) {
        Some(step_point(s, d, m - 1))
    } else {
        None
    }
}

/// Along the ray from `p` in direction `d`, every answer the oracle gives
/// for a length from 1 to `n` reports free exactly the lengths up to `m`.
pub open spec fn ray_threshold<F: Fn(FixedVec2, FixedVec2) -> bool>(
    f: F,
    p: FixedVec2,
    d: Direction,
    n: int,
    m: int,
) -> bool {
    forall|k: int, r: bool|
        1 <= k <= n && #[trigger] f.ensures((p, step_point(p, d, k)), r) ==> r == (k > m)
}

/// A single `DELTA` step keeps the parity rules exactly when it is a
/// diagonal step out of an odd-odd point. Out of a point with both
/// coordinates even, the one-step endpoint is sum-odd (axis moves) or
/// odd-odd (diagonal moves), so the parity back-off removes it.
pub proof fn lemma_single_step_parity(p: FixedVec2, d: Direction)
    requires
        near_range(p),
        sum_even(p),
    ensures
        odd_odd(p) && d.diagonal() ==> sum_even(step_point(p, d, 1)) && !odd_odd(
            step_point(p, d, 1),
        ),
        !odd_odd(p) ==> !sum_even(step_point(p, d, 1)) || odd_odd(step_point(p, d, 1)),
{
    let q = step_point(p, d, 1);
    assert(q.x == p.x + d.dx() && q.y == p.y + d.dy());
    assert(p.x == 2 * (p.x / 2) + p.x % 2);
    assert(p.y == 2 * (p.y / 2) + p.y % 2);
    match d {
        Direction::Up => {},
        Direction::Down => {},
        Direction::Left => {},
        Direction::Right => {},
        Direction::TopRight => {},
        Direction::TopLeft => {},
        Direction::BottomRight => {},
        Direction::BottomLeft => {},
    }
}

/// Moving `len > 0` steps along `d` is a valid step in direction `d`.
proof fn lemma_step_point(p: FixedVec2, d: Direction, len: int)
    requires
        near_range(p),
        0 < len <= 4 * COORD_LIMIT,
    ensures
        valid_step(p, step_point(p, d, len)),
        step_direction(p, step_point(p, d, len)) == d,
        step_count(p, step_point(p, d, len)) == len,
        step_point(p, d, len).x == p.x + d.dx() * len,
        step_point(p, d, len).y == p.y + d.dy() * len,
{
    match d {
        Direction::Up => {},
        Direction::Down => {},
        Direction::Left => {},
        Direction::Right => {},
        Direction::TopRight => {},
        Direction::TopLeft => {},
        Direction::BottomRight => {},
        Direction::BottomLeft => {},
    }
}

/// A valid step from `p` to `q` is `step_count` steps along its direction.
proof fn lemma_step_decompose(p: FixedVec2, q: FixedVec2)
    requires
        valid_step(p, q),
    ensures
        q.x == p.x + step_direction(p, q).dx() * step_count(p, q),
        q.y == p.y + step_direction(p, q).dy() * step_count(p, q),
        step_count(p, q) > 0,
{
    lemma_aligned_decompose(q.x - p.x, q.y - p.y);
}

/// The point `len` steps from `p` along `d`.
fn offset_point(p: FixedVec2, d: Direction, len: u32) -> (r: FixedVec2)
    requires
        near_range(p),
        len <= 4 * COORD_LIMIT,
    ensures
        r == step_point(p, d, len as int),
        r.x == p.x + d.dx() * len,
        r.y == p.y + d.dy() * len,
{
    let (dx, dy) = d.to_int_vec2();
    let l = len as i32;
    FixedVec2 { x: p.x + dx * l, y: p.y + dy * l }
}

/// The 2D cross product of a direction's unit step with `(vx, vy)`.
pub open spec fn cross(d: Direction, vx: int, vy: int) -> int {
    d.dx() * vy - d.dy() * vx
}

/// The point `j` steps from `s` along `d` lies on the line through `e`
/// along `d2`.
pub open spec fn on_line_through(s: FixedVec2, d: Direction, j: int, e: FixedVec2, d2: Direction) -> bool {
    cross(d2, s.x + d.dx() * j - e.x, s.y + d.dy() * j - e.y) == 0
}

/// The point `j` steps from `s` along `d` lies on one of the two lines
/// through `e` at an eighth turn from `d`.
pub open spec fn crosses_alignment(s: FixedVec2, d: Direction, j: int, e: FixedVec2) -> bool {
    ||| on_line_through(s, d, j, e, Direction::from_index((d.index() + 7) % 8))
    ||| on_line_through(s, d, j, e, Direction::from_index((d.index() + 1) % 8))
}

/// Directions an eighth turn apart are never parallel: their cross product
/// is one or minus one.
proof fn lemma_cross_45(d: Direction)
    ensures
        cross(Direction::from_index((d.index() + 7) % 8), d.dx(), d.dy()) == 1
            || cross(Direction::from_index((d.index() + 7) % 8), d.dx(), d.dy()) == -1,
        cross(Direction::from_index((d.index() + 1) % 8), d.dx(), d.dy()) == 1
            || cross(Direction::from_index((d.index() + 1) % 8), d.dx(), d.dy()) == -1,
{
    match d {
        Direction::Up => {
            assert((d.index() + 7) % 8 == 7);
            assert((d.index() + 1) % 8 == 1);
        },
        Direction::TopRight => {
            assert((d.index() + 7) % 8 == 0);
            assert((d.index() + 1) % 8 == 2);
        },
        Direction::Right => {
            assert((d.index() + 7) % 8 == 1);
            assert((d.index() + 1) % 8 == 3);
        },
        Direction::BottomRight => {
            assert((d.index() + 7) % 8 == 2);
            assert((d.index() + 1) % 8 == 4);
        },
        Direction::Down => {
            assert((d.index() + 7) % 8 == 3);
            assert((d.index() + 1) % 8 == 5);
        },
        Direction::BottomLeft => {
            assert((d.index() + 7) % 8 == 4);
            assert((d.index() + 1) % 8 == 6);
        },
        Direction::Left => {
            assert((d.index() + 7) % 8 == 5);
            assert((d.index() + 1) % 8 == 7);
        },
        Direction::TopLeft => {
            assert((d.index() + 7) % 8 == 6);
            assert((d.index() + 1) % 8 == 0);
        },
    }
}

/// The oracle gives at most one answer for each segment.
pub open spec fn answers_once<F: Fn(FixedVec2, FixedVec2) -> bool>(f: F) -> bool {
    forall|a: FixedVec2, b: FixedVec2, r1: bool, r2: bool|
        f.ensures((a, b), r1) && f.ensures((a, b), r2) ==> r1 == r2
}

/// The position of a direction in the listing `Direction::all_directions`.
pub open spec fn listing_order(d: Direction) -> int {
    match d {
        Direction::Up => 0,
        Direction::Down => 1,
        Direction::Left => 2,
        Direction::Right => 3,
        Direction::TopRight => 4,
        Direction::TopLeft => 5,
        Direction::BottomRight => 6,
        Direction::BottomLeft => 7,
    }
}

/// The micro-step of `2 * DELTA` along `d` was reported free while both
/// the quarter and the eighth turn to one side of `d` were reported blocked.
pub open spec fn hugs_obstacle<F: Fn(FixedVec2, FixedVec2) -> bool>(
    f: F,
    p: FixedVec2,
    d: Direction,
) -> bool {
    let side = |i: int| reported_blocked(f, p, step_point(p, Direction::from_index(i % 8), 2));
    &&& reported_free(f, p, step_point(p, d, 2))
    &&& (side(d.index() + 6) && side(d.index() + 7)) || (side(d.index() + 2) && side(
        d.index() + 1,
    ))
}

/// The router's search problem for one connection. Obstacles are not held
/// here: the search asks a collision oracle about each candidate segment.
pub struct AStarModel {
    pub width: i32,
    pub height: i32,
    pub start: FixedVec2,
    pub end: FixedVec2,
    pub trace_width: i32,
    pub trace_clearance: i32,
}

/// Why a search returned no path.
#[derive(Debug, Clone, Copy, PartialEq, Eq, Structural)]
pub enum AStarError {
    /// The expansion budget ran out.
    ExceededTrials,
    /// The frontier emptied before the goal was reached.
    NoPath,
}

/// The path found by a search.
pub struct AStarResult {
    pub trace_path: TracePath,
}

/// A search that ended without a path: why, the positions it expanded in
/// order, and the positions of every node it created (the start first).
pub struct AStarFailure {
    pub error: AStarError,
    pub expanded: Vec<FixedVec2>,
    pub reached: Vec<FixedVec2>,
}

/// No position occurs twice.
pub open spec fn no_duplicates(s: Seq<FixedVec2>) -> bool {
    forall|i: int, j: int| 0 <= i < j < s.len() ==> s[i] != s[j]
}

impl AStarModel {
    /// The direction from `position` to the goal when `position` lies on one
    /// of the four lines through the goal.
    pub fn is_aligned_with_end(&self, position: FixedVec2) -> (r: Option<Direction>)
        ensures
            r == (if valid_step(position, self.end) {
                Some(step_direction(position, self.end))
            } else {
                None
            }),
    {
        match Direction::from_points(position, self.end) {
            Ok(d) => Some(d),
            Err(_) => None,
        }
    }

    /// The lattice vertices one stride-step away from `position`, with the
    /// direction that leads to each; only the axes along which `position`
    /// itself lies on a lattice line take part.
    pub fn directions_to_grid_points(&self, position: FixedVec2) -> (r: Vec<(Direction, FixedVec2)>)
        requires
            near_range(position),
        ensures
            r@ == grid_neighbours(position),
            forall|i: int|
                0 <= i < r@.len() ==> on_lattice(#[trigger] r@[i].1.x as int) && on_lattice(
                    r@[i].1.y as int,
                ) && valid_step(position, r@[i].1) && step_direction(position, r@[i].1)
                    == r@[i].0,
    {
        let mut result: Vec<(Direction, FixedVec2)> = Vec::new();
        let x = position.x;
        let y = position.y;
        proof {
            lemma_lattice_pairs(x as int, y as int);
        }
        if is_lattice(y as i64) {
            proof { assert(on_lattice(y as int)); }
            result.push((Direction::Left, FixedVec2::new(clamp_down(x), y)));
            result.push((Direction::Right, FixedVec2::new(clamp_up(x), y)));
        }
        if is_lattice(x as i64) {
            result.push((Direction::Up, FixedVec2::new(x, clamp_up(y))));
            result.push((Direction::Down, FixedVec2::new(x, clamp_down(y))));
        }
        if is_lattice(x as i64 + y as i64) {
            result.push((Direction::TopLeft, FixedVec2::new(clamp_down(x), clamp_up(y))));
            result.push((Direction::BottomRight, FixedVec2::new(clamp_up(x), clamp_down(y))));
        }
        if is_lattice(x as i64 - y as i64) {
            result.push((Direction::TopRight, FixedVec2::new(clamp_up(x), clamp_up(y))));
            result.push((Direction::BottomLeft, FixedVec2::new(clamp_down(x), clamp_down(y))));
        }
        assert(result@ =~= grid_neighbours(position));
        result
    }

    /// The nearest point along `direction` that lies on a lattice line of
    /// that direction's family (a lattice row or column for axis moves, a
    /// lattice diagonal for diagonal moves).
    #[verifier::rlimit(40)]
    pub fn to_nearest_one_step_point(&self, position: &FixedVec2, direction: Direction) -> (r:
        FixedVec2)
        requires
            near_range(*position),
            sum_even(*position),
        ensures
            valid_step(*position, r),
            step_direction(*position, r) == direction,
            match direction {
                Direction::Up => r.x == position.x && r.y == lattice_above(position.y as int),
                Direction::Down => r.x == position.x && r.y == lattice_below(position.y as int),
                Direction::Left => r.y == position.y && r.x == lattice_below(position.x as int),
                Direction::Right => r.y == position.y && r.x == lattice_above(position.x as int),
                Direction::TopLeft => r.x + r.y == position.x + position.y && r.y - r.x
                    == lattice_above(position.y - position.x),
                Direction::BottomRight => r.x + r.y == position.x + position.y && r.y - r.x
                    == lattice_below(position.y - position.x),
                Direction::TopRight => r.y - r.x == position.y - position.x && r.x + r.y
                    == lattice_above(position.x + position.y),
                Direction::BottomLeft => r.y - r.x == position.y - position.x && r.x + r.y
                    == lattice_below(position.x + position.y),
            },
    {
        let x = position.x;
        let y = position.y;
        proof {
            lemma_lattice_even(lattice_above(y - x));
            lemma_lattice_even(lattice_below(y - x));
            lemma_lattice_even(lattice_above(x + y));
            lemma_lattice_even(lattice_below(x + y));
        }
        match direction {
            Direction::Up => FixedVec2::new(x, clamp_up(y)),
            Direction::Down => FixedVec2::new(x, clamp_down(y)),
            Direction::Left => FixedVec2::new(clamp_down(x), y),
            Direction::Right => FixedVec2::new(clamp_up(x), y),
            Direction::TopLeft => from_sum_difference(x + y, clamp_up(y - x)),
            Direction::BottomRight => from_sum_difference(x + y, clamp_down(y - x)),
            Direction::BottomLeft => from_sum_difference(clamp_down(x + y), y - x),
            Direction::TopRight => from_sum_difference(clamp_up(x + y), y - x),
        }
    }

    /// The first point of the segment `start_pos -> end_pos` (after
    /// `start_pos`) that lies on one of the two lines through the goal at an
    /// eighth turn from the segment's direction; `None` when neither line
    /// meets the segment.
    pub fn get_intersection_with_end_alignments(&self, start_pos: FixedVec2, end_pos: FixedVec2) -> (r:
        Option<FixedVec2>)
        requires
            valid_step(start_pos, end_pos),
            in_range(start_pos),
            in_range(end_pos),
            in_range(self.end),
        ensures
            match r {
                Some(p) => {
                    let d = step_direction(start_pos, end_pos);
                    let k = step_count(start_pos, p);
                    &&& valid_step(start_pos, p)
                    &&& step_direction(start_pos, p) == d
                    &&& k <= step_count(start_pos, end_pos)
                    &&& p == step_point(start_pos, d, k)
                    &&& crosses_alignment(start_pos, d, k, self.end)
                    &&& forall|j: int| 0 < j < k ==> !#[trigger] crosses_alignment(start_pos, d, j, self.end)
                },
                None => forall|j: int|
                    0 < j <= step_count(start_pos, end_pos) ==> !#[trigger] crosses_alignment(
                        start_pos,
                        step_direction(start_pos, end_pos),
                        j,
                        self.end,
                    ),
            },
    {
        let d = match Direction::from_points(start_pos, end_pos) {
            Ok(d) => d,
            Err(_) => { return None; },
        };
        proof {
            lemma_step_decompose(start_pos, end_pos);
            lemma_cross_45(d);
        }
        let n: i64 = {
            let dx: i64 = end_pos.x as i64 - start_pos.x as i64;
            let dy: i64 = end_pos.y as i64 - start_pos.y as i64;
            let ax: i64 = if dx < 0 { -dx } else { dx };
            let ay: i64 = if dy < 0 { -dy } else { dy };
            if ax >= ay { ax } else { ay }
        };
        assert(n == step_count(start_pos, end_pos));
        let (ddx, ddy) = d.to_int_vec2();
        let ex: i64 = self.end.x as i64 - start_pos.x as i64;
        let ey: i64 = self.end.y as i64 - start_pos.y as i64;
        let mut best: Option<FixedVec2> = None;
        let mut best_k: i64 = 0;
        let candidates = [d.left_45_dir(), d.right_45_dir()];
        let mut t: usize = 0;
        while t < 2
            invariant
                0 <= t <= 2,
                candidates@ == seq![
                    Direction::from_index((d.index() + 7) % 8),
                    Direction::from_index((d.index() + 1) % 8),
                ],
                d == step_direction(start_pos, end_pos),
                n == step_count(start_pos, end_pos),
                0 < n <= 2 * COORD_LIMIT,
                ddx == d.dx(),
                ddy == d.dy(),
                ex == self.end.x - start_pos.x,
                ey == self.end.y - start_pos.y,
                -2 * COORD_LIMIT <= ex <= 2 * COORD_LIMIT,
                -2 * COORD_LIMIT <= ey <= 2 * COORD_LIMIT,
                in_range(start_pos),
                cross(candidates@[0], d.dx(), d.dy()) == 1 || cross(candidates@[0], d.dx(), d.dy()) == -1,
                cross(candidates@[1], d.dx(), d.dy()) == 1 || cross(candidates@[1], d.dx(), d.dy()) == -1,
                match best {
                    Some(p) => 0 < best_k <= n && p == step_point(start_pos, d, best_k as int)
                        && crosses_alignment(start_pos, d, best_k as int, self.end),
                    None => true,
                },
                forall|tt: int, j: int|
                    0 <= tt < t && 0 < j <= n && #[trigger] on_line_through(
                        start_pos,
                        d,
                        j,
                        self.end,
                        candidates@[tt],
                    ) ==> best.is_some() && best_k <= j,
            decreases 2 - t,
        {
            let d2 = candidates[t];
            let (ax, ay) = d2.to_int_vec2();
            let c: i64 = mul_unit(ax, ddy as i64) - mul_unit(ay, ddx as i64);
            let ce: i64 = mul_unit(ax, ey) - mul_unit(ay, ex);
            assert(c == cross(d2, d.dx(), d.dy()));
            assert(-4 * COORD_LIMIT <= ce <= 4 * COORD_LIMIT) by (nonlinear_arith)
                requires
                    ce == ax * ey - ay * ex,
                    -1 <= ax <= 1,
                    -1 <= ay <= 1,
                    -2 * COORD_LIMIT <= ex <= 2 * COORD_LIMIT,
                    -2 * COORD_LIMIT <= ey <= 2 * COORD_LIMIT,
            ;
            let k: i64 = if c == 1 { ce } else { -ce };
            proof {
                assert forall|j: int| #[trigger] on_line_through(start_pos, d, j, self.end, d2) <==> j == k by {
                    let px = start_pos.x + d.dx() * j;
                    let py = start_pos.y + d.dy() * j;
                    assert(cross(d2, px - self.end.x, py - self.end.y) == cross(d2, -ex, -ey) + j
                        * c) by (nonlinear_arith)
                        requires
                            px == start_pos.x + d.dx() * j,
                            py == start_pos.y + d.dy() * j,
                            ex == self.end.x - start_pos.x,
                            ey == self.end.y - start_pos.y,
                            c == cross(d2, d.dx(), d.dy()),
                    ;
                    assert(cross(d2, -ex, -ey) == -ce) by (nonlinear_arith)
                        requires
                            ce == d2.dx() * ey - d2.dy() * ex,
                    ;
                    assert((j * c == ce) <==> (j == k)) by (nonlinear_arith)
                        requires
                            k == (if c == 1 { ce as int } else { -ce }),
                            c == 1 || c == -1,
                    ;
                }
            }
            if 0 < k && k <= n && (best.is_none() || k < best_k) {
                let p = offset_point(start_pos, d, k as u32);
                assert(on_line_through(start_pos, d, k as int, self.end, d2));
                best = Some(p);
                best_k = k;
            }
            t += 1;
        }
        match best {
            Some(p) => {
                proof {
                    lemma_step_point(start_pos, d, best_k as int);
                    assert forall|j: int| 0 < j < best_k implies !#[trigger] crosses_alignment(start_pos, d, j, self.end) by {
                        if crosses_alignment(start_pos, d, j, self.end) {
                            if on_line_through(start_pos, d, j, self.end, candidates@[0]) {
                            } else {
                                assert(on_line_through(start_pos, d, j, self.end, candidates@[1]));
                            }
                        }
                    }
                }
                Some(p)
            },
            None => {
                proof {
                    assert forall|j: int| 0 < j <= n implies !#[trigger] crosses_alignment(start_pos, d, j, self.end) by {
                        if crosses_alignment(start_pos, d, j, self.end) {
                            if on_line_through(start_pos, d, j, self.end, candidates@[0]) {
                            } else {
                                assert(on_line_through(start_pos, d, j, self.end, candidates@[1]));
                            }
                        }
                    }
                }
                None
            },
        }
    }

    /// Clamps `start_position -> end_position` to the longest prefix the
    /// oracle reports free, bisecting to within one `DELTA` and then backing
    /// off one `DELTA` where the endpoint would break the parity rules.
    pub fn binary_approach_to_obstacles<F: Fn(FixedVec2, FixedVec2) -> bool>(
        &self,
        start_position: FixedVec2,
        end_position: FixedVec2,
        blocked: &F,
    ) -> (r: Option<FixedVec2>)
        requires
            callable(*blocked),
            valid_step(start_position, end_position),
            near_range(start_position),
            near_range(end_position),
        ensures
            match r {
                Some(p) => {
                    &&& valid_step(start_position, p)
                    &&& step_direction(start_position, p) == step_direction(
                        start_position,
                        end_position,
                    )
                    &&& step_count(start_position, p) <= step_count(start_position, end_position)
                    &&& sum_even(p)
                    &&& !odd_odd(p)
                    &&& reported_free(*blocked, start_position, p)
                },
                None => true,
            },
            ray_threshold(
                *blocked,
                start_position,
                step_direction(start_position, end_position),
                step_count(start_position, end_position),
                1,
            ) && step_count(start_position, end_position) > 1 && odd_odd(start_position)
                && step_direction(start_position, end_position).diagonal() ==> r == Some(
                step_point(start_position, step_direction(start_position, end_position), 1),
            ),
            forall|m: int|
                0 <= m < step_count(start_position, end_position) && ray_threshold(
                    *blocked,
                    start_position,
                    step_direction(start_position, end_position),
                    step_count(start_position, end_position),
                    m,
                ) ==> r == backed_off(
                    start_position,
                    step_direction(start_position, end_position),
                    m,
                ),
    {
        let direction = match Direction::from_points(start_position, end_position) {
            Ok(d) => d,
            Err(_) => { return None; },
        };
        proof { lemma_step_decompose(start_position, end_position); }
        let n: u32 = {
            let dx: i64 = end_position.x as i64 - start_position.x as i64;
            let dy: i64 = end_position.y as i64 - start_position.y as i64;
            let ax: i64 = if dx < 0 { -dx } else { dx };
            let ay: i64 = if dy < 0 { -dy } else { dy };
            (if ax >= ay { ax } else { ay }) as u32
        };
        assert(n == step_count(start_position, end_position));
        let mut lower: u32 = 0;
        let mut upper: u32 = n;
        while lower + 1 < upper
            invariant
                0 <= lower < upper <= n,
                n <= 4 * COORD_LIMIT,
                near_range(start_position),
                callable(*blocked),
                lower > 0 ==> reported_free(
                    *blocked,
                    start_position,
                    step_point(start_position, direction, lower as int),
                ),
                upper < n ==> reported_blocked(
                    *blocked,
                    start_position,
                    step_point(start_position, direction, upper as int),
                ),
            decreases upper - lower,
        {
            let mid = lower + (upper - lower) / 2;
            let temp_end = offset_point(start_position, direction, mid);
            if blocked(start_position, temp_end) {
                upper = mid;
            } else {
                lower = mid;
            }
        }
        proof {
            let n_int = step_count(start_position, end_position);
            if ray_threshold(*blocked, start_position, direction, n_int, 1) && n_int > 1
                && odd_odd(start_position) && direction.diagonal() {
                if lower > 0 {
                    assert(reported_free(*blocked, start_position, step_point(start_position, direction, lower as int)));
                }
                if upper < n {
                    assert(reported_blocked(*blocked, start_position, step_point(start_position, direction, upper as int)));
                }
                assert(lower == 1);
                lemma_single_step_parity(start_position, direction);
            }
            assert forall|m: int|
                0 <= m < n_int && ray_threshold(*blocked, start_position, direction, n_int, m)
                implies lower == m by {
                if lower > 0 {
                    assert(reported_free(*blocked, start_position, step_point(start_position, direction, lower as int)));
                }
                if upper < n {
                    assert(reported_blocked(*blocked, start_position, step_point(start_position, direction, upper as int)));
                }
            }
        }
        let mut length = lower;
        let mut adjusted = false;
        let candidate = offset_point(start_position, direction, length);
        if !candidate.is_sum_even() || candidate.is_x_odd_y_odd() {
            if length == 0 {
                return None;
            }
            length = length - 1;
            adjusted = true;
        }
        if length == 0 {
            return None;
        }
        let result = offset_point(start_position, direction, length);
        proof { lemma_step_point(start_position, direction, length as int); }
        if !result.is_sum_even() || result.is_x_odd_y_odd() {
            return None;
        }
        if adjusted && blocked(start_position, result) {
            return None;
        }
        Some(result)
    }

    /// The segment itself when the oracle reports it free, else its longest
    /// free prefix after the parity back-off.
    pub fn clamp_by_collision<F: Fn(FixedVec2, FixedVec2) -> bool>(
        &self,
        start_pos: FixedVec2,
        end_pos: FixedVec2,
        blocked: &F,
    ) -> (r: Option<FixedVec2>)
        requires
            callable(*blocked),
            valid_step(start_pos, end_pos),
            near_range(start_pos),
            near_range(end_pos),
        ensures
            match r {
                Some(p) => {
                    &&& valid_step(start_pos, p)
                    &&& step_direction(start_pos, p) == step_direction(start_pos, end_pos)
                    &&& step_count(start_pos, p) <= step_count(start_pos, end_pos)
                    &&& reported_free(*blocked, start_pos, p)
                },
                None => true,
            },
            (forall|b: bool| blocked.ensures((start_pos, end_pos), b) ==> !b) ==> r == Some(end_pos),
            forall|m: int|
                0 <= m < step_count(start_pos, end_pos) && ray_threshold(
                    *blocked,
                    start_pos,
                    step_direction(start_pos, end_pos),
                    step_count(start_pos, end_pos),
                    m,
                ) ==> r == backed_off(start_pos, step_direction(start_pos, end_pos), m),
    {
        proof {
            lemma_step_decompose(start_pos, end_pos);
            assert(end_pos == step_point(
                start_pos,
                step_direction(start_pos, end_pos),
                step_count(start_pos, end_pos),
            ));
        }
        if blocked(start_pos, end_pos) {
            self.binary_approach_to_obstacles(start_pos, end_pos, blocked)
        } else {
            Some(end_pos)
        }
    }

    /// Directions that run free for a micro-step of `2 * DELTA` while one of
    /// their flanking pairs (a quarter and an eighth turn to the same side)
    /// is blocked: the directions that hug an obstacle's edge or corner.
    pub fn radial_directions_wrt_obstacles<F: Fn(FixedVec2, FixedVec2) -> bool>(
        &self,
        position: &FixedVec2,
        blocked: &F,
    ) -> (r: Vec<Direction>)
        requires
            callable(*blocked),
            near_range(*position),
        ensures
            forall|i: int| 0 <= i < r@.len() ==> #[trigger] hugs_obstacle(*blocked, *position, r@[i]),
            forall|i: int, j: int| 0 <= i < j < r@.len() ==> listing_order(r@[i]) < listing_order(r@[j]),
            answers_once(*blocked) ==> forall|d: Direction|
                #[trigger] hugs_obstacle(*blocked, *position, d) ==> r@.contains(d),
    {
        let mut collides: Vec<bool> = Vec::new();
        let mut i: i32 = 0;
        while i < 8
            invariant
                0 <= i <= 8,
                collides@.len() == i,
                callable(*blocked),
                near_range(*position),
                forall|k: int|
                    0 <= k < i ==> (if #[trigger] collides@[k] { reported_blocked(*blocked, *position, step_point(*position, Direction::from_index(k), 2)) } else { reported_free(*blocked, *position, step_point(*position, Direction::from_index(k), 2)) }),
            decreases 8 - i,
        {
            let d = Direction::int_to_direction(i);
            let end_position = offset_point(*position, d, 2);
            let c = blocked(*position, end_position);
            collides.push(c);
            i += 1;
        }
        let all = Direction::all_directions();
        let mut directions: Vec<Direction> = Vec::new();
        let mut j: usize = 0;
        while j < 8
            invariant
                0 <= j <= 8,
                all@.len() == 8,
                collides@.len() == 8,
                forall|k: int|
                    0 <= k < 8 ==> (if #[trigger] collides@[k] { reported_blocked(*blocked, *position, step_point(*position, Direction::from_index(k), 2)) } else { reported_free(*blocked, *position, step_point(*position, Direction::from_index(k), 2)) }),
                forall|k: int| 0 <= k < directions@.len() ==> #[trigger] hugs_obstacle(*blocked, *position, directions@[k]),
                all@ == seq![
                    Direction::Up,
                    Direction::Down,
                    Direction::Left,
                    Direction::Right,
                    Direction::TopRight,
                    Direction::TopLeft,
                    Direction::BottomRight,
                    Direction::BottomLeft,
                ],
                forall|x: int| 0 <= x < directions@.len() ==> listing_order(#[trigger] directions@[x]) < j,
                forall|x: int, y: int| 0 <= x < y < directions@.len() ==> listing_order(directions@[x]) < listing_order(directions@[y]),
                answers_once(*blocked) ==> forall|d: Direction|
                    listing_order(d) < j && #[trigger] hugs_obstacle(*blocked, *position, d) ==> directions@.contains(d),
            decreases 8 - j,
        {
            let d = all[j];
            let k = d.direction_to_int() as usize;
            let l90 = ((k + 6) % 8) as usize;
            let l45 = ((k + 7) % 8) as usize;
            let r45 = ((k + 1) % 8) as usize;
            let r90 = ((k + 2) % 8) as usize;
            let left_blocked = collides[l90] && collides[l45];
            let right_blocked = collides[r90] && collides[r45];
            let ghost before_push = directions@;
            proof {
                assert(listing_order(d) == j);
                assert(Direction::from_index(k as int) == d);
                if answers_once(*blocked) && hugs_obstacle(*blocked, *position, d) {
                    let side = |i: int| reported_blocked(*blocked, *position, step_point(*position, Direction::from_index(i % 8), 2));
                    assert(!collides@[k as int]);
                    if side(d.index() + 6) && side(d.index() + 7) {
                        assert(collides@[l90 as int]);
                        assert(collides@[l45 as int]);
                    } else {
                        assert(collides@[r90 as int]);
                        assert(collides@[r45 as int]);
                    }
                }
            }
            if !collides[k] && (left_blocked || right_blocked) {
                proof {
                    assert(Direction::from_index(k as int) == d);
                    assert(collides@[l90 as int] ==> reported_blocked(*blocked, *position, step_point(*position, Direction::from_index(l90 as int), 2)));
                    assert(collides@[l45 as int] ==> reported_blocked(*blocked, *position, step_point(*position, Direction::from_index(l45 as int), 2)));
                    assert(collides@[r45 as int] ==> reported_blocked(*blocked, *position, step_point(*position, Direction::from_index(r45 as int), 2)));
                    assert(collides@[r90 as int] ==> reported_blocked(*blocked, *position, step_point(*position, Direction::from_index(r90 as int), 2)));
                    assert(!collides@[k as int]);
                }
                let ghost before = directions@;
                directions.push(d);
                assert forall|m: int| 0 <= m < directions@.len() implies #[trigger] hugs_obstacle(*blocked, *position, directions@[m]) by {
                    if m < before.len() {
                        assert(directions@[m] == before[m]);
                    }
                }
            }
            proof {
                assert forall|dd: Direction|
                    answers_once(*blocked) && listing_order(dd) < j + 1 && #[trigger] hugs_obstacle(*blocked, *position, dd)
                    implies directions@.contains(dd) by {
                    if listing_order(dd) == j {
                        assert(dd == d);
                        assert(directions@[directions@.len() - 1] == d);
                    } else {
                        let x = choose|x: int| 0 <= x < before_push.len() && before_push[x] == dd;
                        assert(directions@[x] == dd);
                    }
                }
            }
            j += 1;
        }
        directions
    }
}

/// One search node; `prev_node` indexes its parent in the search arena.
/// Costs are exact lengths `axis + diagonal * sqrt(2)`.
pub struct AstarNode {
    pub position: FixedVec2,
    pub direction: Option<Direction>,
    pub actual_length: PathLength,
    pub estimated_cost: PathLength,
    pub prev_node: Option<usize>,
    pub depth: usize,
}

/// Longest single step between two points in range, in `DELTA` steps.
pub open spec fn step_bound() -> int {
    4 * COORD_LIMIT
}

/// The node at `k` is well placed in the arena: on a sum-even position in
/// range, and, unless it is the root at the start, linked to an earlier
/// parent by a valid step that the oracle reported free.
pub open spec fn node_ok<F: Fn(FixedVec2, FixedVec2) -> bool>(
    arena: Seq<AstarNode>,
    k: int,
    start: FixedVec2,
    f: F,
) -> bool {
    let n = arena[k];
    &&& sum_even(n.position)
    &&& in_range(n.position)
    &&& 0 <= n.actual_length.axis <= n.depth * step_bound()
    &&& 0 <= n.actual_length.diagonal <= n.depth * step_bound()
    &&& 0 <= n.estimated_cost.axis <= step_bound()
    &&& 0 <= n.estimated_cost.diagonal <= step_bound()
    &&& if k == 0 {
        &&& n.position == start
        &&& n.prev_node.is_none()
        &&& n.depth == 0
    } else {
        &&& n.prev_node.is_some()
        &&& n.prev_node.unwrap() < k
        &&& valid_step(arena[n.prev_node.unwrap() as int].position, n.position)
        &&& n.direction == Some(
            step_direction(arena[n.prev_node.unwrap() as int].position, n.position),
        )
        &&& reported_free(f, arena[n.prev_node.unwrap() as int].position, n.position)
        &&& n.depth == arena[n.prev_node.unwrap() as int].depth + 1
    }
}

pub open spec fn arena_ok<F: Fn(FixedVec2, FixedVec2) -> bool>(
    arena: Seq<AstarNode>,
    start: FixedVec2,
    f: F,
    trials: int,
) -> bool {
    &&& arena.len() >= 1
    &&& forall|k: int| 0 <= k < arena.len() ==> #[trigger] node_ok(arena, k, start, f)
    &&& forall|k: int| 0 <= k < arena.len() ==> #[trigger] arena[k].depth <= trials
}

pub open spec fn frontier_ok(frontier: Seq<usize>, n: int) -> bool {
    forall|i: int| 0 <= i < frontier.len() ==> #[trigger] frontier[i] < n
}

proof fn lemma_cost_bound(depth: int, g: int)
    requires
        0 <= depth <= ASTAR_MAX_TRIALS,
        0 <= g <= depth * step_bound(),
    ensures
        g <= ASTAR_MAX_TRIALS * step_bound(),
        g + step_bound() <= (depth + 1) * step_bound(),
{
    assert(depth * step_bound() <= ASTAR_MAX_TRIALS * step_bound()) by (nonlinear_arith)
        requires
            0 <= depth <= ASTAR_MAX_TRIALS,
            step_bound() > 0,
    ;
    assert((depth + 1) * step_bound() == depth * step_bound() + step_bound()) by (nonlinear_arith);
}

/// The positions from the root to node `k`, following parent links.
pub open spec fn chain(arena: Seq<AstarNode>, k: int) -> Seq<FixedVec2>
    decreases k,
{
    if 0 < k < arena.len() && arena[k].prev_node.is_some() && arena[k].prev_node.unwrap() < k {
        chain(arena, arena[k].prev_node.unwrap() as int).push(arena[k].position)
    } else {
        seq![arena[k].position]
    }
}

/// Every segment of the polyline was reported free by the oracle.
pub open spec fn all_reported_free<F: Fn(FixedVec2, FixedVec2) -> bool>(
    a: Seq<FixedVec2>,
    f: F,
) -> bool {
    forall|i: int| 0 <= i < a.len() - 1 ==> #[trigger] reported_free(f, a[i], a[i + 1])
}

/// Every anchor is sum-even.
pub open spec fn all_sum_even(a: Seq<FixedVec2>) -> bool {
    forall|i: int| 0 <= i < a.len() ==> #[trigger] sum_even(a[i])
}

/// An odd-odd point `b` is entered from `a` only by a diagonal step.
pub open spec fn entered_ok(a: FixedVec2, b: FixedVec2) -> bool {
    odd_odd(b) ==> step_direction(a, b).diagonal()
}

/// Every anchor strictly inside the polyline that has both coordinates odd
/// is entered by a diagonal step.
pub open spec fn odd_odd_entered_diagonally(a: Seq<FixedVec2>) -> bool {
    forall|i: int| 0 <= i && i + 2 < a.len() ==> #[trigger] entered_ok(a[i], a[i + 1])
}

proof fn lemma_chain<F: Fn(FixedVec2, FixedVec2) -> bool>(
    arena: Seq<AstarNode>,
    k: int,
    start: FixedVec2,
    f: F,
    trials: int,
)
    requires
        arena_ok(arena, start, f, trials),
        0 <= k < arena.len(),
    ensures
        chain(arena, k).len() == arena[k].depth + 1,
        chain(arena, k)[0] == start,
        chain(arena, k)[chain(arena, k).len() - 1] == arena[k].position,
        all_sum_even(chain(arena, k)),
        anchors_in_range(chain(arena, k)),
        all_reported_free(chain(arena, k), f),
        forall|i: int|
            0 <= i < chain(arena, k).len() - 1 ==> #[trigger] valid_step(
                chain(arena, k)[i],
                chain(arena, k)[i + 1],
            ),
    decreases k,
{
    assert(node_ok(arena, k, start, f));
    if k == 0 {
        assert(node_ok(arena, 0, start, f));
    } else {
        let p = arena[k].prev_node.unwrap() as int;
        lemma_chain(arena, p, start, f, trials);
        let c = chain(arena, k);
        let cp = chain(arena, p);
        assert(c == cp.push(arena[k].position));
        assert forall|i: int| 0 <= i < c.len() implies #[trigger] sum_even(c[i]) && in_range(
            c[i],
        ) by {
            if i < cp.len() {
                assert(c[i] == cp[i]);
            }
        }
        assert forall|i: int| 0 <= i < c.len() - 1 implies #[trigger] reported_free(
            f,
            c[i],
            c[i + 1],
        ) && valid_step(c[i], c[i + 1]) by {
            if i < cp.len() - 1 {
                assert(c[i] == cp[i] && c[i + 1] == cp[i + 1]);
            } else {
                assert(c[i] == arena[p].position);
            }
        }
        assert forall|i: int| 0 <= i < c.len() - 1 implies #[trigger] valid_step(c[i], c[i + 1]) by {
            assert(reported_free(f, c[i], c[i + 1]) && valid_step(c[i], c[i + 1]));
        }
        assert forall|i: int| 0 <= i < c.len() implies #[trigger] sum_even(c[i]) by {
            assert(sum_even(c[i]) && in_range(c[i]));
        }
        assert forall|i: int| 0 <= i < c.len() implies #[trigger] in_range(c[i]) by {
            assert(sum_even(c[i]) && in_range(c[i]));
        }
    }
}

/// Along the chain to any node, the interior odd-odd anchors were entered
/// diagonally.
proof fn lemma_chain_entries<F: Fn(FixedVec2, FixedVec2) -> bool>(
    arena: Seq<AstarNode>,
    k: int,
    start: FixedVec2,
    end: FixedVec2,
    f: F,
    trials: int,
)
    requires
        arena_ok(arena, start, f, trials),
        costs_exact(arena, end),
        0 <= k < arena.len(),
    ensures
        odd_odd_entered_diagonally(chain(arena, k)),
    decreases k,
{
    assert(node_ok(arena, k, start, f));
    if k > 0 {
        let p = arena[k].prev_node.unwrap() as int;
        assert(cost_ok(arena, k, end));
        lemma_chain_entries(arena, p, start, end, f, trials);
        lemma_chain(arena, p, start, f, trials);
        let c = chain(arena, k);
        let cp = chain(arena, p);
        assert(c == cp.push(arena[k].position));
        assert forall|i: int| 0 <= i && i + 2 < c.len() implies #[trigger] entered_ok(c[i], c[i + 1]) by {
            if i + 2 < cp.len() {
                assert(c[i] == cp[i] && c[i + 1] == cp[i + 1]);
            } else {
                assert(node_ok(arena, p, start, f));
                assert(cost_ok(arena, p, end));
                assert(p > 0);
                let pp = arena[p].prev_node.unwrap() as int;
                lemma_chain(arena, pp, start, f, trials);
                assert(cp == chain(arena, pp).push(arena[p].position));
                assert(c[i + 1] == arena[p].position);
                assert(c[i] == arena[pp].position);
            }
        }
    }
}

/// The positions from the root to node `k`, by walking parent links and
/// reversing.
fn collect_anchors<F: Fn(FixedVec2, FixedVec2) -> bool>(
    arena: &Vec<AstarNode>,
    k: usize,
    Ghost(start): Ghost<FixedVec2>,
    blocked: &F,
    Ghost(trials): Ghost<int>,
) -> (r: Vec<FixedVec2>)
    requires
        arena_ok(arena@, start, *blocked, trials),
        k < arena@.len(),
    ensures
        r@ == chain(arena@, k as int),
{
    let ghost full = chain(arena@, k as int);
    let mut reversed: Vec<FixedVec2> = Vec::new();
    let mut cur: usize = k;
    while cur > 0
        invariant
            arena_ok(arena@, start, *blocked, trials),
            cur < arena@.len(),
            full == chain(arena@, k as int),
            full.len() == chain(arena@, cur as int).len() + reversed@.len(),
            chain(arena@, cur as int) == full.subrange(0, chain(arena@, cur as int).len() as int),
            forall|i: int|
                0 <= i < reversed@.len() ==> #[trigger] reversed@[i] == full[full.len() - 1 - i],
        decreases cur,
    {
        assert(node_ok(arena@, cur as int, start, *blocked));
        let p = match arena[cur].prev_node {
            Some(p) => p,
            None => 0,
        };
        let ghost cc = chain(arena@, cur as int);
        let ghost cp = chain(arena@, p as int);
        assert(cc == cp.push(arena@[cur as int].position));
        assert(cc[cc.len() - 1] == full[cc.len() - 1]);
        reversed.push(arena[cur].position);
        assert(cp =~= full.subrange(0, cp.len() as int)) by {
            assert forall|i: int| 0 <= i < cp.len() implies cp[i] == full[i] by {
                assert(cc[i] == cp[i]);
            }
        }
        cur = p;
    }
    assert(chain(arena@, 0) == seq![arena@[0].position]);
    let ghost before = reversed@;
    reversed.push(arena[0].position);
    assert(reversed@.len() == full.len());
    assert forall|i: int| 0 <= i < reversed@.len() implies #[trigger] reversed@[i] == full[full.len() - 1 - i] by {
        if i < before.len() {
            assert(reversed@[i] == before[i]);
        } else {
            assert(chain(arena@, 0)[0] == full[0]);
        }
    }
    let n = reversed.len();
    let mut anchors: Vec<FixedVec2> = Vec::new();
    let mut j: usize = 0;
    while j < n
        invariant
            n == reversed@.len(),
            n == full.len(),
            0 <= j <= n,
            anchors@.len() == j,
            forall|i: int| 0 <= i < reversed@.len() ==> #[trigger] reversed@[i] == full[full.len() - 1 - i],
            forall|i: int| 0 <= i < j ==> #[trigger] anchors@[i] == full[i],
        decreases n - j,
    {
        anchors.push(reversed[n - 1 - j]);
        j += 1;
    }
    assert(anchors@ =~= full);
    anchors
}

fn contains_position(visited: &Vec<FixedVec2>, p: FixedVec2) -> (r: bool)
    ensures
        r == visited@.contains(p),
{
    let mut i: usize = 0;
    while i < visited.len()
        invariant
            0 <= i <= visited@.len(),
            forall|k: int| 0 <= k < i ==> visited@[k] != p,
        decreases visited@.len() - i,
    {
        if visited[i] == p {
            return true;
        }
        i += 1;
    }
    false
}

/// The exact total cost `g + h` of a node.
pub open spec fn total_cost(n: AstarNode) -> (int, int) {
    (
        n.actual_length.axis + n.estimated_cost.axis,
        n.actual_length.diagonal + n.estimated_cost.diagonal,
    )
}

/// Node `k`'s estimate is its exact octile distance to `end`, and its
/// length from the start is its parent's plus the step between them.
pub open spec fn cost_ok(arena: Seq<AstarNode>, k: int, end: FixedVec2) -> bool {
    let n = arena[k];
    &&& n.estimated_cost.axis == octile(n.position, end).0 * ESTIMATE_COEFFICIENT
    &&& n.estimated_cost.diagonal == octile(n.position, end).1 * ESTIMATE_COEFFICIENT
    &&& n.prev_node.is_none() ==> n.actual_length.axis == 0 && n.actual_length.diagonal == 0
    &&& n.prev_node.is_some() && n.prev_node.unwrap() < arena.len() ==> {
        let pn = arena[n.prev_node.unwrap() as int];
        &&& pn.position != end
        &&& n.position != end ==> entered_ok(pn.position, n.position)
        &&& n.actual_length.axis == pn.actual_length.axis + step_length(pn.position, n.position).0
        &&& n.actual_length.diagonal == pn.actual_length.diagonal + step_length(
            pn.position,
            n.position,
        ).1
    }
}

pub open spec fn costs_exact(arena: Seq<AstarNode>, end: FixedVec2) -> bool {
    forall|k: int| 0 <= k < arena.len() ==> #[trigger] cost_ok(arena, k, end)
}

/// The arena and the frontier only grew, and every new node is a child of
/// `cur`.
pub open spec fn grows(
    a0: Seq<AstarNode>,
    a1: Seq<AstarNode>,
    f0: Seq<usize>,
    f1: Seq<usize>,
    cur: usize,
) -> bool {
    &&& a0.len() <= a1.len()
    &&& forall|i: int| 0 <= i < a0.len() ==> #[trigger] a1[i] == a0[i]
    &&& forall|i: int| a0.len() <= i < a1.len() ==> (#[trigger] a1[i]).prev_node == Some(cur)
    &&& f0.len() <= f1.len()
    &&& forall|i: int| 0 <= i < f0.len() ==> #[trigger] f1[i] == f0[i]
    &&& forall|i: int| f0.len() <= i < f1.len() ==> #[trigger] f1[i] >= a0.len()
    &&& forall|i: int| a0.len() <= i < a1.len() ==> #[trigger] f1.contains(i as usize)
}

proof fn lemma_grows_trans(
    a0: Seq<AstarNode>,
    a1: Seq<AstarNode>,
    a2: Seq<AstarNode>,
    f0: Seq<usize>,
    f1: Seq<usize>,
    f2: Seq<usize>,
    cur: usize,
)
    requires
        grows(a0, a1, f0, f1, cur),
        grows(a1, a2, f1, f2, cur),
    ensures
        grows(a0, a2, f0, f2, cur),
{
    assert forall|i: int| a0.len() <= i < a2.len() implies (#[trigger] a2[i]).prev_node == Some(
        cur,
    ) by {
        if i < a1.len() {
            assert(a2[i] == a1[i]);
        }
    }
    assert forall|i: int| f0.len() <= i < f2.len() implies #[trigger] f2[i] >= a0.len() by {
        if i < f1.len() {
            assert(f2[i] == f1[i]);
        }
    }
    assert forall|i: int| a0.len() <= i < a2.len() implies #[trigger] f2.contains(i as usize) by {
        if i < a1.len() {
            assert(f1.contains(i as usize));
            let j = choose|j: int| 0 <= j < f1.len() && f1[j] == i as usize;
            assert(f2[j] == f1[j]);
        }
    }
}

/// The exact length of a valid step is its octile distance.
proof fn lemma_step_length_octile(a: FixedVec2, b: FixedVec2)
    requires
        valid_step(a, b),
    ensures
        step_length(a, b) == octile(a, b),
{
}

/// The octile distance obeys the triangle inequality, compared exactly in
/// `axis + diagonal * sqrt(2)` form: going through `q` is never shorter.
pub proof fn lemma_octile_triangle(s: FixedVec2, q: FixedVec2, e: FixedVec2)
    ensures
        !sqrt2_negative(
            octile(s, q).0 + octile(q, e).0 - octile(s, e).0,
            octile(s, q).1 + octile(q, e).1 - octile(s, e).1,
        ),
{
    let a = octile(s, q).0 + octile(q, e).0 - octile(s, e).0;
    let b = octile(s, q).1 + octile(q, e).1 - octile(s, e).1;
    // a + b compares Chebyshev distances, a + 2b compares Manhattan ones
    assert(a + b >= 0);
    assert(a + 2 * b >= 0);
    if b >= 0 {
        if a < 0 {
            assert(a * a <= b * b) by (nonlinear_arith)
                requires
                    -b <= a < 0,
            ;
            assert(2 * (b * b) >= a * a) by (nonlinear_arith)
                requires
                    a * a <= b * b,
            ;
        }
    } else {
        assert(a * a >= 4 * (b * b)) by (nonlinear_arith)
            requires
                a >= -2 * b,
                b < 0,
        ;
        assert(a * a >= 2 * (b * b)) by (nonlinear_arith)
            requires
                a * a >= 4 * (b * b),
        ;
    }
}

/// The frontier entry whose node has the smallest total cost `g + h`; the
/// earliest such entry on ties.
fn select_min<F: Fn(FixedVec2, FixedVec2) -> bool>(
    arena: &Vec<AstarNode>,
    frontier: &Vec<usize>,
    Ghost(start): Ghost<FixedVec2>,
    blocked: &F,
    Ghost(trials): Ghost<int>,
) -> (r: usize)
    requires
        frontier@.len() > 0,
        frontier_ok(frontier@, arena@.len() as int),
        arena_ok(arena@, start, *blocked, trials),
        trials <= ASTAR_MAX_TRIALS,
    ensures
        r < frontier@.len(),
        (forall|i: int|
            0 <= i < frontier@.len() ==> !sqrt2_negative(
                total_cost(#[trigger] arena@[frontier@[i] as int]).0 - total_cost(
                    arena@[frontier@[0] as int],
                ).0,
                total_cost(arena@[frontier@[i] as int]).1 - total_cost(
                    arena@[frontier@[0] as int],
                ).1,
            )) ==> r == 0,
{
    let mut best: usize = 0;
    let mut i: usize = 1;
    let ghost first_minimal = forall|i: int|
        0 <= i < frontier@.len() ==> !sqrt2_negative(
            total_cost(#[trigger] arena@[frontier@[i] as int]).0 - total_cost(
                arena@[frontier@[0] as int],
            ).0,
            total_cost(arena@[frontier@[i] as int]).1 - total_cost(arena@[frontier@[0] as int]).1,
        );
    while i < frontier.len()
        invariant
            0 < i <= frontier@.len(),
            best < frontier@.len(),
            frontier_ok(frontier@, arena@.len() as int),
            arena_ok(arena@, start, *blocked, trials),
            trials <= ASTAR_MAX_TRIALS,
            first_minimal == forall|i: int|
                0 <= i < frontier@.len() ==> !sqrt2_negative(
                    total_cost(#[trigger] arena@[frontier@[i] as int]).0 - total_cost(
                        arena@[frontier@[0] as int],
                    ).0,
                    total_cost(arena@[frontier@[i] as int]).1 - total_cost(
                        arena@[frontier@[0] as int],
                    ).1,
                ),
            first_minimal ==> best == 0,
        decreases frontier@.len() - i,
    {
        let a = &arena[frontier[i]];
        let b = &arena[frontier[best]];
        assert(node_ok(arena@, frontier@[i as int] as int, start, *blocked));
        assert(node_ok(arena@, frontier@[best as int] as int, start, *blocked));
        assert(arena@[frontier@[i as int] as int].depth <= trials);
        assert(arena@[frontier@[best as int] as int].depth <= trials);
        proof {
            lemma_cost_bound(a.depth as int, a.actual_length.axis as int);
            lemma_cost_bound(a.depth as int, a.actual_length.diagonal as int);
            lemma_cost_bound(b.depth as int, b.actual_length.axis as int);
            lemma_cost_bound(b.depth as int, b.actual_length.diagonal as int);
        }
        let fa = PathLength {
            axis: a.actual_length.axis + a.estimated_cost.axis,
            diagonal: a.actual_length.diagonal + a.estimated_cost.diagonal,
        };
        let fb = PathLength {
            axis: b.actual_length.axis + b.estimated_cost.axis,
            diagonal: b.actual_length.diagonal + b.estimated_cost.diagonal,
        };
        if cost_less(fa, fb) {
            best = i;
        }
        i += 1;
    }
    best
}

impl AStarModel {
    /// Adds a child of `cur` at `q` when `q` is in range, sum-even, one
    /// valid step away and not yet visited.
    fn try_push<F: Fn(FixedVec2, FixedVec2) -> bool>(
        &self,
        arena: &mut Vec<AstarNode>,
        frontier: &mut Vec<usize>,
        visited: &Vec<FixedVec2>,
        cur: usize,
        q: FixedVec2,
        blocked: &F,
        trials: usize,
    )
        requires
            arena_ok(old(arena)@, self.start, *blocked, trials as int),
            frontier_ok(old(frontier)@, old(arena)@.len() as int),
            cur < old(arena)@.len(),
            old(arena)@[cur as int].depth < trials,
            trials <= ASTAR_MAX_TRIALS,
            in_range(self.end),
            costs_exact(old(arena)@, self.end),
            old(arena)@[cur as int].position != self.end,
            reported_free(*blocked, old(arena)@[cur as int].position, q),
        ensures
            arena_ok(final(arena)@, self.start, *blocked, trials as int),
            frontier_ok(final(frontier)@, final(arena)@.len() as int),
            costs_exact(final(arena)@, self.end),
            grows(old(arena)@, final(arena)@, old(frontier)@, final(frontier)@, cur),
            in_range(q) && sum_even(q) && valid_step(old(arena)@[cur as int].position, q)
                && !visited@.contains(q) && (q == self.end || entered_ok(
                old(arena)@[cur as int].position,
                q,
            )) ==> final(arena)@.len() == old(arena)@.len() + 1
                && final(arena)@[old(arena)@.len() as int].position == q && final(frontier)@
                == old(frontier)@.push(old(arena)@.len() as usize),
    {
        let p = arena[cur].position;
        if !q.is_in_range() || !q.is_sum_even() {
            return;
        }
        let direction = match Direction::from_points(p, q) {
            Ok(d) => d,
            Err(_) => { return; },
        };
        if q != self.end && q.is_x_odd_y_odd() && !direction.is_diagonal() {
            return;
        }
        if contains_position(visited, q) {
            return;
        }
        assert(node_ok(arena@, cur as int, self.start, *blocked));
        let (sa, sd) = step_parts(p, q);
        proof {
            lemma_cost_bound(arena@[cur as int].depth as int, arena@[cur as int].actual_length.axis as int);
            lemma_cost_bound(arena@[cur as int].depth as int, arena@[cur as int].actual_length.diagonal as int);
        }
        let g = PathLength {
            axis: arena[cur].actual_length.axis + sa,
            diagonal: arena[cur].actual_length.diagonal + sd,
        };
        let h = estimate(&q, &self.end);
        let node = AstarNode {
            position: q,
            direction: Some(direction),
            actual_length: g,
            estimated_cost: h,
            prev_node: Some(cur),
            depth: arena[cur].depth + 1,
        };
        let ghost old_arena = arena@;
        let index = arena.len();
        arena.push(node);
        frontier.push(index);
        assert(frontier@[frontier@.len() - 1] == index);
        assert forall|k: int| 0 <= k < arena@.len() implies #[trigger] node_ok(
            arena@,
            k,
            self.start,
            *blocked,
        ) by {
            if k < old_arena.len() {
                assert(node_ok(old_arena, k, self.start, *blocked));
                if k > 0 {
                    let pk = old_arena[k].prev_node.unwrap() as int;
                    assert(arena@[pk] == old_arena[pk]);
                }
            } else {
                assert(arena@[k] == node);
                assert(arena@[cur as int] == old_arena[cur as int]);
                assert(node.depth == old_arena[cur as int].depth + 1);
                assert(node.actual_length.axis <= node.depth * step_bound());
                assert(node.actual_length.diagonal <= node.depth * step_bound());
            }
        }
        assert forall|k: int| 0 <= k < arena@.len() implies #[trigger] arena@[k].depth
            <= trials by {
            if k < old_arena.len() {
                assert(arena@[k] == old_arena[k]);
            }
        }
        assert forall|k: int| 0 <= k < arena@.len() implies #[trigger] cost_ok(
            arena@,
            k,
            self.end,
        ) by {
            if k < old_arena.len() {
                assert(cost_ok(old_arena, k, self.end));
                assert(node_ok(old_arena, k, self.start, *blocked));
                assert(arena@[k] == old_arena[k]);
                if old_arena[k].prev_node.is_some() && old_arena[k].prev_node.unwrap() < old_arena.len() {
                    let pk = old_arena[k].prev_node.unwrap() as int;
                    assert(arena@[pk] == old_arena[pk]);
                }
            } else {
                assert(arena@[k] == node);
                assert(arena@[cur as int] == old_arena[cur as int]);
            }
        }
    }

    /// Adds the first crossing of `cur -> q` with one of the goal's
    /// alignment lines, when the oracle reports the way there free.
    fn inject_intersection<F: Fn(FixedVec2, FixedVec2) -> bool>(
        &self,
        arena: &mut Vec<AstarNode>,
        frontier: &mut Vec<usize>,
        visited: &Vec<FixedVec2>,
        cur: usize,
        q: FixedVec2,
        blocked: &F,
        trials: usize,
    )
        requires
            callable(*blocked),
            arena_ok(old(arena)@, self.start, *blocked, trials as int),
            frontier_ok(old(frontier)@, old(arena)@.len() as int),
            cur < old(arena)@.len(),
            old(arena)@[cur as int].depth < trials,
            trials <= ASTAR_MAX_TRIALS,
            in_range(self.end),
            costs_exact(old(arena)@, self.end),
            old(arena)@[cur as int].position != self.end,
            valid_step(old(arena)@[cur as int].position, q),
        ensures
            arena_ok(final(arena)@, self.start, *blocked, trials as int),
            frontier_ok(final(frontier)@, final(arena)@.len() as int),
            costs_exact(final(arena)@, self.end),
            grows(old(arena)@, final(arena)@, old(frontier)@, final(frontier)@, cur),
    {
        let p = arena[cur].position;
        assert(node_ok(arena@, cur as int, self.start, *blocked));
        if !q.is_in_range() {
            return;
        }
        if let Some(ip) = self.get_intersection_with_end_alignments(p, q) {
            if ip.is_in_range() && ip != p && !blocked(p, ip) {
                self.try_push(arena, frontier, visited, cur, ip, blocked, trials);
            }
        }
    }

    /// Clamps the step `cur -> q` against obstacles and adds what remains;
    /// when asked, and when what remains is not itself aligned with the
    /// goal, also the crossing of the step with the goal's alignment lines.
    fn push_clamped<F: Fn(FixedVec2, FixedVec2) -> bool>(
        &self,
        arena: &mut Vec<AstarNode>,
        frontier: &mut Vec<usize>,
        visited: &Vec<FixedVec2>,
        cur: usize,
        q: FixedVec2,
        with_intersection: bool,
        blocked: &F,
        trials: usize,
    ) -> (pushed: bool)
        requires
            callable(*blocked),
            arena_ok(old(arena)@, self.start, *blocked, trials as int),
            frontier_ok(old(frontier)@, old(arena)@.len() as int),
            cur < old(arena)@.len(),
            old(arena)@[cur as int].depth < trials,
            trials <= ASTAR_MAX_TRIALS,
            in_range(self.end),
            costs_exact(old(arena)@, self.end),
            old(arena)@[cur as int].position != self.end,
        ensures
            arena_ok(final(arena)@, self.start, *blocked, trials as int),
            frontier_ok(final(frontier)@, final(arena)@.len() as int),
            costs_exact(final(arena)@, self.end),
            grows(old(arena)@, final(arena)@, old(frontier)@, final(frontier)@, cur),
    {
        let p = arena[cur].position;
        assert(node_ok(arena@, cur as int, self.start, *blocked));
        if !q.is_in_range() || !Direction::is_two_points_valid_direction(p, q) {
            return false;
        }
        match self.clamp_by_collision(p, q, blocked) {
            Some(q2) => {
                let ghost a0 = arena@;
                let ghost f0 = frontier@;
                self.try_push(arena, frontier, visited, cur, q2, blocked, trials);
                let ghost a1 = arena@;
                let ghost f1 = frontier@;
                if with_intersection && q2 != self.end && self.is_aligned_with_end(q2).is_none() {
                    assert(arena@[cur as int] == a0[cur as int]);
                    self.inject_intersection(arena, frontier, visited, cur, q2, blocked, trials);
                    proof { lemma_grows_trans(a0, a1, arena@, f0, f1, frontier@, cur); }
                }
                true
            },
            None => false,
        }
    }

    /// The expansion rules applied to the node `cur`: the goal when aligned
    /// and free, the lattice neighbours, the obstacle-hugging directions, the
    /// crossings with the goal's alignment lines, and the fallback moves for
    /// a point that none of these reaches. When the goal is aligned with
    /// `cur`, reported free and not yet visited, it becomes the first new
    /// node and the first new frontier entry.
    fn expand<F: Fn(FixedVec2, FixedVec2) -> bool>(
        &self,
        arena: &mut Vec<AstarNode>,
        frontier: &mut Vec<usize>,
        visited: &Vec<FixedVec2>,
        cur: usize,
        blocked: &F,
        trials: usize,
    )
        requires
            callable(*blocked),
            arena_ok(old(arena)@, self.start, *blocked, trials as int),
            frontier_ok(old(frontier)@, old(arena)@.len() as int),
            cur < old(arena)@.len(),
            old(arena)@[cur as int].depth < trials,
            trials <= ASTAR_MAX_TRIALS,
            in_range(self.end),
            sum_even(self.end),
            costs_exact(old(arena)@, self.end),
            old(arena)@[cur as int].position != self.end,
        ensures
            arena_ok(final(arena)@, self.start, *blocked, trials as int),
            frontier_ok(final(frontier)@, final(arena)@.len() as int),
            costs_exact(final(arena)@, self.end),
            grows(old(arena)@, final(arena)@, old(frontier)@, final(frontier)@, cur),
            valid_step(old(arena)@[cur as int].position, self.end) && (forall|r: bool|
                blocked.ensures((old(arena)@[cur as int].position, self.end), r) ==> !r)
                && !visited@.contains(self.end) ==> final(arena)@.len() > old(arena)@.len()
                && final(arena)@[old(arena)@.len() as int].position == self.end
                && final(frontier)@.len() > old(frontier)@.len()
                && final(frontier)@[old(frontier)@.len() as int] == old(arena)@.len(),
    {
        let p = arena[cur].position;
        assert(node_ok(arena@, cur as int, self.start, *blocked));
        let ghost cur_node = arena@[cur as int];
        let ghost entry_a = arena@;
        let ghost entry_f = frontier@;
        let end_direction = self.is_aligned_with_end(p);
        if end_direction.is_some() {
            if !blocked(p, self.end) {
                self.try_push(arena, frontier, visited, cur, self.end, blocked, trials);
            }
        }
        assert(grows(entry_a, arena@, entry_f, frontier@, cur));
        let ghost goal_free = valid_step(p, self.end) && (forall|r: bool|
            blocked.ensures((p, self.end), r) ==> !r) && !visited@.contains(self.end);
        proof {
            if goal_free {
                assert(arena@.len() == entry_a.len() + 1);
                assert(arena@[entry_a.len() as int].position == self.end);
                assert(frontier@ == entry_f.push(entry_a.len() as usize));
                assert(frontier@[entry_f.len() as int] == entry_a.len());
            }
        }
        let ghost snap_a = arena@;
        let ghost snap_f = frontier@;
        let mut handled = false;
        let grid = self.directions_to_grid_points(p);
        let mut i: usize = 0;
        while i < grid.len()
            invariant
                callable(*blocked),
                arena_ok(arena@, self.start, *blocked, trials as int),
                frontier_ok(frontier@, arena@.len() as int),
                costs_exact(arena@, self.end),
                grows(snap_a, arena@, snap_f, frontier@, cur),
                cur < snap_a.len(),
                cur < arena@.len(),
                arena@[cur as int] == cur_node,
                cur_node.depth < trials,
                cur_node.position == p,
                trials <= ASTAR_MAX_TRIALS,
                in_range(self.end),
                in_range(p),
                sum_even(p),
                p != self.end,
            decreases grid@.len() - i,
        {
            handled = true;
            let q = grid[i].1;
                let ghost b_a = arena@;
                let ghost b_f = frontier@;
                self.push_clamped(arena, frontier, visited, cur, q, true, blocked, trials);
                proof { lemma_grows_trans(snap_a, b_a, arena@, snap_f, b_f, frontier@, cur); }
            i += 1;
        }
        let radial = self.radial_directions_wrt_obstacles(&p, blocked);
        if radial.len() > 0 {
            handled = true;
        }
        let odd = p.is_x_odd_y_odd();
        let mut j: usize = 0;
        while j < radial.len()
            invariant
                callable(*blocked),
                arena_ok(arena@, self.start, *blocked, trials as int),
                frontier_ok(frontier@, arena@.len() as int),
                costs_exact(arena@, self.end),
                grows(snap_a, arena@, snap_f, frontier@, cur),
                cur < snap_a.len(),
                cur < arena@.len(),
                arena@[cur as int] == cur_node,
                cur_node.depth < trials,
                cur_node.position == p,
                trials <= ASTAR_MAX_TRIALS,
                in_range(self.end),
                in_range(p),
                sum_even(p),
                p != self.end,
            decreases radial@.len() - j,
        {
            let d = radial[j];
            if d.is_diagonal() || !odd {
                let q = self.to_nearest_one_step_point(&p, d);
                let ghost b_a = arena@;
                let ghost b_f = frontier@;
                self.push_clamped(arena, frontier, visited, cur, q, true, blocked, trials);
                proof { lemma_grows_trans(snap_a, b_a, arena@, snap_f, b_f, frontier@, cur); }
            }
            j += 1;
        }
        if !handled {
                let ghost b_a = arena@;
                let ghost b_f = frontier@;
                self.fallback(arena, frontier, visited, cur, blocked, trials);
                proof { lemma_grows_trans(snap_a, b_a, arena@, snap_f, b_f, frontier@, cur); }
        }
        proof {
            lemma_grows_trans(entry_a, snap_a, arena@, entry_f, snap_f, frontier@, cur);
            if goal_free {
                assert(arena@[entry_a.len() as int] == snap_a[entry_a.len() as int]);
                assert(frontier@[entry_f.len() as int] == snap_f[entry_f.len() as int]);
            }
        }
    }

    /// Moves for a point off every lattice line and clear of obstacles: the
    /// first direction whose one-step point is free; else the inherited
    /// direction clamped against obstacles; else the first of the remaining
    /// non-opposite directions that clamps to a nonzero move.
    fn fallback<F: Fn(FixedVec2, FixedVec2) -> bool>(
        &self,
        arena: &mut Vec<AstarNode>,
        frontier: &mut Vec<usize>,
        visited: &Vec<FixedVec2>,
        cur: usize,
        blocked: &F,
        trials: usize,
    )
        requires
            callable(*blocked),
            arena_ok(old(arena)@, self.start, *blocked, trials as int),
            frontier_ok(old(frontier)@, old(arena)@.len() as int),
            cur < old(arena)@.len(),
            old(arena)@[cur as int].depth < trials,
            trials <= ASTAR_MAX_TRIALS,
            in_range(self.end),
            sum_even(self.end),
            costs_exact(old(arena)@, self.end),
            old(arena)@[cur as int].position != self.end,
        ensures
            arena_ok(final(arena)@, self.start, *blocked, trials as int),
            frontier_ok(final(frontier)@, final(arena)@.len() as int),
            costs_exact(final(arena)@, self.end),
            grows(old(arena)@, final(arena)@, old(frontier)@, final(frontier)@, cur),
    {
        let p = arena[cur].position;
        assert(node_ok(arena@, cur as int, self.start, *blocked));
        let ghost cur_node = arena@[cur as int];
        let ghost snap_a = arena@;
        let ghost snap_f = frontier@;
        let odd = p.is_x_odd_y_odd();
        let all = Direction::all_directions();
        let mut found = false;
        let mut j: usize = 0;
        while j < all.len() && !found
            invariant
                callable(*blocked),
                arena_ok(arena@, self.start, *blocked, trials as int),
                frontier_ok(frontier@, arena@.len() as int),
                costs_exact(arena@, self.end),
                grows(snap_a, arena@, snap_f, frontier@, cur),
                cur < snap_a.len(),
                cur < arena@.len(),
                arena@[cur as int] == cur_node,
                cur_node.depth < trials,
                cur_node.position == p,
                trials <= ASTAR_MAX_TRIALS,
                in_range(self.end),
                in_range(p),
                sum_even(p),
                p != self.end,
            decreases all@.len() - j,
        {
            let d = all[j];
            if d.is_diagonal() || !odd {
                let q = self.to_nearest_one_step_point(&p, d);
                if q.is_in_range() && q != p && !blocked(p, q) {
                let ghost b_a = arena@;
                let ghost b_f = frontier@;
                self.try_push(arena, frontier, visited, cur, q, blocked, trials);
                proof { lemma_grows_trans(snap_a, b_a, arena@, snap_f, b_f, frontier@, cur); }
                    found = true;
                }
            }
            j += 1;
        }
        if found {
            return;
        }
        let direction = match arena[cur].direction {
            Some(d) => d,
            None => Direction::Up,
        };
        let mut pushed = false;
        if direction.is_diagonal() || !odd {
            let q = self.to_nearest_one_step_point(&p, direction);
                let ghost b_a = arena@;
                let ghost b_f = frontier@;
                pushed = self.push_clamped(arena, frontier, visited, cur, q, false, blocked, trials);
                proof { lemma_grows_trans(snap_a, b_a, arena@, snap_f, b_f, frontier@, cur); }
        }
        if pushed {
            return;
        }
        let opposite = direction.opposite();
        let mut k: usize = 0;
        while k < all.len() && !pushed
            invariant
                callable(*blocked),
                arena_ok(arena@, self.start, *blocked, trials as int),
                frontier_ok(frontier@, arena@.len() as int),
                costs_exact(arena@, self.end),
                grows(snap_a, arena@, snap_f, frontier@, cur),
                cur < snap_a.len(),
                cur < arena@.len(),
                arena@[cur as int] == cur_node,
                cur_node.depth < trials,
                cur_node.position == p,
                trials <= ASTAR_MAX_TRIALS,
                in_range(self.end),
                in_range(p),
                sum_even(p),
                p != self.end,
            decreases all@.len() - k,
        {
            let d = all[k];
            if d != direction && d != opposite && (d.is_diagonal() || !odd) {
                let q = self.to_nearest_one_step_point(&p, d);
                let ghost b_a = arena@;
                let ghost b_f = frontier@;
                pushed = self.push_clamped(arena, frontier, visited, cur, q, false, blocked, trials);
                proof { lemma_grows_trans(snap_a, b_a, arena@, snap_f, b_f, frontier@, cur); }
            }
            k += 1;
        }
    }

    /// Searches for a trace from `start` to `end`. The oracle `blocked`
    /// judges each candidate segment against the obstacles, their clearance
    /// and the board's border. When the goal is aligned with the start and
    /// the oracle reports the straight segment free, the trace is that
    /// segment.
    pub fn run<F: Fn(FixedVec2, FixedVec2) -> bool>(&self, blocked: &F) -> (r: Result<
        AStarResult,
        AStarFailure,
    >)
        requires
            callable(*blocked),
            self.start != self.end,
            sum_even(self.start),
            sum_even(self.end),
            in_range(self.start),
            in_range(self.end),
        ensures
            match r {
                Ok(res) => {
                    let a = res.trace_path.anchors.0@;
                    &&& res.trace_path.wf()
                    &&& a[0] == self.start
                    &&& a[a.len() - 1] == self.end
                    &&& all_sum_even(a)
                    &&& odd_odd_entered_diagonally(a)
                    &&& all_reported_free(a, *blocked)
                    &&& res.trace_path.segments@ == segments_of(
                        a,
                        self.trace_width,
                        self.trace_clearance,
                    )
                },
                Err(f) => {
                    let e = f.expanded@;
                    let reached = f.reached@;
                    &&& no_duplicates(e)
                    &&& e.len() <= ASTAR_MAX_TRIALS
                    &&& reached.len() >= 1
                    &&& reached[0] == self.start
                    &&& f.error == AStarError::ExceededTrials ==> e.len() == ASTAR_MAX_TRIALS
                        && exists|i: int| 0 <= i < reached.len() && !e.contains(reached[i])
                    &&& f.error == AStarError::NoPath ==> forall|i: int|
                        0 <= i < reached.len() ==> e.contains(#[trigger] reached[i])
                },
            },
            valid_step(self.start, self.end) && (forall|b: bool|
                blocked.ensures((self.start, self.end), b) ==> !b) ==> match r {
                Ok(res) => res.trace_path.anchors.0@ == seq![self.start, self.end],
                Err(_) => false,
            },
    {
        let ghost direct = valid_step(self.start, self.end) && (forall|b: bool|
            blocked.ensures((self.start, self.end), b) ==> !b);
        let h0 = estimate(&self.start, &self.end);
        let root = AstarNode {
            position: self.start,
            direction: None,
            actual_length: PathLength { axis: 0, diagonal: 0 },
            estimated_cost: h0,
            prev_node: None,
            depth: 0,
        };
        let mut arena: Vec<AstarNode> = Vec::new();
        arena.push(root);
        let mut frontier: Vec<usize> = Vec::new();
        frontier.push(0);
        let mut visited: Vec<FixedVec2> = Vec::new();
        let mut trials: usize = 0;
        assert(node_ok(arena@, 0, self.start, *blocked));
        assert(cost_ok(arena@, 0, self.end));
        assert(frontier@[0] == 0usize);
        assert(frontier@.contains(0usize));
        while frontier.len() > 0
            invariant
                callable(*blocked),
                arena_ok(arena@, self.start, *blocked, trials as int),
                frontier_ok(frontier@, arena@.len() as int),
                costs_exact(arena@, self.end),
                trials <= ASTAR_MAX_TRIALS,
                in_range(self.end),
                sum_even(self.end),
                self.start != self.end,
                direct == (valid_step(self.start, self.end) && (forall|b: bool|
                    blocked.ensures((self.start, self.end), b) ==> !b)),
                direct ==> trials <= 1,
                visited@.len() == trials,
                no_duplicates(visited@),
                arena@[0].position == self.start,
                forall|k: int|
                    0 <= k < arena@.len() ==> frontier@.contains(k as usize) || visited@.contains(
                        #[trigger] arena@[k].position,
                    ),
                direct && trials == 0 ==> arena@.len() == 1 && frontier@ == seq![0usize]
                    && visited@.len() == 0,
                direct && trials == 1 ==> {
                    &&& frontier@.len() >= 1
                    &&& frontier@[0] == 1
                    &&& arena@.len() >= 2
                    &&& arena@[1].position == self.end
                    &&& forall|k: int| 1 <= k < arena@.len() ==> (#[trigger] arena@[k]).prev_node
                        == Some(0usize)
                    &&& forall|i: int| 0 <= i < frontier@.len() ==> #[trigger] frontier@[i] >= 1
                },
            decreases ASTAR_MAX_TRIALS - trials, frontier@.len(),
        {
            proof {
                if direct && trials == 1 {
                    assert(node_ok(arena@, 0, self.start, *blocked));
                    assert(cost_ok(arena@, 0, self.end));
                    assert(node_ok(arena@, 1, self.start, *blocked));
                    assert(cost_ok(arena@, 1, self.end));
                    lemma_step_length_octile(self.start, self.end);
                    let goal = arena@[frontier@[0] as int];
                    assert forall|i: int| 0 <= i < frontier@.len() implies !sqrt2_negative(
                        total_cost(#[trigger] arena@[frontier@[i] as int]).0 - total_cost(goal).0,
                        total_cost(arena@[frontier@[i] as int]).1 - total_cost(goal).1,
                    ) by {
                        let k = frontier@[i] as int;
                        assert(1 <= k < arena@.len());
                        assert(node_ok(arena@, k, self.start, *blocked));
                        assert(cost_ok(arena@, k, self.end));
                        lemma_step_length_octile(self.start, arena@[k].position);
                        lemma_octile_triangle(self.start, arena@[k].position, self.end);
                    }
                }
            }
            let idx = select_min(&arena, &frontier, Ghost(self.start), blocked, Ghost(trials as int));
            let ghost before = frontier@;
            let cur = frontier.remove(idx);
            let arena_len = arena.len();
            assert forall|k: int| 0 <= k < arena@.len() && k != cur implies frontier@.contains(k as usize) || visited@.contains(
                #[trigger] arena@[k].position,
            ) by {
                if before.contains(k as usize) {
                    let j = choose|j: int| 0 <= j < before.len() && before[j] == k as usize;
                    assert(before[idx as int] == cur);
                    assert((k as usize) as int == k);
                    if j < idx {
                        assert(frontier@[j] == k as usize);
                    } else {
                        assert(j > idx);
                        assert(frontier@[j - 1] == k as usize);
                    }
                }
            }
            assert(frontier_ok(frontier@, arena@.len() as int)) by {
                assert forall|i: int| 0 <= i < frontier@.len() implies #[trigger] frontier@[i] < arena@.len() by {
                    if i < idx {
                        assert(frontier@[i] == before[i]);
                    } else {
                        assert(frontier@[i] == before[i + 1]);
                    }
                }
            }
            let p = arena[cur].position;
            if p == self.end {
                assert(node_ok(arena@, cur as int, self.start, *blocked));
                proof {
                    lemma_chain(arena@, cur as int, self.start, *blocked, trials as int);
                    lemma_chain_entries(arena@, cur as int, self.start, self.end, *blocked, trials as int);
                    if direct {
                        assert(cur == 1);
                        assert(node_ok(arena@, 1, self.start, *blocked));
                        assert(chain(arena@, 0) == seq![self.start]);
                        assert(chain(arena@, 1) =~= seq![self.start, self.end]);
                    }
                }
                let anchors = collect_anchors(&arena, cur, Ghost(self.start), blocked, Ghost(trials as int));
                let trace_path = TracePath::from_anchors(anchors, self.trace_width, self.trace_clearance);
                return Ok(AStarResult { trace_path });
            }
            if contains_position(&visited, p) {
                continue;
            }
            if trials >= ASTAR_MAX_TRIALS {
                let reached = positions_of(&arena);
                assert(reached@[cur as int] == p);
                assert(!visited@.contains(reached@[cur as int]));
                assert(exists|i: int| 0 <= i < reached@.len() && !visited@.contains(reached@[i]));
                assert(visited@.len() == ASTAR_MAX_TRIALS);
                assert(reached@[0] == self.start);
                return Err(AStarFailure { error: AStarError::ExceededTrials, expanded: visited, reached });
            }
            assert(arena@[cur as int].depth <= trials);
            let ghost arena_before = arena@;
            let ghost frontier_before = frontier@;
            trials = trials + 1;
            let ghost visited_before = visited@;
            visited.push(p);
            assert forall|x: FixedVec2| visited_before.contains(x) implies visited@.contains(x) by {
                let j = choose|j: int| 0 <= j < visited_before.len() && visited_before[j] == x;
                assert(visited@[j] == x);
            }
            assert(visited@[visited@.len() - 1] == p);
            proof {
                if direct {
                    assert(cur == 0);
                    assert(node_ok(arena@, 0, self.start, *blocked));
                    assert(arena@[cur as int].position == self.start);
                    assert(valid_step(arena@[cur as int].position, self.end));
                    assert(!visited@.contains(self.end)) by {
                        assert(visited@ == seq![self.start]);
                        if visited@.contains(self.end) {
                            let x = choose|x: int| 0 <= x < visited@.len() && visited@[x] == self.end;
                            assert(visited@[x] == self.start);
                        }
                    }
                }
            }
            let ghost arena_mid = arena@;
            let ghost frontier_mid = frontier@;
            self.expand(&mut arena, &mut frontier, &visited, cur, blocked, trials);
            let arena_len_after = arena.len();
            assert forall|k: int| 0 <= k < arena@.len() implies frontier@.contains(k as usize) || visited@.contains(
                #[trigger] arena@[k].position,
            ) by {
                if k < arena_mid.len() {
                    assert(arena@[k] == arena_mid[k]);
                    if k != cur && frontier_mid.contains(k as usize) {
                        let j = choose|j: int| 0 <= j < frontier_mid.len() && frontier_mid[j] == k as usize;
                        assert(frontier@[j] == k as usize);
                    }
                }
            }
            proof {
                if direct {
                    assert(frontier_before.len() == 0);
                    assert(arena_before.len() == 1);
                    assert(arena@[1].position == self.end);
                    assert(frontier@[0] == 1);
                    assert forall|i: int| 0 <= i < frontier@.len() implies #[trigger] frontier@[i] >= 1 by {
                    }
                    assert forall|k: int| 1 <= k < arena@.len() implies (#[trigger] arena@[k]).prev_node
                        == Some(0usize) by {
                    }
                }
            }
        }
        let reached = positions_of(&arena);
        let reached_len = reached.len();
        assert forall|i: int| 0 <= i < reached@.len() implies visited@.contains(#[trigger] reached@[i]) by {
            assert(reached@[i] == arena@[i].position);
        }
        Err(AStarFailure { error: AStarError::NoPath, expanded: visited, reached })
    }
}

/// The positions of the nodes, in arena order.
fn positions_of(arena: &Vec<AstarNode>) -> (r: Vec<FixedVec2>)
    ensures
        r@.len() == arena@.len(),
        forall|i: int| 0 <= i < arena@.len() ==> #[trigger] r@[i] == arena@[i].position,
{
    let mut r: Vec<FixedVec2> = Vec::new();
    let mut i: usize = 0;
    while i < arena.len()
        invariant
            0 <= i <= arena@.len(),
            r@.len() == i,
            forall|k: int| 0 <= k < i ==> #[trigger] r@[k] == arena@[k].position,
        decreases arena@.len() - i,
    {
        r.push(arena[i].position);
        i += 1;
    }
    r
}

/// The step `a -> b` may join a smoothed path, the oracle aside: both ends
/// in range, `b` sum-even and entered diagonally if odd-odd, the step valid.
pub open spec fn step_geom(a: FixedVec2, b: FixedVec2) -> bool {
    in_range(a) && in_range(b) && sum_even(b) && valid_step(a, b) && entered_ok(a, b)
}

/// Replacing the middle of `p0, p1, p2` by `n1` was refused: one of the two
/// new steps breaks the rules above or was reported blocked.
pub open spec fn pair_rejected<F: Fn(FixedVec2, FixedVec2) -> bool>(
    f: F,
    p0: FixedVec2,
    n1: FixedVec2,
    p2: FixedVec2,
) -> bool {
    ||| !step_geom(p0, n1) || reported_blocked(f, p0, n1)
    ||| !step_geom(n1, p2) || reported_blocked(f, n1, p2)
}

/// Segments `i -> i + 1` and `i + 2 -> i + 3` are parallel.
pub open spec fn parallel_pair(a: Seq<FixedVec2>, i: int) -> bool {
    (a[i + 1].x - a[i].x) * (a[i + 3].y - a[i + 2].y) == (a[i + 3].x - a[i + 2].x) * (a[i
        + 1].y - a[i].y)
}

/// The two shift positions of the joining segment of a parallel pair:
/// anchor `i + 1` moved so the first outer segment takes the joining
/// segment's place, or anchor `i + 2` moved so the second does.
pub open spec fn shifted(a: Seq<FixedVec2>, i: int) -> (FixedVec2, FixedVec2) {
    (
        point(a[i].x + a[i + 2].x - a[i + 1].x, a[i].y + a[i + 2].y - a[i + 1].y),
        point(a[i + 3].x - a[i + 2].x + a[i + 1].x, a[i + 3].y - a[i + 2].y + a[i + 1].y),
    )
}

/// Replacing the middle of `p0, p1, p2, p3` by `n1, n2` was refused: one
/// of the three new steps breaks the rules above or was reported blocked.
pub open spec fn triple_rejected<F: Fn(FixedVec2, FixedVec2) -> bool>(
    f: F,
    p0: FixedVec2,
    n1: FixedVec2,
    n2: FixedVec2,
    p3: FixedVec2,
) -> bool {
    ||| !step_geom(p0, n1) || reported_blocked(f, p0, n1)
    ||| !step_geom(n1, n2) || reported_blocked(f, n1, n2)
    ||| !step_geom(n2, p3) || reported_blocked(f, n2, p3)
}

/// The three new steps keep the rules above and were reported free.
pub open spec fn triple_accepted<F: Fn(FixedVec2, FixedVec2) -> bool>(
    f: F,
    p0: FixedVec2,
    n1: FixedVec2,
    n2: FixedVec2,
    p3: FixedVec2,
) -> bool {
    &&& step_geom(p0, n1) && reported_free(f, p0, n1)
    &&& step_geom(n1, n2) && reported_free(f, n1, n2)
    &&& step_geom(n2, p3) && reported_free(f, n2, p3)
}

pub open spec fn axis_step(dx: int, dy: int) -> bool {
    (dx == 0 && dy != 0) || (dx != 0 && dy == 0)
}

pub open spec fn diagonal_step(dx: int, dy: int) -> bool {
    dx != 0 && dy != 0 && abs(dx) == abs(dy)
}

/// The anchors `i - 1 .. i + 2` form an axis-diagonal-axis corner with
/// perpendicular axes, or a diagonal-axis-diagonal one whose diagonals
/// have opposing components.
pub open spec fn is_corner(a: Seq<FixedVec2>, i: int) -> bool {
    let (p0, p1, p2, p3) = (a[i - 1], a[i], a[i + 1], a[i + 2]);
    let (x01, y01) = (p1.x - p0.x, p1.y - p0.y);
    let (x12, y12) = (p2.x - p1.x, p2.y - p1.y);
    let (x23, y23) = (p3.x - p2.x, p3.y - p2.y);
    ||| axis_step(x01, y01) && diagonal_step(x12, y12) && axis_step(x23, y23) && (x01 == 0) != (
    x23 == 0)
    ||| diagonal_step(x01, y01) && axis_step(x12, y12) && diagonal_step(x23, y23) && (sgn(x01)
        != sgn(x23) || sgn(y01) != sgn(y23))
}

/// The length of the corner's middle segment, in steps.
pub open spec fn middle_steps(a: Seq<FixedVec2>, i: int) -> int {
    let (dx, dy) = (abs(a[i + 1].x - a[i].x), abs(a[i + 1].y - a[i].y));
    if dx >= dy { dx } else { dy }
}

/// The corner's middle endpoints slid `t` steps toward each other, each
/// along its outer segment.
pub open spec fn slid(a: Seq<FixedVec2>, i: int, t: int) -> (FixedVec2, FixedVec2) {
    let (p0, p1, p2, p3) = (a[i - 1], a[i], a[i + 1], a[i + 2]);
    (
        point(p1.x + sgn(p1.x - p0.x) * t, p1.y + sgn(p1.y - p0.y) * t),
        point(p2.x - sgn(p3.x - p2.x) * t, p2.y - sgn(p3.y - p2.y) * t),
    )
}

/// The polyline invariants that smoothing preserves.
pub open spec fn smooth_ok<F: Fn(FixedVec2, FixedVec2) -> bool>(a: Seq<FixedVec2>, f: F) -> bool {
    &&& valid_anchors(a)
    &&& anchors_in_range(a)
    &&& all_sum_even(a)
    &&& odd_odd_entered_diagonally(a)
    &&& all_reported_free(a, f)
}

/// Whether `a -> b` is a step that may join a smoothed path: both ends in
/// range, `b` sum-even and entered diagonally if odd-odd, the step valid
/// and reported free.
fn acceptable_step<F: Fn(FixedVec2, FixedVec2) -> bool>(a: FixedVec2, b: FixedVec2, blocked: &F) -> (r:
    bool)
    requires
        callable(*blocked),
    ensures
        r ==> step_geom(a, b) && reported_free(*blocked, a, b),
        !r ==> !step_geom(a, b) || reported_blocked(*blocked, a, b),
{
    if !a.is_in_range() || !b.is_in_range() || !b.is_sum_even() {
        return false;
    }
    let d = match Direction::from_points(a, b) {
        Ok(d) => d,
        Err(_) => { return false; },
    };
    if b.is_x_odd_y_odd() && !d.is_diagonal() {
        return false;
    }
    !blocked(a, b)
}

/// Replaces the anchor at `j` by `np` when both steps around it stay
/// acceptable.
fn try_replace<F: Fn(FixedVec2, FixedVec2) -> bool>(
    opt: &mut Vec<FixedVec2>,
    j: usize,
    np: FixedVec2,
    blocked: &F,
) -> (r: bool)
    requires
        callable(*blocked),
        smooth_ok(old(opt)@, *blocked),
        0 < j < old(opt)@.len() - 1,
        old(opt)@.len() <= MAX_ANCHORS,
    ensures
        smooth_ok(final(opt)@, *blocked),
        final(opt)@.len() == old(opt)@.len(),
        final(opt)@[0] == old(opt)@[0],
        final(opt)@[final(opt)@.len() - 1] == old(opt)@[old(opt)@.len() - 1],
        r ==> final(opt)@ == old(opt)@.update(j as int, np),
        !r ==> final(opt)@ == old(opt)@ && pair_rejected(*blocked, old(opt)@[j - 1], np, old(opt)@[j + 1]),
{
    assert(j + 1 < opt@.len());
    let prev = opt[j - 1];
    let next = opt[j + 1];
    if !acceptable_step(prev, np, blocked) {
        return false;
    }
    if !acceptable_step(np, next, blocked) || !next.is_sum_even() {
        return false;
    }
    let ghost a = opt@;
    opt.set(j, np);
    let ghost b = opt@;
    assert forall|i: int| 0 <= i < b.len() - 1 implies #[trigger] valid_step(b[i], b[i + 1])
        && reported_free(*blocked, b[i], b[i + 1]) by {
        if i != j - 1 && i != j {
            assert(reported_free(*blocked, a[i], a[i + 1]));
            assert(valid_step(a[i], a[i + 1]));
        }
    }
    assert forall|i: int| 0 <= i < b.len() - 1 implies #[trigger] reported_free(*blocked, b[i], b[i + 1]) by {
        assert(valid_step(b[i], b[i + 1]) && reported_free(*blocked, b[i], b[i + 1]));
    }
    assert forall|i: int| 0 <= i < b.len() implies #[trigger] sum_even(b[i]) && in_range(b[i]) by {
        if i != j {
            assert(sum_even(a[i]) && in_range(a[i]));
        }
    }
    assert forall|i: int| 0 <= i < b.len() implies #[trigger] sum_even(b[i]) by {
        assert(sum_even(b[i]) && in_range(b[i]));
    }
    assert forall|i: int| 0 <= i < b.len() implies #[trigger] in_range(b[i]) by {
        assert(sum_even(b[i]) && in_range(b[i]));
    }
    assert forall|i: int| 0 <= i && i + 2 < b.len() implies #[trigger] entered_ok(b[i], b[i + 1]) by {
        if i != j - 1 && i != j {
            assert(entered_ok(a[i], a[i + 1]));
        }
    }
    true
}

/// Replaces the anchors at `j` and `j + 1` by `n1` and `n2` when the three
/// steps through them stay acceptable.
fn try_replace_pair<F: Fn(FixedVec2, FixedVec2) -> bool>(
    opt: &mut Vec<FixedVec2>,
    j: usize,
    n1: FixedVec2,
    n2: FixedVec2,
    blocked: &F,
) -> (r: bool)
    requires
        callable(*blocked),
        smooth_ok(old(opt)@, *blocked),
        0 < j,
        j + 2 < old(opt)@.len(),
        old(opt)@.len() <= MAX_ANCHORS,
    ensures
        smooth_ok(final(opt)@, *blocked),
        final(opt)@.len() == old(opt)@.len(),
        final(opt)@[0] == old(opt)@[0],
        final(opt)@[final(opt)@.len() - 1] == old(opt)@[old(opt)@.len() - 1],
        r ==> final(opt)@ == old(opt)@.update(j as int, n1).update(j + 1, n2),
        !r ==> final(opt)@ == old(opt)@ && triple_rejected(
            *blocked,
            old(opt)@[j - 1],
            n1,
            n2,
            old(opt)@[j + 2],
        ),
{
    assert(j + 2 < opt@.len());
    let prev = opt[j - 1];
    let next = opt[j + 2];
    if !acceptable_step(prev, n1, blocked) || !acceptable_step(n1, n2, blocked) {
        return false;
    }
    if !acceptable_step(n2, next, blocked) {
        return false;
    }
    let ghost a = opt@;
    opt.set(j, n1);
    opt.set(j + 1, n2);
    let ghost b = opt@;
    assert forall|i: int| 0 <= i < b.len() - 1 implies #[trigger] valid_step(b[i], b[i + 1])
        && reported_free(*blocked, b[i], b[i + 1]) by {
        if i < j - 1 || i > j + 1 {
            assert(reported_free(*blocked, a[i], a[i + 1]));
            assert(valid_step(a[i], a[i + 1]));
        }
    }
    assert forall|i: int| 0 <= i < b.len() - 1 implies #[trigger] reported_free(*blocked, b[i], b[i + 1]) by {
        assert(valid_step(b[i], b[i + 1]) && reported_free(*blocked, b[i], b[i + 1]));
    }
    assert forall|i: int| 0 <= i < b.len() implies #[trigger] sum_even(b[i]) && in_range(b[i]) by {
        if i != j && i != j + 1 {
            assert(sum_even(a[i]) && in_range(a[i]));
        }
    }
    assert forall|i: int| 0 <= i < b.len() implies #[trigger] sum_even(b[i]) by {
        assert(sum_even(b[i]) && in_range(b[i]));
    }
    assert forall|i: int| 0 <= i < b.len() implies #[trigger] in_range(b[i]) by {
        assert(sum_even(b[i]) && in_range(b[i]));
    }
    assert forall|i: int| 0 <= i && i + 2 < b.len() implies #[trigger] entered_ok(b[i], b[i + 1]) by {
        if i < j - 1 || i > j + 1 {
            assert(entered_ok(a[i], a[i + 1]));
        }
    }
    true
}

fn sign_of(v: i32) -> (r: i32)
    ensures
        r == crate::trace_path::sgn(v as int),
{
    if v > 0 {
        1
    } else if v < 0 {
        -1
    } else {
        0
    }
}

fn is_axis(d: (i32, i32)) -> (r: bool)
    ensures
        r == ((d.0 == 0 && d.1 != 0) || (d.0 != 0 && d.1 == 0)),
{
    (d.0 == 0 && d.1 != 0) || (d.0 != 0 && d.1 == 0)
}

fn is_diagonal(d: (i32, i32)) -> (r: bool)
    ensures
        r == (d.0 != 0 && d.1 != 0 && abs(d.0 as int) == abs(d.1 as int)),
{
    d.0 != 0 && d.1 != 0 && (d.0 as i64 == d.1 as i64 || d.0 as i64 == -(d.1 as i64))
}

/// The parallel-pair shift at anchor `i`: when segments `i -> i + 1` and
/// `i + 2 -> i + 3` are parallel, the joining segment slides to the first
/// of its two shift positions whose new steps are accepted.
pub fn shift_parallel<F: Fn(FixedVec2, FixedVec2) -> bool>(
    opt: &mut Vec<FixedVec2>,
    i: usize,
    blocked: &F,
) -> (r: bool)
    requires
        callable(*blocked),
        smooth_ok(old(opt)@, *blocked),
        i + 3 < old(opt)@.len(),
        old(opt)@.len() <= MAX_ANCHORS,
    ensures
        smooth_ok(final(opt)@, *blocked),
        final(opt)@.len() == old(opt)@.len(),
        final(opt)@[0] == old(opt)@[0],
        final(opt)@[final(opt)@.len() - 1] == old(opt)@[old(opt)@.len() - 1],
        r ==> parallel_pair(old(opt)@, i as int) && (final(opt)@ == old(opt)@.update(
            i + 1,
            shifted(old(opt)@, i as int).0,
        ) || (pair_rejected(
            *blocked,
            old(opt)@[i as int],
            shifted(old(opt)@, i as int).0,
            old(opt)@[i + 2],
        ) && final(opt)@ == old(opt)@.update(i + 2, shifted(old(opt)@, i as int).1))),
        !r ==> final(opt)@ == old(opt)@ && (parallel_pair(old(opt)@, i as int) ==> pair_rejected(
            *blocked,
            old(opt)@[i as int],
            shifted(old(opt)@, i as int).0,
            old(opt)@[i + 2],
        ) && pair_rejected(
            *blocked,
            old(opt)@[i + 1],
            shifted(old(opt)@, i as int).1,
            old(opt)@[i + 3],
        )),
{
    let ghost a = opt@;
    let a0 = opt[i];
    let a1 = opt[i + 1];
    let a2 = opt[i + 2];
    let a3 = opt[i + 3];
    assert(in_range(a0) && in_range(a1) && in_range(a2) && in_range(a3));
    let dx1: i64 = a1.x as i64 - a0.x as i64;
    let dy1: i64 = a1.y as i64 - a0.y as i64;
    let dx2: i64 = a3.x as i64 - a2.x as i64;
    let dy2: i64 = a3.y as i64 - a2.y as i64;
    assert(-4398046511104 <= dx1 * dy2 <= 4398046511104) by (nonlinear_arith)
        requires
            -2097152 <= dx1 <= 2097152,
            -2097152 <= dy2 <= 2097152,
    ;
    assert(-4398046511104 <= dx2 * dy1 <= 4398046511104) by (nonlinear_arith)
        requires
            -2097152 <= dx2 <= 2097152,
            -2097152 <= dy1 <= 2097152,
    ;
    if dx1 * dy2 != dx2 * dy1 {
        return false;
    }
    let new_point1 = FixedVec2 { x: a0.x + a2.x - a1.x, y: a0.y + a2.y - a1.y };
    let new_point2 = FixedVec2 { x: a3.x - a2.x + a1.x, y: a3.y - a2.y + a1.y };
    assert(new_point1 == shifted(a, i as int).0);
    assert(new_point2 == shifted(a, i as int).1);
    if try_replace(opt, i + 1, new_point1, blocked) {
        return true;
    }
    try_replace(opt, i + 2, new_point2, blocked)
}

/// The tight-wrap step on the corner at anchor `i`: when anchors
/// `i - 1 .. i + 2` form a corner, its middle endpoints slide toward each
/// other one `DELTA` at a time (t = 1, 2, ... below the middle's length),
/// and the first slide whose three new steps are accepted is kept.
pub fn tighten_corner<F: Fn(FixedVec2, FixedVec2) -> bool>(
    opt: &mut Vec<FixedVec2>,
    i: usize,
    blocked: &F,
) -> (r: bool)
    requires
        callable(*blocked),
        smooth_ok(old(opt)@, *blocked),
        1 <= i,
        i + 2 < old(opt)@.len(),
        old(opt)@.len() <= MAX_ANCHORS,
    ensures
        smooth_ok(final(opt)@, *blocked),
        final(opt)@.len() == old(opt)@.len(),
        final(opt)@[0] == old(opt)@[0],
        final(opt)@[final(opt)@.len() - 1] == old(opt)@[old(opt)@.len() - 1],
        r ==> is_corner(old(opt)@, i as int) && exists|t: int|
            1 <= t < middle_steps(old(opt)@, i as int) && final(opt)@ == old(opt)@.update(
                i as int,
                slid(old(opt)@, i as int, t).0,
            ).update(i + 1, slid(old(opt)@, i as int, t).1) && forall|t2: int|
                1 <= t2 < t ==> #[trigger] triple_rejected(
                    *blocked,
                    old(opt)@[i - 1],
                    slid(old(opt)@, i as int, t2).0,
                    slid(old(opt)@, i as int, t2).1,
                    old(opt)@[i + 2],
                ),
        !r ==> final(opt)@ == old(opt)@ && (is_corner(old(opt)@, i as int) ==> forall|t: int|
            1 <= t < middle_steps(old(opt)@, i as int) ==> #[trigger] triple_rejected(
                *blocked,
                old(opt)@[i - 1],
                slid(old(opt)@, i as int, t).0,
                slid(old(opt)@, i as int, t).1,
                old(opt)@[i + 2],
            )),
        (forall|a: FixedVec2, b: FixedVec2, x: bool| blocked.ensures((a, b), x) ==> !x)
            && is_corner(old(opt)@, i as int) && 2 < middle_steps(old(opt)@, i as int)
            && step_geom(old(opt)@[i - 1], slid(old(opt)@, i as int, 2).0)
            && step_geom(slid(old(opt)@, i as int, 2).0, slid(old(opt)@, i as int, 2).1)
            && step_geom(slid(old(opt)@, i as int, 2).1, old(opt)@[i + 2]) ==> r,
{
    let ghost a = opt@;
    let p0 = opt[i - 1];
    let p1 = opt[i];
    let p2 = opt[i + 1];
    let p3 = opt[i + 2];
    assert(in_range(p0) && in_range(p1) && in_range(p2) && in_range(p3));
    let d01 = (p1.x - p0.x, p1.y - p0.y);
    let d12 = (p2.x - p1.x, p2.y - p1.y);
    let d23 = (p3.x - p2.x, p3.y - p2.y);
    let pattern_a = is_axis(d01) && is_diagonal(d12) && is_axis(d23) && (d01.0 == 0) != (d23.0
        == 0);
    let pattern_b = is_diagonal(d01) && is_axis(d12) && is_diagonal(d23) && (sign_of(d01.0)
        != sign_of(d23.0) || sign_of(d01.1) != sign_of(d23.1));
    assert((pattern_a || pattern_b) == is_corner(a, i as int));
    if !(pattern_a || pattern_b) {
        return false;
    }
    let u01 = (sign_of(d01.0), sign_of(d01.1));
    let u23 = (sign_of(d23.0), sign_of(d23.1));
    let ax: i32 = if d12.0 < 0 { -d12.0 } else { d12.0 };
    let ay: i32 = if d12.1 < 0 { -d12.1 } else { d12.1 };
    let middle: i32 = if ax >= ay { ax } else { ay };
    assert(middle == middle_steps(a, i as int));
    let mut t: i32 = 1;
    while t < middle
        invariant
            callable(*blocked),
            1 <= i,
            i + 2 < a.len(),
            a.len() <= MAX_ANCHORS,
            opt@ == a,
            a == old(opt)@,
            is_corner(a, i as int),
            smooth_ok(a, *blocked),
            1 <= t,
            0 <= middle <= 4 * COORD_LIMIT,
            middle == middle_steps(a, i as int),
            in_range(p1),
            in_range(p2),
            p0 == a[i - 1],
            p1 == a[i as int],
            p2 == a[i + 1],
            p3 == a[i + 2],
            u01.0 == sgn(p1.x - p0.x),
            u01.1 == sgn(p1.y - p0.y),
            u23.0 == sgn(p3.x - p2.x),
            u23.1 == sgn(p3.y - p2.y),
            forall|t2: int|
                1 <= t2 < t ==> #[trigger] triple_rejected(
                    *blocked,
                    a[i - 1],
                    slid(a, i as int, t2).0,
                    slid(a, i as int, t2).1,
                    a[i + 2],
                ),
        decreases middle - t,
    {
        let n1 = FixedVec2 {
            x: (p1.x as i64 + mul_unit(u01.0, t as i64)) as i32,
            y: (p1.y as i64 + mul_unit(u01.1, t as i64)) as i32,
        };
        let n2 = FixedVec2 {
            x: (p2.x as i64 - mul_unit(u23.0, t as i64)) as i32,
            y: (p2.y as i64 - mul_unit(u23.1, t as i64)) as i32,
        };
        assert(n1 == slid(a, i as int, t as int).0);
        assert(n2 == slid(a, i as int, t as int).1);
        if try_replace_pair(opt, i, n1, n2, blocked) {
            assert(opt@ == a.update(i as int, slid(a, i as int, t as int).0).update(
                i + 1,
                slid(a, i as int, t as int).1,
            ));
            return true;
        }
        t += 1;
    }
    proof {
        if middle > 2 {
            assert(triple_rejected(
                *blocked,
                a[i - 1],
                slid(a, i as int, 2).0,
                slid(a, i as int, 2).1,
                a[i + 2],
            ));
        }
    }
    false
}

impl AStarModel {
    /// The local smoothing post-pass. First, for each pair of parallel
    /// segments joined by a third, slide the joining segment so that one of
    /// the outer segments folds into the other. Then, for each
    /// axis-diagonal-axis (perpendicular axes) or diagonal-axis-diagonal
    /// (opposing components) triple, slide the middle segment's endpoints
    /// toward each other one `DELTA` at a time, up to its full length. Each
    /// change is kept only when all the segments it touches are valid steps
    /// that the oracle reports free.
    pub fn optimize_path<F: Fn(FixedVec2, FixedVec2) -> bool>(
        &self,
        trace_path: &TracePath,
        blocked: &F,
    ) -> (r: TracePath)
        requires
            callable(*blocked),
            trace_path.wf(),
            all_sum_even(trace_path.anchors.0@),
            odd_odd_entered_diagonally(trace_path.anchors.0@),
            all_reported_free(trace_path.anchors.0@, *blocked),
        ensures
            r.wf(),
            smooth_ok(r.anchors.0@, *blocked),
            r.anchors.0@.len() == trace_path.anchors.0@.len(),
            r.anchors.0@[0] == trace_path.anchors.0@[0],
            r.anchors.0@[r.anchors.0@.len() - 1] == trace_path.anchors.0@[trace_path.anchors.0@.len() - 1],
            r.segments@ == segments_of(
                r.anchors.0@,
                trace_path.segments@[0].width,
                trace_path.segments@[0].clearance,
            ),
            trace_path.anchors.0@.len() < 4 ==> r.anchors.0@ == trace_path.anchors.0@,
    {
        let path = &trace_path.anchors.0;
        let width = trace_path.segments[0].width;
        let clearance = trace_path.segments[0].clearance;
        let mut optimized: Vec<FixedVec2> = Vec::new();
        let mut c: usize = 0;
        while c < path.len()
            invariant
                0 <= c <= path@.len(),
                optimized@ == path@.subrange(0, c as int),
            decreases path@.len() - c,
        {
            optimized.push(path[c]);
            c += 1;
        }
        assert(optimized@ =~= path@);
        let n = optimized.len();
        if n >= 4 {
            let mut i: usize = 0;
            while i < n - 3
                invariant
                    n >= 4,
                    callable(*blocked),
                    n == optimized@.len(),
                    n == path@.len(),
                    n <= MAX_ANCHORS,
                    smooth_ok(optimized@, *blocked),
                    optimized@[0] == path@[0],
                    optimized@[n - 1] == path@[n - 1],
                decreases n - i,
            {
                let advanced = shift_parallel(&mut optimized, i, blocked);
                if advanced {
                    i += 3;
                } else {
                    i += 1;
                }
            }
            let mut i: usize = 1;
            while i < n - 2
                invariant
                    n >= 4,
                    callable(*blocked),
                    1 <= i,
                    n == optimized@.len(),
                    n == path@.len(),
                    n <= MAX_ANCHORS,
                    smooth_ok(optimized@, *blocked),
                    optimized@[0] == path@[0],
                    optimized@[n - 1] == path@[n - 1],
                decreases n - i,
            {
                tighten_corner(&mut optimized, i, blocked);
                i += 1;
            }
        }
        TracePath::from_anchors(optimized, width, clearance)
    }
}

} // verus!
