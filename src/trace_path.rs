use vstd::prelude::*;

use crate::hyperparameters::COORD_LIMIT;
use crate::vec2::{in_range, FixedVec2};

verus! {

/// One of the eight compass directions a trace segment may take.
#[derive(Debug, Clone, Copy, PartialEq, Eq, Structural, Hash)]
pub enum Direction {
    Up,
    Down,
    Left,
    Right,
    TopRight,
    TopLeft,
    BottomRight,
    BottomLeft,
}

pub open spec fn abs(v: int) -> int {
    if v < 0 { -v } else { v }
}

pub open spec fn sgn(v: int) -> int {
    if v > 0 { 1 } else if v < 0 { -1 } else { 0 }
}

/// A displacement `(dx, dy)` that is nonzero and runs along one of the eight
/// compass directions.
pub open spec fn aligned(dx: int, dy: int) -> bool {
    !(dx == 0 && dy == 0) && (dx == 0 || dy == 0 || dx == dy || dx == -dy)
}

/// The number of `DELTA` steps along a compass direction that make up an
/// aligned displacement.
pub open spec fn steps(dx: int, dy: int) -> int {
    if abs(dx) >= abs(dy) { abs(dx) } else { abs(dy) }
}

/// The direction of a displacement, read off the signs of its components.
pub open spec fn direction_of(dx: int, dy: int) -> Direction {
    if dx == 0 {
        if dy > 0 { Direction::Up } else { Direction::Down }
    } else if dy == 0 {
        if dx > 0 { Direction::Right } else { Direction::Left }
    } else if dx > 0 {
        if dy > 0 { Direction::TopRight } else { Direction::BottomRight }
    } else {
        if dy > 0 { Direction::TopLeft } else { Direction::BottomLeft }
    }
}

/// The segment `a -> b` is nonzero and follows one of the eight directions.
pub open spec fn valid_step(a: FixedVec2, b: FixedVec2) -> bool {
    aligned(b.x - a.x, b.y - a.y)
}

/// The direction of the segment `a -> b`.
pub open spec fn step_direction(a: FixedVec2, b: FixedVec2) -> Direction {
    direction_of(b.x - a.x, b.y - a.y)
}

/// The length of the segment `a -> b` in `DELTA` steps along its direction.
pub open spec fn step_count(a: FixedVec2, b: FixedVec2) -> int {
    steps(b.x - a.x, b.y - a.y)
}

impl Direction {
    /// Position of the direction on the compass, clockwise from `Up`.
    pub open spec fn index(self) -> int {
        match self {
            Direction::Up => 0,
            Direction::TopRight => 1,
            Direction::Right => 2,
            Direction::BottomRight => 3,
            Direction::Down => 4,
            Direction::BottomLeft => 5,
            Direction::Left => 6,
            Direction::TopLeft => 7,
        }
    }

    pub open spec fn from_index(i: int) -> Direction {
        if i == 0 {
            Direction::Up
        } else if i == 1 {
            Direction::TopRight
        } else if i == 2 {
            Direction::Right
        } else if i == 3 {
            Direction::BottomRight
        } else if i == 4 {
            Direction::Down
        } else if i == 5 {
            Direction::BottomLeft
        } else if i == 6 {
            Direction::Left
        } else {
            Direction::TopLeft
        }
    }

    pub open spec fn dx(self) -> int {
        match self {
            Direction::Up | Direction::Down => 0,
            Direction::Right | Direction::TopRight | Direction::BottomRight => 1,
            Direction::Left | Direction::TopLeft | Direction::BottomLeft => -1,
        }
    }

    pub open spec fn dy(self) -> int {
        match self {
            Direction::Left | Direction::Right => 0,
            Direction::Up | Direction::TopRight | Direction::TopLeft => 1,
            Direction::Down | Direction::BottomRight | Direction::BottomLeft => -1,
        }
    }

    pub open spec fn diagonal(self) -> bool {
        self.dx() != 0 && self.dy() != 0
    }

    pub fn opposite(&self) -> (r: Direction)
        ensures
            r.dx() == -self.dx(),
            r.dy() == -self.dy(),
            r.index() == (self.index() + 4) % 8,
    {
        match self {
            Direction::Up => Direction::Down,
            Direction::Down => Direction::Up,
            Direction::Left => Direction::Right,
            Direction::Right => Direction::Left,
            Direction::TopRight => Direction::BottomLeft,
            Direction::TopLeft => Direction::BottomRight,
            Direction::BottomRight => Direction::TopLeft,
            Direction::BottomLeft => Direction::TopRight,
        }
    }

    pub fn is_diagonal(&self) -> (r: bool)
        ensures
            r == self.diagonal(),
    {
        matches!(
            self,
            Direction::TopRight | Direction::TopLeft | Direction::BottomRight
                | Direction::BottomLeft
        )
    }

    pub fn direction_to_int(&self) -> (r: i32)
        ensures
            r == self.index(),
    {
        match self {
            Direction::Up => 0,
            Direction::TopRight => 1,
            Direction::Right => 2,
            Direction::BottomRight => 3,
            Direction::Down => 4,
            Direction::BottomLeft => 5,
            Direction::Left => 6,
            Direction::TopLeft => 7,
        }
    }

    pub fn int_to_direction(i: i32) -> (r: Direction)
        requires
            0 <= i < 8,
        ensures
            r.index() == i,
            r == Direction::from_index(i as int),
    {
        match i {
            0 => Direction::Up,
            1 => Direction::TopRight,
            2 => Direction::Right,
            3 => Direction::BottomRight,
            4 => Direction::Down,
            5 => Direction::BottomLeft,
            6 => Direction::Left,
            _ => Direction::TopLeft,
        }
    }

    /// The direction a quarter turn counter-clockwise.
    pub fn left_90_dir(&self) -> (r: Direction)
        ensures
            r.index() == (self.index() + 6) % 8,
            r.dx() == -self.dy(),
            r.dy() == self.dx(),
    {
        let new_index = (self.direction_to_int() + 6) % 8;
        Direction::int_to_direction(new_index)
    }

    /// The direction a quarter turn clockwise.
    pub fn right_90_dir(&self) -> (r: Direction)
        ensures
            r.index() == (self.index() + 2) % 8,
            r.dx() == self.dy(),
            r.dy() == -self.dx(),
    {
        let new_index = (self.direction_to_int() + 2) % 8;
        Direction::int_to_direction(new_index)
    }

    /// The direction an eighth turn counter-clockwise.
    pub fn left_45_dir(&self) -> (r: Direction)
        ensures
            r.index() == (self.index() + 7) % 8,
            r == Direction::from_index((self.index() + 7) % 8),
    {
        let new_index = (self.direction_to_int() + 7) % 8;
        Direction::int_to_direction(new_index)
    }

    /// The direction an eighth turn clockwise.
    pub fn right_45_dir(&self) -> (r: Direction)
        ensures
            r.index() == (self.index() + 1) % 8,
            r == Direction::from_index((self.index() + 1) % 8),
    {
        let new_index = (self.direction_to_int() + 1) % 8;
        Direction::int_to_direction(new_index)
    }

    pub fn all_directions() -> (r: Vec<Direction>)
        ensures
            r@ == seq![
                Direction::Up,
                Direction::Down,
                Direction::Left,
                Direction::Right,
                Direction::TopRight,
                Direction::TopLeft,
                Direction::BottomRight,
                Direction::BottomLeft,
            ],
            forall|d: Direction| r@.contains(d),
    {
        let r = vec![
            Direction::Up,
            Direction::Down,
            Direction::Left,
            Direction::Right,
            Direction::TopRight,
            Direction::TopLeft,
            Direction::BottomRight,
            Direction::BottomLeft,
        ];
        assert forall|d: Direction| r@.contains(d) by {
            match d {
                Direction::Up => assert(r@[0] == d),
                Direction::Down => assert(r@[1] == d),
                Direction::Left => assert(r@[2] == d),
                Direction::Right => assert(r@[3] == d),
                Direction::TopRight => assert(r@[4] == d),
                Direction::TopLeft => assert(r@[5] == d),
                Direction::BottomRight => assert(r@[6] == d),
                Direction::BottomLeft => assert(r@[7] == d),
            }
        }
        r
    }

    /// The unit step of the direction, one `DELTA` per nonzero component.
    pub fn to_int_vec2(&self) -> (r: (i32, i32))
        ensures
            r.0 == self.dx(),
            r.1 == self.dy(),
    {
        match self {
            Direction::Up => (0, 1),
            Direction::Down => (0, -1),
            Direction::Left => (-1, 0),
            Direction::Right => (1, 0),
            Direction::TopRight => (1, 1),
            Direction::TopLeft => (-1, 1),
            Direction::BottomRight => (1, -1),
            Direction::BottomLeft => (-1, -1),
        }
    }

    /// The displacement of `scale` steps along the direction.
    pub fn to_fixed_vec2(&self, scale: i32) -> (r: FixedVec2)
        requires
            -2 * COORD_LIMIT <= scale <= 2 * COORD_LIMIT,
        ensures
            r.x == self.dx() * scale,
            r.y == self.dy() * scale,
    {
        let (dx, dy) = self.to_int_vec2();
        FixedVec2 { x: dx * scale, y: dy * scale }
    }

    /// Whether `start -> end` is a nonzero segment along one of the eight
    /// directions.
    pub fn is_two_points_valid_direction(start: FixedVec2, end: FixedVec2) -> (r: bool)
        ensures
            r == valid_step(start, end),
    {
        match Self::from_points(start, end) {
            Ok(_) => true,
            Err(_) => false,
        }
    }

    /// The direction of the segment `start -> end`; an error unless the
    /// segment is nonzero and aligned to one of the eight directions.
    pub fn from_points(start: FixedVec2, end: FixedVec2) -> (r: Result<Direction, DirectionError>)
        ensures
            match r {
                Ok(d) => valid_step(start, end) && d == step_direction(start, end),
                Err(e) => !valid_step(start, end) && e.dx == end.x - start.x && e.dy == end.y
                    - start.y,
            },
    {
        let dx: i64 = end.x as i64 - start.x as i64;
        let dy: i64 = end.y as i64 - start.y as i64;
        if dx == 0 && dy > 0 {
            Ok(Direction::Up)
        } else if dx == 0 && dy < 0 {
            Ok(Direction::Down)
        } else if dy == 0 && dx > 0 {
            Ok(Direction::Right)
        } else if dy == 0 && dx < 0 {
            Ok(Direction::Left)
        } else if dx > 0 && dy == dx {
            Ok(Direction::TopRight)
        } else if dx < 0 && dy == -dx {
            Ok(Direction::TopLeft)
        } else if dx > 0 && dy == -dx {
            Ok(Direction::BottomRight)
        } else if dx < 0 && dy == dx {
            Ok(Direction::BottomLeft)
        } else {
            Err(DirectionError { dx, dy })
        }
    }
}

/// A segment that is not aligned to any of the eight directions, with its
/// displacement in bit units.
#[derive(Debug, Clone, Copy, PartialEq, Eq, Structural)]
pub struct DirectionError {
    pub dx: i64,
    pub dy: i64,
}

/// An aligned displacement is `steps` unit steps along its direction.
pub proof fn lemma_aligned_decompose(dx: int, dy: int)
    requires
        aligned(dx, dy),
    ensures
        dx == direction_of(dx, dy).dx() * steps(dx, dy),
        dy == direction_of(dx, dy).dy() * steps(dx, dy),
        steps(dx, dy) > 0,
{
}


/// A straight piece of copper between two anchors, with its width and the
/// clearance it keeps from foreign copper, both in bit units.
#[derive(Debug, Clone, Copy, PartialEq, Eq, Structural)]
pub struct TraceSegment {
    pub start: FixedVec2,
    pub end: FixedVec2,
    pub width: i32,
    pub clearance: i32,
}

impl TraceSegment {
    pub fn get_direction(&self) -> (r: Direction)
        requires
            valid_step(self.start, self.end),
        ensures
            r == step_direction(self.start, self.end),
    {
        match Direction::from_points(self.start, self.end) {
            Ok(d) => d,
            Err(_) => Direction::Up,
        }
    }
}

/// The turning points of a trace path, start and end included.
#[derive(Debug, Clone, PartialEq, Eq)]
pub struct TraceAnchors(pub Vec<FixedVec2>);

/// An exact Euclidean length `axis + diagonal * sqrt(2)`, in bit units.
#[derive(Debug, Clone, Copy, PartialEq, Eq, Structural)]
pub struct PathLength {
    pub axis: i64,
    pub diagonal: i64,
}

/// A routed trace: its anchors, the segments between them and its length.
#[derive(Debug, Clone)]
pub struct TracePath {
    pub anchors: TraceAnchors,
    pub segments: Vec<TraceSegment>,
    pub length: PathLength,
}

/// Every consecutive pair of anchors is a nonzero eight-direction step, and
/// there are at least two anchors.
pub open spec fn valid_anchors(a: Seq<FixedVec2>) -> bool {
    &&& a.len() >= 2
    &&& forall|i: int| 0 <= i < a.len() - 1 ==> #[trigger] valid_step(a[i], a[i + 1])
}

/// Every anchor lies within the coordinate bound.
pub open spec fn anchors_in_range(a: Seq<FixedVec2>) -> bool {
    forall|i: int| 0 <= i < a.len() ==> #[trigger] in_range(a[i])
}

/// The segments between consecutive anchors.
pub open spec fn segments_of(a: Seq<FixedVec2>, width: i32, clearance: i32) -> Seq<TraceSegment> {
    Seq::new(
        (if a.len() == 0 { 0 } else { a.len() - 1 }) as nat,
        |i: int| TraceSegment { start: a[i], end: a[i + 1], width, clearance },
    )
}

/// The anchors that a chain of segments passes through.
pub open spec fn anchors_of(segs: Seq<TraceSegment>) -> Seq<FixedVec2> {
    if segs.len() == 0 {
        Seq::empty()
    } else {
        Seq::new(segs.len(), |i: int| segs[i].start).push(segs[segs.len() - 1].end)
    }
}

/// The exact length of one step, as `(axis, diagonal)` coefficients.
pub open spec fn step_length(a: FixedVec2, b: FixedVec2) -> (int, int) {
    if b.x - a.x != 0 && b.y - a.y != 0 {
        (0, step_count(a, b))
    } else {
        (step_count(a, b), 0)
    }
}

/// The exact length of the polyline through the anchors.
pub open spec fn anchors_length(a: Seq<FixedVec2>) -> (int, int)
    decreases a.len(),
{
    if a.len() < 2 {
        (0, 0)
    } else {
        let prev = anchors_length(a.drop_last());
        let s = step_length(a[a.len() - 2], a[a.len() - 1]);
        (prev.0 + s.0, prev.1 + s.1)
    }
}

/// Largest number of anchors a trace path may hold.
pub const MAX_ANCHORS: usize = 1048576;

impl TracePath {
    /// The anchors are a valid eight-direction polyline, the segments are
    /// exactly the ones between them, and the length is theirs.
    pub open spec fn wf(&self) -> bool {
        &&& valid_anchors(self.anchors.0@)
        &&& anchors_in_range(self.anchors.0@)
        &&& self.anchors.0@.len() <= MAX_ANCHORS
        &&& self.segments@ == segments_of(
            self.anchors.0@,
            self.segments@[0].width,
            self.segments@[0].clearance,
        )
        &&& self.length.axis == anchors_length(self.anchors.0@).0
        &&& self.length.diagonal == anchors_length(self.anchors.0@).1
    }

    /// Builds the path through `anchors`, with its segments and length.
    pub fn from_anchors(anchors: Vec<FixedVec2>, width: i32, clearance: i32) -> (r: TracePath)
        requires
            valid_anchors(anchors@),
            anchors_in_range(anchors@),
            anchors@.len() <= MAX_ANCHORS,
        ensures
            r.wf(),
            r.anchors.0@ == anchors@,
            r.segments@ == segments_of(anchors@, width, clearance),
    {
        let segments = rebuild_segments(&anchors, width, clearance);
        let length = polyline_length(&anchors);
        TracePath { anchors: TraceAnchors(anchors), segments, length }
    }

    /// Whether the path starts at `a` and ends at `b`.
    pub fn runs_between(&self, a: FixedVec2, b: FixedVec2) -> (r: bool)
        ensures
            r == (self.anchors.0@.len() >= 1 && self.anchors.0@[0] == a
                && self.anchors.0@[self.anchors.0@.len() - 1] == b),
    {
        let n = self.anchors.0.len();
        n >= 1 && self.anchors.0[0] == a && self.anchors.0[n - 1] == b
    }

    /// A copy of the path, equal in every view.
    pub fn duplicate(&self) -> (r: TracePath)
        ensures
            r.anchors.0@ == self.anchors.0@,
            r.segments@ == self.segments@,
            r.length == self.length,
    {
        let mut anchors: Vec<FixedVec2> = Vec::new();
        let mut i: usize = 0;
        while i < self.anchors.0.len()
            invariant
                0 <= i <= self.anchors.0@.len(),
                anchors@ == self.anchors.0@.subrange(0, i as int),
            decreases self.anchors.0@.len() - i,
        {
            anchors.push(self.anchors.0[i]);
            i += 1;
        }
        let mut segments: Vec<TraceSegment> = Vec::new();
        let mut j: usize = 0;
        while j < self.segments.len()
            invariant
                0 <= j <= self.segments@.len(),
                segments@ == self.segments@.subrange(0, j as int),
            decreases self.segments@.len() - j,
        {
            segments.push(self.segments[j]);
            j += 1;
        }
        assert(anchors@ =~= self.anchors.0@);
        assert(segments@ =~= self.segments@);
        TracePath { anchors: TraceAnchors(anchors), segments, length: self.length }
    }

    /// Whether any segment of `self` collides with any segment of `other`,
    /// as `segments_collide` judges each pair.
    pub fn collides_with<F: Fn(TraceSegment, TraceSegment) -> bool>(
        &self,
        other: &TracePath,
        segments_collide: &F,
    ) -> (r: bool)
        requires
            forall|a: TraceSegment, b: TraceSegment| segments_collide.requires((a, b)),
        ensures
            r ==> segments_collide_somewhere(self.segments@, other.segments@, *segments_collide),
            !r ==> paths_clear(self.segments@, other.segments@, *segments_collide),
            functional(*segments_collide) ==> r == segments_collide_somewhere(
                self.segments@,
                other.segments@,
                *segments_collide,
            ),
    {
        let mut i: usize = 0;
        while i < self.segments.len()
            invariant
                0 <= i <= self.segments@.len(),
                forall|a: TraceSegment, b: TraceSegment| segments_collide.requires((a, b)),
                forall|ii: int, j: int|
                    0 <= ii < i && 0 <= j < other.segments@.len() ==> segments_collide.ensures(
                        (self.segments@[ii], other.segments@[j]),
                        false,
                    ),
            decreases self.segments@.len() - i,
        {
            let mut j: usize = 0;
            while j < other.segments.len()
                invariant
                    0 <= i < self.segments@.len(),
                    0 <= j <= other.segments@.len(),
                    forall|a: TraceSegment, b: TraceSegment| segments_collide.requires((a, b)),
                    forall|ii: int, jj: int|
                        0 <= ii < i && 0 <= jj < other.segments@.len()
                            ==> segments_collide.ensures(
                            (self.segments@[ii], other.segments@[jj]),
                            false,
                        ),
                    forall|jj: int|
                        0 <= jj < j ==> segments_collide.ensures(
                            (self.segments@[i as int], other.segments@[jj]),
                            false,
                        ),
                decreases other.segments@.len() - j,
            {
                if segments_collide(self.segments[i], other.segments[j]) {
                    assert(segments_collide.ensures(
                        (self.segments@[i as int], other.segments@[j as int]),
                        true,
                    ));
                    return true;
                }
                j += 1;
            }
            i += 1;
        }
        proof {
            if functional(*segments_collide) && segments_collide_somewhere(
                self.segments@,
                other.segments@,
                *segments_collide,
            ) {
                let (ii, jj) = choose|ii: int, jj: int|
                    0 <= ii < self.segments@.len() && 0 <= jj < other.segments@.len()
                        && segments_collide.ensures(
                        (self.segments@[ii], other.segments@[jj]),
                        true,
                    );
                assert(segments_collide.ensures((self.segments@[ii], other.segments@[jj]), false));
            }
        }
        false
    }
}

/// Every segment of `a` was judged clear of every segment of `b`.
pub open spec fn paths_clear<F: Fn(TraceSegment, TraceSegment) -> bool>(
    a: Seq<TraceSegment>,
    b: Seq<TraceSegment>,
    f: F,
) -> bool {
    forall|i: int, j: int|
        0 <= i < a.len() && 0 <= j < b.len() ==> #[trigger] f.ensures((a[i], b[j]), false)
}

/// The predicate gives at most one answer for each pair of segments.
pub open spec fn functional<F: Fn(TraceSegment, TraceSegment) -> bool>(f: F) -> bool {
    forall|a: TraceSegment, b: TraceSegment, r1: bool, r2: bool|
        f.ensures((a, b), r1) && f.ensures((a, b), r2) ==> r1 == r2
}

/// The predicate judges the pair `(a, b)` as it judges `(b, a)`.
pub open spec fn symmetric<F: Fn(TraceSegment, TraceSegment) -> bool>(f: F) -> bool {
    forall|a: TraceSegment, b: TraceSegment, r: bool|
        f.ensures((a, b), r) <==> #[trigger] f.ensures((b, a), r)
}

/// Some segment of `a` and some segment of `b` are judged to collide.
pub open spec fn segments_collide_somewhere<F: Fn(TraceSegment, TraceSegment) -> bool>(
    a: Seq<TraceSegment>,
    b: Seq<TraceSegment>,
    f: F,
) -> bool {
    exists|i: int, j: int|
        0 <= i < a.len() && 0 <= j < b.len() && #[trigger] f.ensures((a[i], b[j]), true)
}

/// Trace-path collision is symmetric whenever segment collision is.
pub proof fn lemma_path_collision_symmetric<F: Fn(TraceSegment, TraceSegment) -> bool>(
    a: Seq<TraceSegment>,
    b: Seq<TraceSegment>,
    f: F,
)
    requires
        symmetric(f),
    ensures
        segments_collide_somewhere(a, b, f) == segments_collide_somewhere(b, a, f),
{
    if segments_collide_somewhere(a, b, f) {
        let (i, j) = choose|i: int, j: int|
            0 <= i < a.len() && 0 <= j < b.len() && #[trigger] f.ensures((a[i], b[j]), true);
        assert(f.ensures((b[j], a[i]), true));
    }
    if segments_collide_somewhere(b, a, f) {
        let (j, i) = choose|j: int, i: int|
            0 <= j < b.len() && 0 <= i < a.len() && #[trigger] f.ensures((b[j], a[i]), true);
        assert(f.ensures((a[i], b[j]), true));
    }
}

/// Splitting a path into its segments and reading the anchors back off the
/// segments gives back the same anchors.
pub proof fn lemma_segments_round_trip(a: Seq<FixedVec2>, width: i32, clearance: i32)
    requires
        a.len() >= 2,
    ensures
        anchors_of(segments_of(a, width, clearance)) == a,
{
    let segs = segments_of(a, width, clearance);
    let r = anchors_of(segs);
    assert(r.len() == a.len());
    assert forall|i: int| 0 <= i < a.len() implies r[i] == a[i] by {
        if i < a.len() - 1 {
            assert(r[i] == segs[i].start);
        } else {
            assert(r[i] == segs[a.len() - 2].end);
        }
    }
    assert(r =~= a);
}

/// The segments between consecutive anchors.
pub fn rebuild_segments(anchors: &Vec<FixedVec2>, width: i32, clearance: i32) -> (r: Vec<
    TraceSegment,
>)
    requires
        anchors@.len() >= 1,
    ensures
        r@ == segments_of(anchors@, width, clearance),
{
    let mut segments: Vec<TraceSegment> = Vec::new();
    let mut i: usize = 0;
    while i < anchors.len() - 1
        invariant
            anchors@.len() >= 1,
            0 <= i <= anchors@.len() - 1,
            segments@.len() == i,
            forall|k: int|
                0 <= k < i ==> segments@[k] == (TraceSegment {
                    start: anchors@[k],
                    end: anchors@[k + 1],
                    width,
                    clearance,
                }),
        decreases anchors@.len() - i,
    {
        segments.push(TraceSegment { start: anchors[i], end: anchors[i + 1], width, clearance });
        i += 1;
    }
    assert(segments@ =~= segments_of(anchors@, width, clearance));
    segments
}

/// The anchors that a chain of segments passes through.
pub fn recompose_anchors(segments: &Vec<TraceSegment>) -> (r: Vec<FixedVec2>)
    ensures
        r@ == anchors_of(segments@),
{
    let mut anchors: Vec<FixedVec2> = Vec::new();
    if segments.len() == 0 {
        assert(anchors@ =~= anchors_of(segments@));
        return anchors;
    }
    let mut i: usize = 0;
    while i < segments.len()
        invariant
            0 <= i <= segments@.len(),
            segments@.len() > 0,
            anchors@.len() == i,
            forall|k: int| 0 <= k < i ==> anchors@[k] == segments@[k].start,
        decreases segments@.len() - i,
    {
        anchors.push(segments[i].start);
        i += 1;
    }
    anchors.push(segments[segments.len() - 1].end);
    assert(anchors@ =~= anchors_of(segments@));
    anchors
}

/// Number of `DELTA` steps of an aligned segment, with whether it is diagonal.
pub(crate) fn step_parts(a: FixedVec2, b: FixedVec2) -> (r: (i64, i64))
    requires
        in_range(a),
        in_range(b),
    ensures
        r.0 == step_length(a, b).0,
        r.1 == step_length(a, b).1,
        0 <= r.0 <= 4 * COORD_LIMIT,
        0 <= r.1 <= 4 * COORD_LIMIT,
{
    let dx: i64 = b.x as i64 - a.x as i64;
    let dy: i64 = b.y as i64 - a.y as i64;
    let ax: i64 = if dx < 0 { -dx } else { dx };
    let ay: i64 = if dy < 0 { -dy } else { dy };
    let n: i64 = if ax >= ay { ax } else { ay };
    if dx != 0 && dy != 0 {
        (0, n)
    } else {
        (n, 0)
    }
}

/// The exact length of the polyline through `anchors`.
pub fn polyline_length(anchors: &Vec<FixedVec2>) -> (r: PathLength)
    requires
        anchors_in_range(anchors@),
        anchors@.len() <= MAX_ANCHORS,
    ensures
        r.axis == anchors_length(anchors@).0,
        r.diagonal == anchors_length(anchors@).1,
{
    let mut axis: i64 = 0;
    let mut diagonal: i64 = 0;
    if anchors.len() < 2 {
        return PathLength { axis, diagonal };
    }
    let mut i: usize = 1;
    while i < anchors.len()
        invariant
            1 <= i <= anchors@.len(),
            anchors_in_range(anchors@),
            anchors@.len() <= MAX_ANCHORS,
            axis == anchors_length(anchors@.subrange(0, i as int)).0,
            diagonal == anchors_length(anchors@.subrange(0, i as int)).1,
            0 <= axis <= i * 4 * COORD_LIMIT,
            0 <= diagonal <= i * 4 * COORD_LIMIT,
        decreases anchors@.len() - i,
    {
        let (sa, sd) = step_parts(anchors[i - 1], anchors[i]);
        proof {
            let pre = anchors@.subrange(0, i as int + 1);
            assert(pre.drop_last() =~= anchors@.subrange(0, i as int));
            assert(pre[pre.len() - 2] == anchors@[i - 1]);
            assert(pre[pre.len() - 1] == anchors@[i as int]);
        }
        axis = axis + sa;
        diagonal = diagonal + sd;
        i += 1;
    }
    assert(anchors@.subrange(0, anchors@.len() as int) =~= anchors@);
    PathLength { axis, diagonal }
}

} // verus!
