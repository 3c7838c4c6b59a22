use vstd::prelude::*;

use crate::hyperparameters::COORD_LIMIT;

verus! {

/// A position or displacement in fixed-point bit units: the real value of a
/// coordinate is `bits / 256`.
#[derive(Debug, Clone, Copy, PartialEq, Eq, Structural, Hash)]
pub struct FixedVec2 {
    pub x: i32,
    pub y: i32,
}

/// Both coordinates lie within the router's coordinate bound.
pub open spec fn in_range(p: FixedVec2) -> bool {
    -COORD_LIMIT <= p.x <= COORD_LIMIT && -COORD_LIMIT <= p.y <= COORD_LIMIT
}

/// `x + y` is even in bit units (equivalently, `x - y` is even).
pub open spec fn sum_even(p: FixedVec2) -> bool {
    (p.x + p.y) % 2 == 0
}

/// Both coordinates are odd in bit units.
pub open spec fn odd_odd(p: FixedVec2) -> bool {
    p.x % 2 == 1 && p.y % 2 == 1
}

/// Parity of a 32-bit value: `true` when it is odd.
pub fn is_odd(v: i32) -> (r: bool)
    ensures
        r == (v % 2 == 1),
{
    match v.checked_rem_euclid(2) {
        Some(m) => m == 1,
        None => false,
    }
}

impl FixedVec2 {
    pub fn new(x: i32, y: i32) -> (r: FixedVec2)
        ensures
            r.x == x,
            r.y == y,
    {
        FixedVec2 { x, y }
    }

    pub fn is_x_odd_y_odd(&self) -> (r: bool)
        ensures
            r == odd_odd(*self),
    {
        is_odd(self.x) && is_odd(self.y)
    }

    pub fn is_sum_even(&self) -> (r: bool)
        ensures
            r == sum_even(*self),
    {
        let s: i64 = self.x as i64 + self.y as i64;
        match s.checked_rem_euclid(2) {
            Some(m) => m == 0,
            None => false,
        }
    }

    pub fn is_in_range(&self) -> (r: bool)
        ensures
            r == in_range(*self),
    {
        -COORD_LIMIT <= self.x && self.x <= COORD_LIMIT && -COORD_LIMIT <= self.y && self.y
            <= COORD_LIMIT
    }

    pub fn add(self, other: FixedVec2) -> (r: FixedVec2)
        requires
            in_range(self),
            in_range(other),
        ensures
            r.x == self.x + other.x,
            r.y == self.y + other.y,
    {
        FixedVec2 { x: self.x + other.x, y: self.y + other.y }
    }

    pub fn sub(self, other: FixedVec2) -> (r: FixedVec2)
        requires
            in_range(self),
            in_range(other),
        ensures
            r.x == self.x - other.x,
            r.y == self.y - other.y,
    {
        FixedVec2 { x: self.x - other.x, y: self.y - other.y }
    }
}

/// A point is sum-even exactly when `x - y` is even: both parity rules on
/// anchors are one.
pub proof fn lemma_sum_even_iff_difference_even(p: FixedVec2)
    ensures
        sum_even(p) <==> (p.x - p.y) % 2 == 0,
{
    assert((p.x + p.y) == (p.x - p.y) + 2 * p.y);
}

} // verus!
