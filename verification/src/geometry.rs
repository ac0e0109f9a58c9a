//! Integer 2-D geometry: quarter-turn rotations, rectangle symmetries,
//! directions, vectors and rectangles.
//!
//! Axes are mathematical: `x` grows to the right, `y` grows upward.

use crate::relation::{InvertibleRelation, RelationMatrix};
use vstd::prelude::*;
use vstd::std_specs::convert::FromSpecImpl;
use vstd::std_specs::ops::{AddSpecImpl, SubSpecImpl};

verus! {

/// Anti-clockwise quarter turns.
#[derive(Clone, Copy, Debug, PartialEq, Eq, Structural)]
pub enum Rotation {
    R0,
    R90,
    R180,
    R270,
}

impl Rotation {
    /// Number of quarter turns, in `0..4`.
    pub open spec fn quarter_turns(self) -> int {
        match self {
            Rotation::R0 => 0,
            Rotation::R90 => 1,
            Rotation::R180 => 2,
            Rotation::R270 => 3,
        }
    }

    /// The rotation made of `n` quarter turns, `n` taken modulo 4.
    pub open spec fn from_quarter_turns(n: int) -> Rotation {
        let m = n % 4;
        if m == 0 {
            Rotation::R0
        } else if m == 1 {
            Rotation::R90
        } else if m == 2 {
            Rotation::R180
        } else {
            Rotation::R270
        }
    }

    /// Quarter turns add up modulo 4.
    pub open spec fn spec_rotate(self, r: Rotation) -> Rotation {
        Rotation::from_quarter_turns(self.quarter_turns() + r.quarter_turns())
    }

    /// The rotation that undoes `self`.
    pub open spec fn opposite(self) -> Rotation {
        Rotation::from_quarter_turns(4 - self.quarter_turns())
    }

    /// Applies `r` after `self`.
    pub fn rotate(&self, r: Rotation) -> (res: Rotation)
        ensures
            res == self.spec_rotate(r),
    {
        let a: u8 = match self {
            Rotation::R0 => 0,
            Rotation::R90 => 1,
            Rotation::R180 => 2,
            Rotation::R270 => 3,
        };
        let b: u8 = match r {
            Rotation::R0 => 0,
            Rotation::R90 => 1,
            Rotation::R180 => 2,
            Rotation::R270 => 3,
        };
        let m: u8 = (a + b) % 4;
        if m == 0 {
            Rotation::R0
        } else if m == 1 {
            Rotation::R90
        } else if m == 2 {
            Rotation::R180
        } else {
            Rotation::R270
        }
    }
}

impl Default for Rotation {
    fn default() -> (res: Rotation)
        ensures
            res == Rotation::R0,
    {
        Rotation::R0
    }
}

/// A symmetry of an axis-aligned rectangle, in its one canonical form: an
/// optional flip of the `x` coordinate, then a rotation.
#[derive(Clone, Copy, Debug, PartialEq, Eq, Structural)]
pub struct Transform {
    pub reflect: bool,
    pub rotation: Rotation,
}

impl Default for Transform {
    fn default() -> (res: Transform)
        ensures
            res == Transform::identity(),
    {
        Transform { reflect: false, rotation: Rotation::R0 }
    }
}

impl Transform {
    /// The transform that changes nothing.
    pub open spec fn identity() -> Transform {
        Transform { reflect: false, rotation: Rotation::R0 }
    }

    /// The transform exchanges width and height.
    pub open spec fn swaps_axes(self) -> bool {
        self.rotation == Rotation::R90 || self.rotation == Rotation::R270
    }

    /// The transform followed by the rotation `r`.
    pub open spec fn spec_rotate(self, r: Rotation) -> Transform {
        Transform { reflect: self.reflect, rotation: self.rotation.spec_rotate(r) }
    }

    /// Flipping `x` after a rotation is the opposite rotation after the flip.
    pub open spec fn spec_reflect_x(self) -> Transform {
        Transform { reflect: !self.reflect, rotation: self.rotation.opposite() }
    }

    /// Flipping `y` is flipping `x` followed by a half turn.
    pub open spec fn spec_reflect_y(self) -> Transform {
        self.spec_reflect_x().spec_rotate(Rotation::R180)
    }

    /// Where the transform sends the point `p`: the flip of `x` first, then
    /// the quarter turns, anti-clockwise.
    pub open spec fn image(self, p: (int, int)) -> (int, int) {
        let q = if self.reflect {
            (-p.0, p.1)
        } else {
            p
        };
        match self.rotation {
            Rotation::R0 => q,
            Rotation::R90 => (-q.1, q.0),
            Rotation::R180 => (-q.0, -q.1),
            Rotation::R270 => (q.1, -q.0),
        }
    }

    /// Whether the transform exchanges width and height.
    pub fn are_axis_swapped(&self) -> (res: bool)
        ensures
            res == self.swaps_axes(),
    {
        match self.rotation {
            Rotation::R0 | Rotation::R180 => false,
            Rotation::R90 | Rotation::R270 => true,
        }
    }

    /// Applies the rotation `r` after this transform.
    pub fn rotate(&self, r: Rotation) -> (res: Transform)
        ensures
            res == self.spec_rotate(r),
    {
        Transform { reflect: self.reflect, rotation: self.rotation.rotate(r) }
    }

    /// Applies a flip of the `x` coordinate after this transform.
    pub fn reflect_x(&self) -> (res: Transform)
        ensures
            res == self.spec_reflect_x(),
    {
        Transform {
            reflect: !self.reflect,
            rotation: match self.rotation {
                Rotation::R0 => Rotation::R0,
                Rotation::R90 => Rotation::R270,
                Rotation::R180 => Rotation::R180,
                Rotation::R270 => Rotation::R90,
            },
        }
    }

    /// Applies a flip of the `y` coordinate after this transform.
    pub fn reflect_y(&self) -> (res: Transform)
        ensures
            res == self.spec_reflect_y(),
    {
        Transform {
            reflect: !self.reflect,
            rotation: match self.rotation {
                Rotation::R0 => Rotation::R180,
                Rotation::R90 => Rotation::R90,
                Rotation::R180 => Rotation::R0,
                Rotation::R270 => Rotation::R270,
            },
        }
    }
}

/// A half turn is the two flips, one after the other.
pub proof fn lemma_half_turn_is_both_reflections(t: Transform)
    ensures
        t.spec_rotate(Rotation::R180) == t.spec_reflect_x().spec_reflect_y(),
{
}

/// A quarter turn followed by a flip of `y` is three quarter turns followed
/// by a flip of `x`.
pub proof fn lemma_quarter_turn_reflections(t: Transform)
    ensures
        t.spec_rotate(Rotation::R90).spec_reflect_y() == t.spec_rotate(Rotation::R270).spec_reflect_x(),
{
}

/// Rotating four times by the same rotation gives the transform back.
pub proof fn lemma_rotation_order_four(t: Transform, r: Rotation)
    ensures
        t.spec_rotate(r).spec_rotate(r).spec_rotate(r).spec_rotate(r) == t,
        t.spec_rotate(r).spec_rotate(r.opposite()) == t,
{
}

/// Each operation acts on points as its name says: `rotate` turns the image
/// of the transform, `reflect_x` negates its `x`, `reflect_y` its `y`.
pub proof fn lemma_transform_images(t: Transform, r: Rotation, p: (int, int))
    ensures
        t.spec_rotate(r).image(p) == (Transform { reflect: false, rotation: r }).image(t.image(p)),
        t.spec_reflect_x().image(p) == (-t.image(p).0, t.image(p).1),
        t.spec_reflect_y().image(p) == (t.image(p).0, -t.image(p).1),
{
}

/// Where one output stands with respect to another.
#[derive(Clone, Copy, Debug, PartialEq, Eq, Structural)]
pub enum Direction {
    LeftOf,
    RightOf,
    Above,
    Under,
}

impl Direction {
    /// The direction of the other element to this one.
    pub open spec fn spec_inverse(self) -> Direction {
        match self {
            Direction::LeftOf => Direction::RightOf,
            Direction::RightOf => Direction::LeftOf,
            Direction::Above => Direction::Under,
            Direction::Under => Direction::Above,
        }
    }
}

impl InvertibleRelation for Direction {
    open spec fn inverse_spec(&self) -> Direction {
        self.spec_inverse()
    }

    fn inverse(&self) -> (res: Direction) {
        match self {
            Direction::LeftOf => Direction::RightOf,
            Direction::RightOf => Direction::LeftOf,
            Direction::Above => Direction::Under,
            Direction::Under => Direction::Above,
        }
    }
}

/// A pair of values, used as a coordinate or as a size.
#[derive(Debug, PartialEq, Eq, Structural)]
pub struct Vec2d<T> {
    pub x: T,
    pub y: T,
}

impl<T: Copy> Clone for Vec2d<T> {
    fn clone(&self) -> (res: Self)
        ensures
            res == *self,
    {
        *self
    }
}

impl<T: Copy> Copy for Vec2d<T> {

}

/// Integer coordinates or sizes.
pub type Vec2di = Vec2d<i32>;

impl<T> Vec2d<T> {
    /// The pair with its two components exchanged where `swap` holds.
    pub open spec fn swap_if(self, swap: bool) -> Vec2d<T> {
        if swap {
            Vec2d { x: self.y, y: self.x }
        } else {
            self
        }
    }

    /// The pair of `x` and `y`.
    pub fn new(x: T, y: T) -> (res: Self)
        ensures
            res == (Vec2d { x, y }),
    {
        Vec2d { x, y }
    }

    /// The pair as it is after `transform`: exchanged where the transform
    /// swaps the axes.
    pub fn apply(self, transform: &Transform) -> (res: Vec2d<T>)
        ensures
            res == self.swap_if(transform.swaps_axes()),
    {
        match transform.are_axis_swapped() {
            false => self,
            true => Vec2d::new(self.y, self.x),
        }
    }
}

impl<T> From<(T, T)> for Vec2d<T> {
    fn from(pair: (T, T)) -> (res: Self) {
        Vec2d { x: pair.0, y: pair.1 }
    }
}

impl<T> FromSpecImpl<(T, T)> for Vec2d<T> {
    open spec fn obeys_from_spec() -> bool {
        true
    }

    open spec fn from_spec(pair: (T, T)) -> Self {
        Vec2d { x: pair.0, y: pair.1 }
    }
}

impl Default for Vec2d<i32> {
    fn default() -> (res: Vec2d<i32>)
        ensures
            res == (Vec2d { x: 0i32, y: 0i32 }),
    {
        Vec2d { x: 0, y: 0 }
    }
}

impl Default for Vec2d<u32> {
    fn default() -> (res: Vec2d<u32>)
        ensures
            res == (Vec2d { x: 0u32, y: 0u32 }),
    {
        Vec2d { x: 0, y: 0 }
    }
}

impl core::ops::Add for Vec2d<i32> {
    type Output = Vec2d<i32>;

    fn add(self, rhs: Vec2d<i32>) -> (res: Vec2d<i32>) {
        Vec2d { x: self.x + rhs.x, y: self.y + rhs.y }
    }
}

impl AddSpecImpl for Vec2d<i32> {
    open spec fn obeys_add_spec() -> bool {
        true
    }

    open spec fn add_req(self, rhs: Vec2d<i32>) -> bool {
        &&& i32::MIN <= self.x + rhs.x <= i32::MAX
        &&& i32::MIN <= self.y + rhs.y <= i32::MAX
    }

    open spec fn add_spec(self, rhs: Vec2d<i32>) -> Vec2d<i32> {
        Vec2d { x: (self.x + rhs.x) as i32, y: (self.y + rhs.y) as i32 }
    }
}

impl core::ops::Sub for Vec2d<i32> {
    type Output = Vec2d<i32>;

    fn sub(self, rhs: Vec2d<i32>) -> (res: Vec2d<i32>) {
        Vec2d { x: self.x - rhs.x, y: self.y - rhs.y }
    }
}

impl SubSpecImpl for Vec2d<i32> {
    open spec fn obeys_sub_spec() -> bool {
        true
    }

    open spec fn sub_req(self, rhs: Vec2d<i32>) -> bool {
        &&& i32::MIN <= self.x - rhs.x <= i32::MAX
        &&& i32::MIN <= self.y - rhs.y <= i32::MAX
    }

    open spec fn sub_spec(self, rhs: Vec2d<i32>) -> Vec2d<i32> {
        Vec2d { x: (self.x - rhs.x) as i32, y: (self.y - rhs.y) as i32 }
    }
}

impl Vec2d<i32> {
    /// The lower of the two values, for each component.
    pub open spec fn spec_cwise_min(self, rhs: Vec2d<i32>) -> Vec2d<i32> {
        Vec2d {
            x: if self.x <= rhs.x { self.x } else { rhs.x },
            y: if self.y <= rhs.y { self.y } else { rhs.y },
        }
    }

    /// The higher of the two values, for each component.
    pub open spec fn spec_cwise_max(self, rhs: Vec2d<i32>) -> Vec2d<i32> {
        Vec2d {
            x: if self.x >= rhs.x { self.x } else { rhs.x },
            y: if self.y >= rhs.y { self.y } else { rhs.y },
        }
    }

    /// Component-wise minimum.
    pub fn cwise_min(self, rhs: Vec2d<i32>) -> (res: Vec2d<i32>)
        ensures
            res == self.spec_cwise_min(rhs),
    {
        Vec2d {
            x: if self.x <= rhs.x { self.x } else { rhs.x },
            y: if self.y <= rhs.y { self.y } else { rhs.y },
        }
    }

    /// Component-wise maximum.
    pub fn cwise_max(self, rhs: Vec2d<i32>) -> (res: Vec2d<i32>)
        ensures
            res == self.spec_cwise_max(rhs),
    {
        Vec2d {
            x: if self.x >= rhs.x { self.x } else { rhs.x },
            y: if self.y >= rhs.y { self.y } else { rhs.y },
        }
    }
}

impl Vec2d<u32> {
    /// The lower of the two values, for each component.
    pub open spec fn spec_cwise_min(self, rhs: Vec2d<u32>) -> Vec2d<u32> {
        Vec2d {
            x: if self.x <= rhs.x { self.x } else { rhs.x },
            y: if self.y <= rhs.y { self.y } else { rhs.y },
        }
    }

    /// The higher of the two values, for each component.
    pub open spec fn spec_cwise_max(self, rhs: Vec2d<u32>) -> Vec2d<u32> {
        Vec2d {
            x: if self.x >= rhs.x { self.x } else { rhs.x },
            y: if self.y >= rhs.y { self.y } else { rhs.y },
        }
    }

    /// Component-wise minimum.
    pub fn cwise_min(self, rhs: Vec2d<u32>) -> (res: Vec2d<u32>)
        ensures
            res == self.spec_cwise_min(rhs),
    {
        Vec2d {
            x: if self.x <= rhs.x { self.x } else { rhs.x },
            y: if self.y <= rhs.y { self.y } else { rhs.y },
        }
    }

    /// Component-wise maximum.
    pub fn cwise_max(self, rhs: Vec2d<u32>) -> (res: Vec2d<u32>)
        ensures
            res == self.spec_cwise_max(rhs),
    {
        Vec2d {
            x: if self.x >= rhs.x { self.x } else { rhs.x },
            y: if self.y >= rhs.y { self.y } else { rhs.y },
        }
    }
}

/// Half of `v`, rounded toward zero.
pub open spec fn half(v: int) -> int {
    if v >= 0 {
        v / 2
    } else {
        -((-v) / 2)
    }
}

/// A rectangle that covers `[left, right) x [bottom, top)`: its top and right
/// sides are excluded.
#[derive(Clone, Copy, Debug, PartialEq, Eq, Structural)]
pub struct Rect {
    pub bottom_left: Vec2di,
    pub size: Vec2di,
}

impl Rect {
    /// A rectangle has no negative extent.
    pub open spec fn wf(self) -> bool {
        self.size.x >= 0 && self.size.y >= 0
    }

    /// All four corners have coordinates in the range of `i32`.
    pub open spec fn in_range(self) -> bool {
        &&& i32::MIN <= self.right() <= i32::MAX
        &&& i32::MIN <= self.top() <= i32::MAX
    }

    /// Abscissa of the left side.
    pub open spec fn left(self) -> int {
        self.bottom_left.x as int
    }

    /// Abscissa of the right side, which the rectangle does not cover.
    pub open spec fn right(self) -> int {
        self.bottom_left.x + self.size.x
    }

    /// Ordinate of the bottom side.
    pub open spec fn bottom(self) -> int {
        self.bottom_left.y as int
    }

    /// Ordinate of the top side, which the rectangle does not cover.
    pub open spec fn top(self) -> int {
        self.bottom_left.y + self.size.y
    }

    /// Abscissa of the middle of the horizontal sides.
    pub open spec fn mid_x(self) -> int {
        self.bottom_left.x + half(self.size.x as int)
    }

    /// Ordinate of the middle of the vertical sides.
    pub open spec fn mid_y(self) -> int {
        self.bottom_left.y + half(self.size.y as int)
    }

    /// The two rectangles share a point of positive area: neither lies
    /// entirely on one side of the other.
    pub open spec fn spec_overlaps(self, other: Rect) -> bool {
        &&& other.left() < self.right()
        &&& self.left() < other.right()
        &&& other.bottom() < self.top()
        &&& self.bottom() < other.top()
    }

    /// The twofold distance between the middles along a shared side is at
    /// most the larger of the two extents along it.
    pub open spec fn slides_within(mid_a: int, mid_b: int, extent_a: int, extent_b: int) -> bool {
        let d = mid_a - mid_b;
        let dist = if d >= 0 { d } else { -d };
        let extent = if extent_a >= extent_b { extent_a } else { extent_b };
        2 * dist <= extent
    }

    /// The right side of `self` lies on the left side of `other`, the two
    /// middles close enough.
    pub open spec fn touches_left_of(self, other: Rect) -> bool {
        &&& self.right() == other.left()
        &&& Rect::slides_within(self.mid_y(), other.mid_y(), self.size.y as int, other.size.y as int)
    }

    /// The top side of `self` lies on the bottom side of `other`, the two
    /// middles close enough.
    pub open spec fn touches_under(self, other: Rect) -> bool {
        &&& self.top() == other.bottom()
        &&& Rect::slides_within(self.mid_x(), other.mid_x(), self.size.x as int, other.size.x as int)
    }

    /// The direction in which `self` is adjacent to `other`, if any. Where
    /// several sides qualify the first of left, right, under, above wins.
    pub open spec fn spec_adjacent_direction(self, other: Rect) -> Option<Direction> {
        if self.touches_left_of(other) {
            Some(Direction::LeftOf)
        } else if other.touches_left_of(self) {
            Some(Direction::RightOf)
        } else if self.touches_under(other) {
            Some(Direction::Under)
        } else if other.touches_under(self) {
            Some(Direction::Above)
        } else {
            None
        }
    }

    /// The top right corner.
    pub fn top_right(&self) -> (res: Vec2di)
        requires
            self.in_range(),
        ensures
            res.x == self.right(),
            res.y == self.top(),
    {
        self.bottom_left + self.size
    }

    /// The bottom right corner.
    pub fn bottom_right(&self) -> (res: Vec2di)
        requires
            i32::MIN <= self.right() <= i32::MAX,
        ensures
            res.x == self.right(),
            res.y == self.bottom(),
    {
        self.bottom_left + Vec2d::new(self.size.x, 0)
    }

    /// The top left corner.
    pub fn top_left(&self) -> (res: Vec2di)
        requires
            i32::MIN <= self.top() <= i32::MAX,
        ensures
            res.x == self.left(),
            res.y == self.top(),
    {
        self.bottom_left + Vec2d::new(0, self.size.y)
    }

    /// The middle of the bottom side.
    pub fn center_bottom(&self) -> (res: Vec2di)
        requires
            i32::MIN <= self.mid_x() <= i32::MAX,
        ensures
            res.x == self.mid_x(),
            res.y == self.bottom(),
    {
        self.bottom_left + Vec2d::new(self.size.x / 2, 0)
    }

    /// The middle of the top side.
    pub fn center_top(&self) -> (res: Vec2di)
        requires
            i32::MIN <= self.mid_x() <= i32::MAX,
            i32::MIN <= self.top() <= i32::MAX,
        ensures
            res.x == self.mid_x(),
            res.y == self.top(),
    {
        self.bottom_left + Vec2d::new(self.size.x / 2, self.size.y)
    }

    /// The middle of the left side.
    pub fn center_left(&self) -> (res: Vec2di)
        requires
            i32::MIN <= self.mid_y() <= i32::MAX,
        ensures
            res.x == self.left(),
            res.y == self.mid_y(),
    {
        self.bottom_left + Vec2d::new(0, self.size.y / 2)
    }

    /// The middle of the right side.
    pub fn center_right(&self) -> (res: Vec2di)
        requires
            i32::MIN <= self.right() <= i32::MAX,
            i32::MIN <= self.mid_y() <= i32::MAX,
        ensures
            res.x == self.right(),
            res.y == self.mid_y(),
    {
        self.bottom_left + Vec2d::new(self.size.x, self.size.y / 2)
    }

    /// The same rectangle moved by `delta`.
    pub fn offset(&self, delta: Vec2di) -> (res: Rect)
        requires
            i32::MIN <= self.bottom_left.x + delta.x <= i32::MAX,
            i32::MIN <= self.bottom_left.y + delta.y <= i32::MAX,
        ensures
            res.bottom_left.x == self.bottom_left.x + delta.x,
            res.bottom_left.y == self.bottom_left.y + delta.y,
            res.size == self.size,
    {
        Rect { bottom_left: self.bottom_left + delta, size: self.size }
    }

    /// Whether the two rectangles overlap.
    pub fn overlaps(&self, other: &Rect) -> (res: bool)
        ensures
            res == self.spec_overlaps(*other),
    {
        let self_right: i64 = self.bottom_left.x as i64 + self.size.x as i64;
        let self_top: i64 = self.bottom_left.y as i64 + self.size.y as i64;
        let other_right: i64 = other.bottom_left.x as i64 + other.size.x as i64;
        let other_top: i64 = other.bottom_left.y as i64 + other.size.y as i64;
        let left_of = self_right <= other.bottom_left.x as i64;
        let right_of = other_right <= self.bottom_left.x as i64;
        let under = self_top <= other.bottom_left.y as i64;
        let above = other_top <= self.bottom_left.y as i64;
        !(left_of || right_of || under || above)
    }

    /// In which direction `self` is adjacent to `rhs`, if it is: the two
    /// touch along one side, and the middles of the touching sides are no
    /// further apart than half of the longer of the two.
    pub fn adjacent_direction(&self, rhs: &Rect) -> (res: Option<Direction>)
        ensures
            res == self.spec_adjacent_direction(*rhs),
    {
        let max_x: i64 = if self.size.x >= rhs.size.x { self.size.x as i64 } else { rhs.size.x as i64 };
        let max_y: i64 = if self.size.y >= rhs.size.y { self.size.y as i64 } else { rhs.size.y as i64 };
        let l_left: i64 = self.bottom_left.x as i64;
        let l_right: i64 = self.bottom_left.x as i64 + self.size.x as i64;
        let l_bottom: i64 = self.bottom_left.y as i64;
        let l_top: i64 = self.bottom_left.y as i64 + self.size.y as i64;
        let l_mid_x: i64 = self.bottom_left.x as i64 + (self.size.x / 2) as i64;
        let l_mid_y: i64 = self.bottom_left.y as i64 + (self.size.y / 2) as i64;
        let r_left: i64 = rhs.bottom_left.x as i64;
        let r_right: i64 = rhs.bottom_left.x as i64 + rhs.size.x as i64;
        let r_bottom: i64 = rhs.bottom_left.y as i64;
        let r_top: i64 = rhs.bottom_left.y as i64 + rhs.size.y as i64;
        let r_mid_x: i64 = rhs.bottom_left.x as i64 + (rhs.size.x / 2) as i64;
        let r_mid_y: i64 = rhs.bottom_left.y as i64 + (rhs.size.y / 2) as i64;
        let dist_x: i64 = if l_mid_x >= r_mid_x { l_mid_x - r_mid_x } else { r_mid_x - l_mid_x };
        let dist_y: i64 = if l_mid_y >= r_mid_y { l_mid_y - r_mid_y } else { r_mid_y - l_mid_y };
        let close_x = 2 * dist_x <= max_x;
        let close_y = 2 * dist_y <= max_y;
        if l_right == r_left && close_y {
            Some(Direction::LeftOf)
        } else if l_left == r_right && close_y {
            Some(Direction::RightOf)
        } else if l_top == r_bottom && close_x {
            Some(Direction::Under)
        } else if l_bottom == r_top && close_x {
            Some(Direction::Above)
        } else {
            None
        }
    }
}

/// Overlap does not depend on the order of the two rectangles.
pub proof fn lemma_overlaps_symmetric(a: Rect, b: Rect)
    ensures
        a.spec_overlaps(b) == b.spec_overlaps(a),
{
}

/// Two rectangles that are adjacent do not overlap.
pub proof fn lemma_adjacent_excludes_overlap(a: Rect, b: Rect)
    ensures
        a.spec_adjacent_direction(b).is_some() ==> !a.spec_overlaps(b),
{
}

/// Seen from the other rectangle an adjacency is the inverse direction,
/// unless the two touch on both opposite sides at once, which takes two
/// rectangles of no extent along that axis.
pub proof fn lemma_adjacent_direction_inverse(a: Rect, b: Rect, d: Direction)
    requires
        a.wf(),
        b.wf(),
        a.spec_adjacent_direction(b) == Some(d),
        d == Direction::LeftOf ==> a.size.x > 0 || b.size.x > 0,
        d == Direction::Under ==> a.size.y > 0 || b.size.y > 0,
    ensures
        b.spec_adjacent_direction(a) == Some(d.spec_inverse()),
{
}

/// Taking the inverse of a direction twice gives it back.
pub proof fn lemma_direction_inverse_involutive(d: Direction)
    ensures
        d.spec_inverse().spec_inverse() == d,
        d.spec_inverse() != d,
{
}

/// In a matrix of directions the relation of `j` to `i` is the inverse of
/// that of `i` to `j`, for every pair of distinct elements.
pub proof fn lemma_directions_antisymmetric(matrix: &RelationMatrix<Direction>, i: int, j: int)
    requires
        i != j,
    ensures
        matrix.spec_get(j, i) == (match matrix.spec_get(i, j) {
            Some(d) => Some(d.spec_inverse()),
            None => None,
        }),
{
    if i > j {
        match matrix.spec_get(j, i) {
            Some(d) => lemma_direction_inverse_involutive(d),
            None => {},
        }
    }
    matrix.lemma_get_antisymmetric(i, j);
}

} // verus!
