//! Points and axis-aligned rectangles on an integer grid.
//!
//! The x axis grows to the right and the y axis grows downwards, so the
//! corner `(x, y)` of a rectangle is its top-left one.

use vstd::prelude::*;

verus! {

/// A point of the grid.
#[derive(Debug, Clone, Copy, PartialEq, Eq, Structural)]
pub struct Position {
    pub x: i32,
    pub y: i32,
}

impl Position {
    pub fn new(x: i32, y: i32) -> (p: Position)
        ensures
            p == (Position { x, y }),
    {
        Position { x, y }
    }
}

/// An axis-aligned rectangle: its top-left corner and its extents.
#[derive(Debug, Clone, Copy, PartialEq, Eq, Structural)]
pub struct Box {
    /// Left edge.
    pub x: i32,
    /// Top edge.
    pub y: i32,
    pub size_x: i32,
    pub size_y: i32,
}

impl Box {
    /// The x coordinate of the right edge.
    pub open spec fn right(self) -> int {
        self.x + self.size_x
    }

    /// The y coordinate of the bottom edge.
    pub open spec fn bottom(self) -> int {
        self.y + self.size_y
    }

    /// Both extents are positive.
    pub open spec fn has_area(self) -> bool {
        self.size_x > 0 && self.size_y > 0
    }

    /// The corner moved by `(dx, dy)` can still be stored.
    pub open spec fn can_translate(self, dx: int, dy: int) -> bool {
        &&& i32::MIN <= self.x + dx <= i32::MAX
        &&& i32::MIN <= self.y + dy <= i32::MAX
    }

    /// The rectangle with the same extents and the corner moved by `(dx, dy)`.
    pub open spec fn spec_translate(self, dx: int, dy: int) -> Box
        recommends
            self.can_translate(dx, dy),
    {
        Box { x: (self.x + dx) as i32, y: (self.y + dy) as i32, size_x: self.size_x, size_y: self.size_y }
    }

    /// `other` lies within `self`, edges included.
    pub open spec fn spec_contains(self, other: Box) -> bool {
        &&& self.x <= other.x
        &&& self.y <= other.y
        &&& self.right() >= other.right()
        &&& self.bottom() >= other.bottom()
    }

    /// Some corner of `self` falls into `other`.
    ///
    /// Each corner is tested against the half-open extent of `other` that
    /// lies on the corner's own inner side: the top-left corner may sit on
    /// the top and left edges of `other` but not on its bottom and right
    /// edges, the bottom-right corner the other way round, and so on. Two
    /// rectangles that merely touch along an edge therefore never qualify.
    pub open spec fn corner_within(self, other: Box) -> bool {
        ||| (other.x <= self.x < other.right() && other.y <= self.y < other.bottom())
        ||| (other.x < self.right() <= other.right() && other.y <= self.y < other.bottom())
        ||| (other.x < self.right() <= other.right() && other.y < self.bottom() <= other.bottom())
        ||| (other.x <= self.x < other.right() && other.y < self.bottom() <= other.bottom())
    }

    /// A corner of one rectangle falls into the other.
    pub open spec fn spec_intersects(self, other: Box) -> bool {
        self.corner_within(other) || other.corner_within(self)
    }

    /// The two rectangles have a region of positive area in common.
    pub open spec fn shares_area(self, other: Box) -> bool {
        &&& self.x < other.right()
        &&& other.x < self.right()
        &&& self.y < other.bottom()
        &&& other.y < self.bottom()
    }

    /// A rectangle of the given extents with its corner at the origin.
    pub fn new(size_x: i32, size_y: i32) -> (b: Box)
        ensures
            b == (Box { x: 0, y: 0, size_x, size_y }),
    {
        Box { x: 0, y: 0, size_x, size_y }
    }

    /// The same rectangle moved by `(x, y)`.
    pub fn translate(&self, x: i32, y: i32) -> (b: Box)
        requires
            self.can_translate(x as int, y as int),
        ensures
            b == self.spec_translate(x as int, y as int),
            b.x == self.x + x,
            b.y == self.y + y,
            b.size_x == self.size_x,
            b.size_y == self.size_y,
    {
        Box { x: x + self.x, y: y + self.y, size_x: self.size_x, size_y: self.size_y }
    }

    /// The same rectangle moved by `(x, y)`, or nothing where the moved
    /// corner cannot be stored.
    pub fn checked_translate(&self, x: i32, y: i32) -> (moved: Option<Box>)
        ensures
            moved is Some <==> self.can_translate(x as int, y as int),
            moved is Some ==> moved->0 == self.spec_translate(x as int, y as int),
    {
        let new_x: i64 = self.x as i64 + x as i64;
        let new_y: i64 = self.y as i64 + y as i64;
        if i32::MIN as i64 <= new_x && new_x <= i32::MAX as i64 && i32::MIN as i64 <= new_y && new_y
            <= i32::MAX as i64 {
            Some(self.translate(x, y))
        } else {
            None
        }
    }

    /// The same rectangle moved by the coordinates of `translation`.
    pub fn translate2(&self, translation: &Position) -> (b: Box)
        requires
            self.can_translate(translation.x as int, translation.y as int),
        ensures
            b == self.spec_translate(translation.x as int, translation.y as int),
            b.x == self.x + translation.x,
            b.y == self.y + translation.y,
            b.size_x == self.size_x,
            b.size_y == self.size_y,
    {
        Box { x: translation.x + self.x, y: translation.y + self.y, size_x: self.size_x, size_y: self.size_y }
    }

    /// The top-left corner.
    pub fn get_position(&self) -> (p: Position)
        ensures
            p == (Position { x: self.x, y: self.y }),
    {
        Position { x: self.x, y: self.y }
    }

    /// Whether `other` lies within `self`, edges included.
    pub fn contains(&self, other: &Box) -> (inside: bool)
        ensures
            inside == self.spec_contains(*other),
    {
        let northwest_inside = self.x <= other.x && self.y <= other.y;
        let southeast_inside = (self.x as i64) + (self.size_x as i64) >= (other.x as i64) + (other.size_x as i64)
            && (self.y as i64) + (self.size_y as i64) >= (other.y as i64) + (other.size_y as i64);
        northwest_inside && southeast_inside
    }

    /// Whether a corner of one rectangle falls into the other.
    pub fn intersects(&self, other: &Box) -> (hit: bool)
        ensures
            hit == self.spec_intersects(*other),
    {
        let a = self._intersects(other);
        let b = other._intersects(self);
        a || b
    }

    /// Whether a corner of `self` falls into `other`; one direction only.
    pub fn _intersects(&self, other: &Box) -> (hit: bool)
        ensures
            hit == self.corner_within(*other),
    {
        let west: i64 = self.x as i64;
        let north: i64 = self.y as i64;
        let east: i64 = self.x as i64 + self.size_x as i64;
        let south: i64 = self.y as i64 + self.size_y as i64;
        let other_west: i64 = other.x as i64;
        let other_north: i64 = other.y as i64;
        let other_east: i64 = other.x as i64 + other.size_x as i64;
        let other_south: i64 = other.y as i64 + other.size_y as i64;

        let a = west >= other_west && west < other_east && north >= other_north && north < other_south;
        let b = east > other_west && east <= other_east && north >= other_north && north < other_south;
        let c = east > other_west && east <= other_east && south > other_north && south <= other_south;
        let d = west >= other_west && west < other_east && south > other_north && south <= other_south;

        a || b || c || d
    }
}

/// Two rectangles that contain each other are the same rectangle.
pub proof fn lemma_contains_antisymmetric(a: Box, b: Box)
    requires
        a.spec_contains(b),
        b.spec_contains(a),
    ensures
        a == b,
{
}

/// Containment is reflexive and transitive.
pub proof fn lemma_contains_preorder(a: Box, b: Box, c: Box)
    ensures
        a.spec_contains(a),
        a.spec_contains(b) && b.spec_contains(c) ==> a.spec_contains(c),
{
}

/// Moving a rectangle by nothing leaves it as it is.
pub proof fn lemma_translate_identity(r: Box)
    ensures
        r.can_translate(0, 0),
        r.spec_translate(0, 0) == r,
{
}

/// Moving a rectangle twice is moving it once by the sum.
pub proof fn lemma_translate_composes(r: Box, dx1: int, dy1: int, dx2: int, dy2: int)
    requires
        r.can_translate(dx1, dy1),
        r.spec_translate(dx1, dy1).can_translate(dx2, dy2),
    ensures
        r.can_translate(dx1 + dx2, dy1 + dy2),
        r.spec_translate(dx1, dy1).spec_translate(dx2, dy2) == r.spec_translate(dx1 + dx2, dy1 + dy2),
{
}

/// The intersection test does not depend on the order of its operands.
pub proof fn lemma_intersects_symmetric(a: Box, b: Box)
    ensures
        a.spec_intersects(b) == b.spec_intersects(a),
{
}

/// Rectangles with positive extents that are reported as intersecting have
/// a region of positive area in common. Rectangles that only share an edge,
/// or lie apart, are therefore never reported.
pub proof fn lemma_intersects_shares_area(a: Box, b: Box)
    requires
        a.has_area(),
        b.has_area(),
        a.spec_intersects(b),
    ensures
        a.shares_area(b),
{
}

/// Rectangles with positive extents of which one ends where the other
/// begins, or before it, are not reported as intersecting: to share an
/// edge is not to intersect.
pub proof fn lemma_apart_no_intersection(a: Box, b: Box)
    requires
        a.has_area(),
        b.has_area(),
        a.right() <= b.x || b.right() <= a.x || a.bottom() <= b.y || b.bottom() <= a.y,
    ensures
        !a.spec_intersects(b),
{
}

/// A rectangle with positive extents intersects every rectangle that
/// contains it, and so every rectangle that it contains.
pub proof fn lemma_contained_intersects(outer: Box, inner: Box)
    requires
        inner.has_area(),
        outer.spec_contains(inner),
    ensures
        outer.spec_intersects(inner),
        inner.spec_intersects(outer),
{
}

} // verus!
