use vstd::prelude::*;

verus! {

/// A position on the terminal grid, in cells.
#[derive(Copy, Clone, Debug, PartialEq, Eq, Structural)]
pub struct Pos2 {
    pub x: i32,
    pub y: i32,
}

/// A displacement on the terminal grid, in cells.
#[derive(Copy, Clone, Debug, PartialEq, Eq, Structural)]
pub struct Vec2 {
    pub x: i32,
    pub y: i32,
}

/// An axis-aligned rectangle given by its top-left (`min`) and bottom-right (`max`) corners.
#[derive(Copy, Clone, Debug, PartialEq, Eq, Structural)]
pub struct Rect {
    pub min: Pos2,
    pub max: Pos2,
}

/// True when `v` fits in an `i32`.
pub open spec fn fits_i32(v: int) -> bool {
    i32::MIN <= v <= i32::MAX
}

impl Pos2 {
    pub fn new(x: i32, y: i32) -> (p: Pos2)
        ensures
            p.x == x,
            p.y == y,
    {
        Pos2 { x, y }
    }

    /// True when `self + other` does not overflow.
    pub open spec fn can_add(self, other: Pos2) -> bool {
        fits_i32(self.x + other.x) && fits_i32(self.y + other.y)
    }

    /// True when `self - other` does not overflow.
    pub open spec fn can_sub(self, other: Pos2) -> bool {
        fits_i32(self.x - other.x) && fits_i32(self.y - other.y)
    }

    /// Component-wise sum.
    pub fn add(self, other: Pos2) -> (p: Pos2)
        requires
            self.can_add(other),
        ensures
            p.x == self.x + other.x,
            p.y == self.y + other.y,
    {
        Pos2 { x: self.x + other.x, y: self.y + other.y }
    }

    /// Component-wise difference.
    pub fn sub(self, other: Pos2) -> (p: Pos2)
        requires
            self.can_sub(other),
        ensures
            p.x == self.x - other.x,
            p.y == self.y - other.y,
    {
        Pos2 { x: self.x - other.x, y: self.y - other.y }
    }

    pub open spec fn as_vec2(self) -> Vec2 {
        Vec2 { x: self.x, y: self.y }
    }

    /// The same coordinates as a displacement.
    pub fn to_vec2(self) -> (v: Vec2)
        ensures
            v == self.as_vec2(),
    {
        Vec2 { x: self.x, y: self.y }
    }
}

impl Vec2 {
    pub fn new(x: i32, y: i32) -> (v: Vec2)
        ensures
            v.x == x,
            v.y == y,
    {
        Vec2 { x, y }
    }
}

impl Rect {
    pub fn from_min_max(min: Pos2, max: Pos2) -> (r: Rect)
        ensures
            r.min == min,
            r.max == max,
    {
        Rect { min, max }
    }

    pub fn left_top(&self) -> (p: Pos2)
        ensures
            p == self.min,
    {
        self.min
    }

    /// True when the rectangle covers no cell.
    pub open spec fn spec_is_empty(self) -> bool {
        self.max.x <= self.min.x || self.max.y <= self.min.y
    }

    pub fn is_empty(&self) -> (r: bool)
        ensures
            r == self.spec_is_empty(),
    {
        self.max.x <= self.min.x || self.max.y <= self.min.y
    }

    /// True when the cell at `pos` lies inside: the top-left edge is inside,
    /// the bottom-right edge is not.
    pub open spec fn spec_contains(self, pos: Pos2) -> bool {
        self.min.x <= pos.x < self.max.x && self.min.y <= pos.y < self.max.y
    }

    pub fn contains(&self, pos: Pos2) -> (r: bool)
        ensures
            r == self.spec_contains(pos),
    {
        self.min.x <= pos.x && pos.x < self.max.x && self.min.y <= pos.y && pos.y < self.max.y
    }

    /// True when `other` lies within this rectangle, edges included.
    pub open spec fn spec_contains_rect(self, other: Rect) -> bool {
        self.min.x <= other.min.x && self.min.y <= other.min.y && other.max.x <= self.max.x
            && other.max.y <= self.max.y
    }

    pub fn contains_rect(&self, other: Rect) -> (r: bool)
        ensures
            r == self.spec_contains_rect(other),
    {
        self.min.x <= other.min.x && self.min.y <= other.min.y && other.max.x <= self.max.x
            && other.max.y <= self.max.y
    }

    /// The overlap of two rectangles (empty when they do not overlap).
    pub open spec fn spec_intersection(self, other: Rect) -> Rect {
        Rect {
            min: Pos2 {
                x: if self.min.x >= other.min.x { self.min.x } else { other.min.x },
                y: if self.min.y >= other.min.y { self.min.y } else { other.min.y },
            },
            max: Pos2 {
                x: if self.max.x <= other.max.x { self.max.x } else { other.max.x },
                y: if self.max.y <= other.max.y { self.max.y } else { other.max.y },
            },
        }
    }

    pub fn intersection(&self, other: Rect) -> (r: Rect)
        ensures
            r == self.spec_intersection(other),
    {
        let min_x = if self.min.x >= other.min.x { self.min.x } else { other.min.x };
        let min_y = if self.min.y >= other.min.y { self.min.y } else { other.min.y };
        let max_x = if self.max.x <= other.max.x { self.max.x } else { other.max.x };
        let max_y = if self.max.y <= other.max.y { self.max.y } else { other.max.y };
        Rect { min: Pos2 { x: min_x, y: min_y }, max: Pos2 { x: max_x, y: max_y } }
    }

    /// True when moving the rectangle by `v` stays within `i32`.
    pub open spec fn can_translate(self, v: Vec2) -> bool {
        fits_i32(self.min.x + v.x) && fits_i32(self.min.y + v.y) && fits_i32(self.max.x + v.x)
            && fits_i32(self.max.y + v.y)
    }

    pub open spec fn spec_translate(self, v: Vec2) -> Rect {
        Rect {
            min: Pos2 { x: (self.min.x + v.x) as i32, y: (self.min.y + v.y) as i32 },
            max: Pos2 { x: (self.max.x + v.x) as i32, y: (self.max.y + v.y) as i32 },
        }
    }

    /// The rectangle moved by `v`.
    pub fn translate(&self, v: Vec2) -> (r: Rect)
        requires
            self.can_translate(v),
        ensures
            r == self.spec_translate(v),
    {
        Rect {
            min: Pos2 { x: self.min.x + v.x, y: self.min.y + v.y },
            max: Pos2 { x: self.max.x + v.x, y: self.max.y + v.y },
        }
    }

    /// True when a rectangle of `size` can stand at the top-left corner of this one.
    pub open spec fn can_resize(self, size: Vec2) -> bool {
        fits_i32(self.min.x + size.x) && fits_i32(self.min.y + size.y)
    }

    pub open spec fn spec_with_size(self, size: Vec2) -> Rect {
        Rect {
            min: self.min,
            max: Pos2 { x: (self.min.x + size.x) as i32, y: (self.min.y + size.y) as i32 },
        }
    }

    /// Keep the top-left corner and make the rectangle `size` large.
    pub fn set_size(&mut self, size: Vec2)
        requires
            old(self).can_resize(size),
        ensures
            *final(self) == old(self).spec_with_size(size),
    {
        self.max = Pos2 { x: self.min.x + size.x, y: self.min.y + size.y };
    }
}

/// Spacing around the four sides of a rectangle, in cells.
#[derive(Copy, Clone, Debug, PartialEq, Eq, Structural)]
pub struct Margin {
    pub left: i32,
    pub top: i32,
    pub right: i32,
    pub bottom: i32,
}

impl Margin {
    /// No spacing on any side.
    pub fn zero() -> (m: Margin)
        ensures
            m == (Margin { left: 0, top: 0, right: 0, bottom: 0 }),
    {
        Margin { left: 0, top: 0, right: 0, bottom: 0 }
    }

    /// One cell of spacing on every side.
    pub fn one() -> (m: Margin)
        ensures
            m == (Margin { left: 1, top: 1, right: 1, bottom: 1 }),
    {
        Margin { left: 1, top: 1, right: 1, bottom: 1 }
    }

    pub fn new(left: i32, top: i32, right: i32, bottom: i32) -> (m: Margin)
        ensures
            m == (Margin { left, top, right, bottom }),
    {
        Margin { left, top, right, bottom }
    }

    /// The same spacing `x` on the left and right, `y` on the top and bottom.
    pub fn symmetric(x: i32, y: i32) -> (m: Margin)
        ensures
            m == (Margin { left: x, top: y, right: x, bottom: y }),
    {
        Margin { left: x, top: y, right: x, bottom: y }
    }

    /// The same spacing on all four sides.
    pub fn same(margin: i32) -> (m: Margin)
        ensures
            m == (Margin { left: margin, top: margin, right: margin, bottom: margin }),
    {
        Self::symmetric(margin, margin)
    }

    pub open spec fn spec_left_top(self) -> Pos2 {
        Pos2 { x: self.left, y: self.top }
    }

    pub open spec fn spec_right_bottom(self) -> Pos2 {
        Pos2 { x: self.right, y: self.bottom }
    }

    /// The left and top spacing as a position.
    pub fn left_top(&self) -> (p: Pos2)
        ensures
            p == self.spec_left_top(),
    {
        Pos2 { x: self.left, y: self.top }
    }

    /// The right and bottom spacing as a position.
    pub fn right_bottom(&self) -> (p: Pos2)
        ensures
            p == self.spec_right_bottom(),
    {
        Pos2 { x: self.right, y: self.bottom }
    }

    /// True when growing `rect` by this margin stays within `i32`.
    pub open spec fn can_expand(self, rect: Rect) -> bool {
        rect.min.can_sub(self.spec_left_top()) && rect.max.can_add(self.spec_right_bottom())
    }

    /// True when shrinking `rect` by this margin stays within `i32`.
    pub open spec fn can_shrink(self, rect: Rect) -> bool {
        rect.min.can_add(self.spec_left_top()) && rect.max.can_sub(self.spec_right_bottom())
    }

    /// The rectangle grown outwards by this margin on every side.
    pub open spec fn spec_expand_rect(self, rect: Rect) -> Rect {
        Rect {
            min: Pos2 { x: (rect.min.x - self.left) as i32, y: (rect.min.y - self.top) as i32 },
            max: Pos2 {
                x: (rect.max.x + self.right) as i32,
                y: (rect.max.y + self.bottom) as i32,
            },
        }
    }

    /// The rectangle shrunk inwards by this margin on every side.
    pub open spec fn spec_shrink_rect(self, rect: Rect) -> Rect {
        Rect {
            min: Pos2 { x: (rect.min.x + self.left) as i32, y: (rect.min.y + self.top) as i32 },
            max: Pos2 {
                x: (rect.max.x - self.right) as i32,
                y: (rect.max.y - self.bottom) as i32,
            },
        }
    }

    pub fn expand_rect(&self, rect: Rect) -> (r: Rect)
        requires
            self.can_expand(rect),
        ensures
            r == self.spec_expand_rect(rect),
    {
        Rect::from_min_max(rect.min.sub(self.left_top()), rect.max.add(self.right_bottom()))
    }

    pub fn shrink_rect(&self, rect: Rect) -> (r: Rect)
        requires
            self.can_shrink(rect),
        ensures
            r == self.spec_shrink_rect(rect),
    {
        Rect::from_min_max(rect.min.add(self.left_top()), rect.max.sub(self.right_bottom()))
    }
}

/// Shrinking a rectangle by a margin undoes growing it by the same margin,
/// and growing undoes shrinking.
pub proof fn lemma_expand_shrink_inverse(m: Margin, rect: Rect)
    ensures
        m.can_expand(rect) ==> m.can_shrink(m.spec_expand_rect(rect)) && m.spec_shrink_rect(
            m.spec_expand_rect(rect),
        ) == rect,
        m.can_shrink(rect) ==> m.can_expand(m.spec_shrink_rect(rect)) && m.spec_expand_rect(
            m.spec_shrink_rect(rect),
        ) == rect,
{
}

} // verus!
