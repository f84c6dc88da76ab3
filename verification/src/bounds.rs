//! Integer pixel rectangles, half-open on both axes.
use vstd::prelude::*;

verus! {

/// Side length, in pixels, of one raster tile.
pub const TILE_SIZE: u32 = 16;

/// Number of pixels in one raster tile.
pub const BLOCK_SIZE: u32 = 256;

/// A half-open pixel rectangle `[x0, x1) x [y0, y1)`.
///
/// A rectangle whose extent is zero or negative on either axis covers no pixel.
#[derive(Clone, Copy, Debug, PartialEq, Eq, Hash, Structural)]
pub struct Bounds {
    pub x0: i32,
    pub y0: i32,
    pub x1: i32,
    pub y1: i32,
}

impl Bounds {
    /// The rectangle covers no pixel.
    pub open spec fn empty_spec(self) -> bool {
        self.x0 >= self.x1 || self.y0 >= self.y1
    }

    /// Pixel `(x, y)` lies inside the rectangle.
    pub open spec fn covers(self, x: int, y: int) -> bool {
        self.x0 <= x < self.x1 && self.y0 <= y < self.y1
    }

    pub open spec fn width_spec(self) -> int {
        if self.x1 > self.x0 { self.x1 - self.x0 } else { 0 }
    }

    pub open spec fn height_spec(self) -> int {
        if self.y1 > self.y0 { self.y1 - self.y0 } else { 0 }
    }

    /// Component-wise intersection: the larger start and the smaller end on each axis.
    pub open spec fn intersect_spec(self, other: Bounds) -> Bounds {
        Bounds {
            x0: if self.x0 >= other.x0 { self.x0 } else { other.x0 },
            y0: if self.y0 >= other.y0 { self.y0 } else { other.y0 },
            x1: if self.x1 <= other.x1 { self.x1 } else { other.x1 },
            y1: if self.y1 <= other.y1 { self.y1 } else { other.y1 },
        }
    }

    /// Smallest rectangle holding both; an empty operand contributes nothing.
    pub open spec fn union_spec(self, other: Bounds) -> Bounds {
        if self.empty_spec() {
            other
        } else if other.empty_spec() {
            self
        } else {
            Bounds {
                x0: if self.x0 <= other.x0 { self.x0 } else { other.x0 },
                y0: if self.y0 <= other.y0 { self.y0 } else { other.y0 },
                x1: if self.x1 >= other.x1 { self.x1 } else { other.x1 },
                y1: if self.y1 >= other.y1 { self.y1 } else { other.y1 },
            }
        }
    }

    /// The rectangle of a `width` x `height` surface anchored at the origin, extents beyond
    /// `i32::MAX` saturated.
    pub open spec fn canvas_spec(width: u32, height: u32) -> Bounds {
        Bounds {
            x0: 0,
            y0: 0,
            x1: if width <= i32::MAX { width as i32 } else { i32::MAX },
            y1: if height <= i32::MAX { height as i32 } else { i32::MAX },
        }
    }

    pub fn new(x0: i32, y0: i32, x1: i32, y1: i32) -> (b: Bounds)
        ensures
            b == (Bounds { x0, y0, x1, y1 }),
    {
        Bounds { x0, y0, x1, y1 }
    }

    /// The rectangle of a `width` x `height` surface anchored at the origin. Extents beyond
    /// `i32::MAX` saturate.
    pub fn canvas(width: u32, height: u32) -> (b: Bounds)
        ensures
            b.x0 == 0,
            b.y0 == 0,
            b.x1 == (if width <= i32::MAX { width as int } else { i32::MAX as int }),
            b.y1 == (if height <= i32::MAX { height as int } else { i32::MAX as int }),
            b == Bounds::canvas_spec(width, height),
    {
        let x1: i32 = if width <= i32::MAX as u32 { width as i32 } else { i32::MAX };
        let y1: i32 = if height <= i32::MAX as u32 { height as i32 } else { i32::MAX };
        Bounds { x0: 0, y0: 0, x1, y1 }
    }

    #[verifier::when_used_as_spec(empty_spec)]
    pub fn is_empty(self) -> (r: bool)
        ensures
            r == self.empty_spec(),
    {
        self.x0 >= self.x1 || self.y0 >= self.y1
    }

    pub fn width(self) -> (w: u32)
        ensures
            w == self.width_spec(),
    {
        if self.x1 > self.x0 {
            (self.x1 as i64 - self.x0 as i64) as u32
        } else {
            0
        }
    }

    pub fn height(self) -> (h: u32)
        ensures
            h == self.height_spec(),
    {
        if self.y1 > self.y0 {
            (self.y1 as i64 - self.y0 as i64) as u32
        } else {
            0
        }
    }

    pub fn intersect(self, other: Bounds) -> (r: Bounds)
        ensures
            r == self.intersect_spec(other),
    {
        Bounds {
            x0: if self.x0 >= other.x0 { self.x0 } else { other.x0 },
            y0: if self.y0 >= other.y0 { self.y0 } else { other.y0 },
            x1: if self.x1 <= other.x1 { self.x1 } else { other.x1 },
            y1: if self.y1 <= other.y1 { self.y1 } else { other.y1 },
        }
    }

    pub fn union(self, other: Bounds) -> (r: Bounds)
        ensures
            r == self.union_spec(other),
    {
        if self.is_empty() {
            other
        } else if other.is_empty() {
            self
        } else {
            Bounds {
                x0: if self.x0 <= other.x0 { self.x0 } else { other.x0 },
                y0: if self.y0 <= other.y0 { self.y0 } else { other.y0 },
                x1: if self.x1 >= other.x1 { self.x1 } else { other.x1 },
                y1: if self.y1 >= other.y1 { self.y1 } else { other.y1 },
            }
        }
    }
}

/// A rectangle covers a pixel exactly when it is non-empty and the pixel is inside it.
pub proof fn lemma_covers_implies_nonempty(b: Bounds, x: int, y: int)
    requires
        b.covers(x, y),
    ensures
        !b.empty_spec(),
{
}

/// The intersection covers exactly the pixels covered by both rectangles.
pub proof fn lemma_intersect_covers(a: Bounds, b: Bounds, x: int, y: int)
    ensures
        a.intersect_spec(b).covers(x, y) <==> (a.covers(x, y) && b.covers(x, y)),
{
}

/// Intersection does not depend on the order of its operands.
pub proof fn lemma_intersect_commutes(a: Bounds, b: Bounds)
    ensures
        a.intersect_spec(b) == b.intersect_spec(a),
{
}

/// The union covers every pixel covered by either rectangle.
pub proof fn lemma_union_covers(a: Bounds, b: Bounds, x: int, y: int)
    requires
        a.covers(x, y) || b.covers(x, y),
    ensures
        a.union_spec(b).covers(x, y),
{
}

/// The union is empty only when both operands are empty.
pub proof fn lemma_union_empty(a: Bounds, b: Bounds)
    ensures
        a.union_spec(b).empty_spec() <==> (a.empty_spec() && b.empty_spec()),
{
}

} // verus!
