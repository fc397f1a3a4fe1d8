//! Geometric value types: sizes, axis-aligned rectangles, fit testing and
//! the guillotine split that carves a requested size out of a free rectangle.

use vstd::prelude::*;
use vstd::arithmetic::mul::{lemma_mul_is_distributive_sub, lemma_mul_is_distributive_sub_other_way};
use vstd::arithmetic::mul::lemma_mul_upper_bound;

verus! {

/// A width/height pair. Either dimension may be zero; such a size fits
/// anywhere and contributes nothing to a bounding box.
#[derive(Copy, Clone, Debug, PartialEq, Eq, Structural)]
pub struct Size {
    pub width: u32,
    pub height: u32,
}

/// An axis-aligned rectangle anchored at its top-left corner. Used both for
/// free canvas regions and for final placements.
#[derive(Copy, Clone, Debug, PartialEq, Eq, Structural)]
pub struct Rect {
    pub left: u32,
    pub top: u32,
    pub size: Size,
}

/// `a` fits inside `b`: no larger in either dimension.
pub open spec fn spec_fits(a: Size, b: Size) -> bool {
    a.width <= b.width && a.height <= b.height
}

/// Component-wise maximum of two sizes.
pub open spec fn spec_max_size(a: Size, b: Size) -> Size {
    Size {
        width: if a.width >= b.width { a.width } else { b.width },
        height: if a.height >= b.height { a.height } else { b.height },
    }
}

/// Area of a size, as an unbounded integer.
pub open spec fn spec_area(s: Size) -> int {
    s.width * s.height
}

/// The x coordinate just past the right edge, as an unbounded integer.
pub open spec fn rect_right(r: Rect) -> int {
    r.left + r.size.width
}

/// The y coordinate just past the bottom edge, as an unbounded integer.
pub open spec fn rect_bottom(r: Rect) -> int {
    r.top + r.size.height
}

/// Both extents of the rectangle stay representable as `u32`.
pub open spec fn extent_ok(r: Rect) -> bool {
    rect_right(r) <= u32::MAX && rect_bottom(r) <= u32::MAX
}

/// A rectangle with an empty interior.
pub open spec fn zero_area(r: Rect) -> bool {
    r.size.width == 0 || r.size.height == 0
}

/// The interiors of `a` and `b` do not overlap.
pub open spec fn disjoint(a: Rect, b: Rect) -> bool {
    ||| zero_area(a)
    ||| zero_area(b)
    ||| rect_right(a) <= b.left
    ||| rect_right(b) <= a.left
    ||| rect_bottom(a) <= b.top
    ||| rect_bottom(b) <= a.top
}

/// `a` lies entirely within `b`.
pub open spec fn contained_in(a: Rect, b: Rect) -> bool {
    &&& b.left <= a.left
    &&& rect_right(a) <= rect_right(b)
    &&& b.top <= a.top
    &&& rect_bottom(a) <= rect_bottom(b)
}

/// The rectangle a successful split places: `size` at the top-left corner of
/// `space`.
pub open spec fn placed_rect(space: Rect, size: Size) -> Rect {
    Rect { left: space.left, top: space.top, size }
}

/// What remains of `space` after a successful split: the full-width strip
/// below the placed row, except when the request spans the full height but
/// not the full width, where it is the strip to the right.
pub open spec fn shrunk_space(space: Rect, size: Size) -> Rect {
    if size.width == space.size.width {
        Rect {
            left: space.left,
            top: (space.top + size.height) as u32,
            size: Size {
                width: space.size.width,
                height: (space.size.height - size.height) as u32,
            },
        }
    } else if size.height == space.size.height {
        Rect {
            left: (space.left + size.width) as u32,
            top: space.top,
            size: Size {
                width: (space.size.width - size.width) as u32,
                height: space.size.height,
            },
        }
    } else {
        Rect {
            left: space.left,
            top: (space.top + size.height) as u32,
            size: Size {
                width: space.size.width,
                height: (space.size.height - size.height) as u32,
            },
        }
    }
}

/// The orphaned side strip a general split produces, to the right of the
/// placed rectangle and of the same height; `None` when the request spans
/// the full width or the full height of `space`.
pub open spec fn split_leftover(space: Rect, size: Size) -> Option<Rect> {
    if size.width == space.size.width || size.height == space.size.height {
        None
    } else {
        Some(
            Rect {
                left: (space.left + size.width) as u32,
                top: space.top,
                size: Size {
                    width: (space.size.width - size.width) as u32,
                    height: size.height,
                },
            },
        )
    }
}

/// Area of the leftover strip, or zero when the split produces none.
pub open spec fn leftover_area(space: Rect, size: Size) -> int {
    match split_leftover(space, size) {
        Some(l) => spec_area(l.size),
        None => 0,
    }
}

impl Size {
    /// The size with both dimensions zero.
    pub fn zero() -> (r: Self)
        ensures
            r == (Size { width: 0, height: 0 }),
    {
        Self { width: 0, height: 0 }
    }

    /// True iff `self` fits inside `size`.
    pub fn fit_in(&self, size: Size) -> (r: bool)
        ensures
            r == spec_fits(*self, size),
    {
        self.width <= size.width && self.height <= size.height
    }

    /// Component-wise maximum.
    pub fn max(self, other: Size) -> (r: Size)
        ensures
            r == spec_max_size(self, other),
    {
        Size {
            width: if self.width >= other.width { self.width } else { other.width },
            height: if self.height >= other.height { self.height } else { other.height },
        }
    }

    /// Area, computed exactly in 64 bits.
    pub fn area(&self) -> (r: u64)
        ensures
            r == spec_area(*self),
    {
        proof {
            lemma_mul_upper_bound(self.width as int, u32::MAX as int, self.height as int, u32::MAX as int);
        }
        (self.width as u64) * (self.height as u64)
    }
}

impl Rect {
    /// Carve `size` out of the top-left corner of this free rectangle.
    ///
    /// On a fit, returns the placement together with the optional orphaned
    /// side strip, and shrinks `self` in place to the remaining free area;
    /// otherwise leaves `self` untouched and returns `None`.
    pub fn insert(&mut self, size: Size) -> (r: Option<(Rect, Option<Rect>)>)
        requires
            extent_ok(*old(self)),
        ensures
            r is Some <==> spec_fits(size, old(self).size),
            !spec_fits(size, old(self).size) ==> *final(self) == *old(self),
            spec_fits(size, old(self).size) ==> {
                &&& *final(self) == shrunk_space(*old(self), size)
                &&& r == Some((placed_rect(*old(self), size), split_leftover(*old(self), size)))
            },
    {
        if size.fit_in(self.size) {
            let r = Rect { left: self.left, top: self.top, size };
            let other = if size.width == self.size.width {
                self.size.height = self.size.height - size.height;
                self.top = self.top + size.height;
                None
            } else if size.height == self.size.height {
                self.size.width = self.size.width - size.width;
                self.left = self.left + size.width;
                None
            } else {
                let rect = Rect {
                    left: self.left + size.width,
                    top: self.top,
                    size: Size {
                        width: self.size.width - size.width,
                        height: size.height,
                    },
                };
                self.size.height = self.size.height - size.height;
                self.top = self.top + size.height;
                Some(rect)
            };
            Some((r, other))
        } else {
            None
        }
    }

    /// The bottom-right extent of the rectangle, used to fold bounding boxes.
    pub fn bound_size(&self) -> (r: Size)
        requires
            extent_ok(*self),
        ensures
            r.width == rect_right(*self),
            r.height == rect_bottom(*self),
    {
        Size { width: self.left + self.size.width, height: self.top + self.size.height }
    }
}

/// Fit testing is reflexive: every size fits in itself.
pub proof fn lemma_fits_reflexive(a: Size)
    ensures
        spec_fits(a, a),
{
}

/// Fit testing is monotone: it composes transitively.
pub proof fn lemma_fits_transitive(a: Size, b: Size, c: Size)
    requires
        spec_fits(a, b),
        spec_fits(b, c),
    ensures
        spec_fits(a, c),
{
}

/// A successful split conserves area: the placed rectangle, the leftover
/// strip (when present) and the shrunk free space partition the original
/// free rectangle exactly, and the placed rectangle has the requested area.
pub proof fn lemma_split_conservation(space: Rect, size: Size)
    requires
        spec_fits(size, space.size),
        extent_ok(space),
    ensures
        spec_area(placed_rect(space, size).size) == size.width * size.height,
        spec_area(size) + leftover_area(space, size) + spec_area(shrunk_space(space, size).size)
            == spec_area(space.size),
{
    let w = size.width as int;
    let h = size.height as int;
    let bw = space.size.width as int;
    let bh = space.size.height as int;
    if w == bw {
        lemma_mul_is_distributive_sub(bw, bh, h);
        assert(w * h == bw * h);
    } else if h == bh {
        lemma_mul_is_distributive_sub_other_way(bh, bw, w);
        assert(w * h == w * bh);
    } else {
        lemma_mul_is_distributive_sub_other_way(h, bw, w);
        lemma_mul_is_distributive_sub(bw, bh, h);
    }
}

/// The three pieces a successful split yields all lie within the original
/// free rectangle and are pairwise non-overlapping.
pub proof fn lemma_split_pieces(space: Rect, size: Size)
    requires
        spec_fits(size, space.size),
        extent_ok(space),
    ensures
        contained_in(placed_rect(space, size), space),
        contained_in(shrunk_space(space, size), space),
        disjoint(placed_rect(space, size), shrunk_space(space, size)),
        split_leftover(space, size) is Some ==> {
            let l = split_leftover(space, size)->Some_0;
            &&& contained_in(l, space)
            &&& disjoint(l, placed_rect(space, size))
            &&& disjoint(l, shrunk_space(space, size))
        },
{
}

/// Containment within an extent-bounded rectangle bounds the extents.
pub proof fn lemma_contained_extent(a: Rect, b: Rect)
    requires
        contained_in(a, b),
        extent_ok(b),
    ensures
        extent_ok(a),
{
}

/// A rectangle contained in `b` is disjoint from anything `b` is disjoint
/// from.
pub proof fn lemma_contained_disjoint(a: Rect, b: Rect, c: Rect)
    requires
        contained_in(a, b),
        disjoint(b, c),
    ensures
        disjoint(a, c),
{
}

} // verus!
