//! Axis-aligned rectangles and their cut, intersection and merge algebra.
//!
//! A `Shape` is a half-open rectangle: a point `(x, y)` lies inside iff
//! `l <= x < r` and `b <= y < t`. Every shape that a canvas block carries is
//! valid: its width and height are positive.

use vstd::prelude::*;
use crate::error::EditError;

verus! {

/// A point of the canvas plane.
#[derive(Debug, Clone, Copy, PartialEq, Eq, Structural)]
pub struct Point {
    pub x: i32,
    pub y: i32,
}

/// An axis-aligned rectangle with half-open upper bounds.
#[derive(Debug, Clone, Copy, PartialEq, Eq, Structural)]
pub struct Shape {
    pub l: i32,
    pub b: i32,
    pub r: i32,
    pub t: i32,
}

impl Shape {
    /// A shape is valid when its width and height are positive.
    pub open spec fn valid(self) -> bool {
        self.l < self.r && self.b < self.t
    }

    pub open spec fn spec_width(self) -> int {
        self.r - self.l
    }

    pub open spec fn spec_height(self) -> int {
        self.t - self.b
    }

    pub open spec fn spec_area(self) -> int {
        self.spec_width() * self.spec_height()
    }

    /// Containment of a point, half-open on the upper bounds.
    pub open spec fn spec_contains(self, p: Point) -> bool {
        self.l <= p.x < self.r && self.b <= p.y < self.t
    }

    /// The point is strictly interior to the shape.
    pub open spec fn spec_interior(self, p: Point) -> bool {
        self.l < p.x < self.r && self.b < p.y < self.t
    }

    /// The quadrants of a point cut, in the fixed order bottom-left,
    /// bottom-right, top-right, top-left.
    pub open spec fn pcut_pieces(self, p: Point) -> Seq<Shape> {
        seq![
            Shape { l: self.l, b: self.b, r: p.x, t: p.y },
            Shape { l: p.x, b: self.b, r: self.r, t: p.y },
            Shape { l: p.x, b: p.y, r: self.r, t: self.t },
            Shape { l: self.l, b: p.y, r: p.x, t: self.t },
        ]
    }

    /// The halves of a vertical cut, left then right.
    pub open spec fn xcut_pieces(self, x: i32) -> Seq<Shape> {
        seq![
            Shape { l: self.l, b: self.b, r: x, t: self.t },
            Shape { l: x, b: self.b, r: self.r, t: self.t },
        ]
    }

    /// The halves of a horizontal cut, bottom then top.
    pub open spec fn ycut_pieces(self, y: i32) -> Seq<Shape> {
        seq![
            Shape { l: self.l, b: self.b, r: self.r, t: y },
            Shape { l: self.l, b: y, r: self.r, t: self.t },
        ]
    }

    /// The rectangles overlap on both axes; touching edges do not count.
    pub open spec fn overlaps(self, other: Shape) -> bool {
        !(self.r <= other.l || other.r <= self.l || self.t <= other.b || other.t <= self.b)
    }

    /// The overlapping rectangle, or none when the rectangles do not overlap.
    pub open spec fn spec_intersect(self, other: Shape) -> Option<Shape> {
        if self.overlaps(other) {
            Some(
                Shape {
                    l: if self.l >= other.l { self.l } else { other.l },
                    b: if self.b >= other.b { self.b } else { other.b },
                    r: if self.r <= other.r { self.r } else { other.r },
                    t: if self.t <= other.t { self.t } else { other.t },
                },
            )
        } else {
            None
        }
    }

    /// Width and height both equal; position is irrelevant.
    pub open spec fn spec_same_size(self, other: Shape) -> bool {
        self.spec_width() == other.spec_width() && self.spec_height() == other.spec_height()
    }

    /// The union rectangle when the two shapes share a full edge, in any of
    /// the four stacking or adjacency configurations; otherwise none.
    pub open spec fn spec_merge(self, other: Shape) -> Option<Shape> {
        if self.b == other.t && self.l == other.l && self.r == other.r {
            Some(Shape { l: self.l, b: other.b, r: self.r, t: self.t })
        } else if other.b == self.t && self.l == other.l && self.r == other.r {
            Some(Shape { l: self.l, b: self.b, r: self.r, t: other.t })
        } else if self.r == other.l && self.b == other.b && self.t == other.t {
            Some(Shape { l: self.l, b: self.b, r: other.r, t: self.t })
        } else if other.r == self.l && self.b == other.b && self.t == other.t {
            Some(Shape { l: other.l, b: self.b, r: self.r, t: self.t })
        } else {
            None
        }
    }

    /// The full square with its bottom-left corner at the origin.
    pub fn square(size: i32) -> (s: Shape)
        ensures
            s == (Shape { l: 0, b: 0, r: size, t: size }),
    {
        Shape { l: 0, b: 0, r: size, t: size }
    }

    /// Cut the shape at an interior point into its four quadrants.
    pub fn pcut(&self, p: Point) -> (res: Result<Vec<Shape>, EditError>)
        ensures
            match res {
                Ok(v) => self.spec_interior(p) && v@ == self.pcut_pieces(p),
                Err(e) => !self.spec_interior(p) && e == (EditError::CutOutside {
                    shape: *self,
                    point: p,
                }),
            },
    {
        let Point { x, y } = p;
        if !(x < self.r && self.l < x && y < self.t && self.b < y) {
            return Err(EditError::CutOutside { shape: *self, point: p });
        }
        let pieces = vec![
            Shape { l: self.l, b: self.b, r: x, t: y },
            Shape { l: x, b: self.b, r: self.r, t: y },
            Shape { l: x, b: y, r: self.r, t: self.t },
            Shape { l: self.l, b: y, r: x, t: self.t },
        ];
        proof {
            assert(pieces@ =~= self.pcut_pieces(p));
        }
        Ok(pieces)
    }

    /// Cut the shape at an interior x coordinate into its two halves.
    pub fn xcut(&self, x: i32) -> (res: Result<Vec<Shape>, EditError>)
        ensures
            match res {
                Ok(v) => self.l < x < self.r && v@ == self.xcut_pieces(x),
                Err(e) => !(self.l < x < self.r) && e == (EditError::CutOutsideX {
                    shape: *self,
                    x,
                }),
            },
    {
        if !(self.l < x && x < self.r) {
            return Err(EditError::CutOutsideX { shape: *self, x });
        }
        let pieces = vec![
            Shape { l: self.l, b: self.b, r: x, t: self.t },
            Shape { l: x, b: self.b, r: self.r, t: self.t },
        ];
        proof {
            assert(pieces@ =~= self.xcut_pieces(x));
        }
        Ok(pieces)
    }

    /// Cut the shape at an interior y coordinate into its two halves.
    pub fn ycut(&self, y: i32) -> (res: Result<Vec<Shape>, EditError>)
        ensures
            match res {
                Ok(v) => self.b < y < self.t && v@ == self.ycut_pieces(y),
                Err(e) => !(self.b < y < self.t) && e == (EditError::CutOutsideY {
                    shape: *self,
                    y,
                }),
            },
    {
        if !(self.b < y && y < self.t) {
            return Err(EditError::CutOutsideY { shape: *self, y });
        }
        let pieces = vec![
            Shape { l: self.l, b: self.b, r: self.r, t: y },
            Shape { l: self.l, b: y, r: self.r, t: self.t },
        ];
        proof {
            assert(pieces@ =~= self.ycut_pieces(y));
        }
        Ok(pieces)
    }

    /// The overlapping rectangle of the two shapes, if any.
    pub fn intersect(&self, other: &Shape) -> (res: Option<Shape>)
        ensures
            res == self.spec_intersect(*other),
    {
        if self.r <= other.l || other.r <= self.l || self.t <= other.b || other.t <= self.b {
            None
        } else {
            Some(
                Shape {
                    l: if self.l >= other.l { self.l } else { other.l },
                    b: if self.b >= other.b { self.b } else { other.b },
                    r: if self.r <= other.r { self.r } else { other.r },
                    t: if self.t <= other.t { self.t } else { other.t },
                },
            )
        }
    }

    /// The width of the shape.
    pub fn widht(&self) -> (w: i32)
        requires
            i32::MIN <= self.spec_width() <= i32::MAX,
        ensures
            w == self.spec_width(),
    {
        self.r - self.l
    }

    /// The height of the shape.
    pub fn height(&self) -> (h: i32)
        requires
            i32::MIN <= self.spec_height() <= i32::MAX,
        ensures
            h == self.spec_height(),
    {
        self.t - self.b
    }

    /// Whether the two shapes have the same size.
    pub fn is_same(&self, other: &Self) -> (same: bool)
        requires
            i32::MIN <= self.spec_width() <= i32::MAX,
            i32::MIN <= self.spec_height() <= i32::MAX,
            i32::MIN <= other.spec_width() <= i32::MAX,
            i32::MIN <= other.spec_height() <= i32::MAX,
        ensures
            same == self.spec_same_size(*other),
    {
        self.height() == other.height() && self.widht() == other.widht()
    }

    /// The union rectangle when the shapes share a full edge, if any.
    pub fn merge(&self, other: &Self) -> (res: Option<Shape>)
        ensures
            res == self.spec_merge(*other),
    {
        if self.b == other.t && self.l == other.l && self.r == other.r {
            return Some(Shape { l: self.l, b: other.b, r: self.r, t: self.t });
        }
        if other.b == self.t && self.l == other.l && self.r == other.r {
            return Some(Shape { l: self.l, b: self.b, r: self.r, t: other.t });
        }
        if self.r == other.l && self.b == other.b && self.t == other.t {
            return Some(Shape { l: self.l, b: self.b, r: other.r, t: self.t });
        }
        if other.r == self.l && self.b == other.b && self.t == other.t {
            return Some(Shape { l: other.l, b: self.b, r: self.r, t: self.t });
        }
        None
    }

    /// Whether the point lies inside the shape.
    pub fn contains(&self, p: Point) -> (res: bool)
        ensures
            res == self.spec_contains(p),
    {
        self.l <= p.x && p.x < self.r && self.b <= p.y && p.y < self.t
    }

    /// The area of the shape: width times height.
    pub fn area(&self) -> (a: i32)
        requires
            0 <= self.spec_width() <= i32::MAX,
            0 <= self.spec_height() <= i32::MAX,
            self.spec_area() <= i32::MAX,
        ensures
            a == self.spec_area(),
    {
        proof {
            vstd::arithmetic::mul::lemma_mul_nonnegative(
                self.spec_width(),
                self.spec_height(),
            );
        }
        self.widht() * self.height()
    }
}

/// The point is one of the four corners of the shape.
pub open spec fn is_corner(s: Shape, p: Point) -> bool {
    (p.x == s.l || p.x == s.r) && (p.y == s.b || p.y == s.t)
}

/// A point cut at an interior point tiles the shape: every point of the shape
/// lies in exactly one quadrant, no point outside does, and the cut point is a
/// corner of each quadrant.
pub proof fn lemma_pcut_tiles(s: Shape, p: Point)
    requires
        s.valid(),
        s.spec_interior(p),
    ensures
        forall|q: Point|
            s.spec_contains(q) <==> exists|i: int|
                0 <= i < 4 && #[trigger] s.pcut_pieces(p)[i].spec_contains(q),
        forall|q: Point, i: int, j: int|
            0 <= i < 4 && 0 <= j < 4 && i != j ==> !(#[trigger] s.pcut_pieces(p)[i].spec_contains(q)
                && #[trigger] s.pcut_pieces(p)[j].spec_contains(q)),
        forall|i: int| 0 <= i < 4 ==> is_corner(#[trigger] s.pcut_pieces(p)[i], p),
{
    assert forall|q: Point| s.spec_contains(q) implies exists|i: int|
        0 <= i < 4 && #[trigger] s.pcut_pieces(p)[i].spec_contains(q) by {
        if q.x < p.x && q.y < p.y {
            assert(s.pcut_pieces(p)[0].spec_contains(q));
        } else if q.y < p.y {
            assert(s.pcut_pieces(p)[1].spec_contains(q));
        } else if q.x >= p.x {
            assert(s.pcut_pieces(p)[2].spec_contains(q));
        } else {
            assert(s.pcut_pieces(p)[3].spec_contains(q));
        }
    }
}

/// The two halves of a vertical cut at an interior coordinate have widths that
/// sum to the width of the shape, and areas that sum to its area.
pub proof fn lemma_xcut_areas(s: Shape, x: i32)
    requires
        s.valid(),
        s.l < x < s.r,
    ensures
        s.xcut_pieces(x)[0].spec_width() + s.xcut_pieces(x)[1].spec_width() == s.spec_width(),
        s.xcut_pieces(x)[0].spec_area() + s.xcut_pieces(x)[1].spec_area() == s.spec_area(),
{
    let w0 = s.xcut_pieces(x)[0].spec_width();
    let w1 = s.xcut_pieces(x)[1].spec_width();
    let h = s.spec_height();
    assert(w0 * h + w1 * h == (w0 + w1) * h) by (nonlinear_arith);
}

/// Intersection is commutative: the two orders of the arguments give the same
/// optional rectangle.
pub proof fn lemma_intersect_comm(a: Shape, b: Shape)
    ensures
        a.spec_intersect(b) == b.spec_intersect(a),
{
}

} // verus!
