//! Failure conditions of the geometry and canvas operations.

use vstd::prelude::*;
use crate::geometry::{Point, Shape};

verus! {

/// Why an edit could not be applied: a reference to a missing block, a cut
/// whose coordinate is not strictly interior, a swap of differently sized
/// blocks, a color lookup on a canvas that no block covers, or an operation
/// whose mutation is deliberately unsupported.
#[derive(Debug, Clone)]
pub enum EditError {
    /// The operation refers to a block identifier that is not on the canvas.
    MissingBlock { id: String },
    /// A point cut whose point is not strictly interior to the shape.
    CutOutside { shape: Shape, point: Point },
    /// A vertical cut whose coordinate is not strictly interior to the shape.
    CutOutsideX { shape: Shape, x: i32 },
    /// A horizontal cut whose coordinate is not strictly interior to the shape.
    CutOutsideY { shape: Shape, y: i32 },
    /// A swap of two blocks whose shapes do not have the same size.
    ShapeMismatch { a: Shape, b: Shape },
    /// No block of the canvas contains the queried point.
    MalformedPicture { point: Point },
    /// The operation's mutation is deliberately not supported.
    Unsupported,
}

} // verus!
