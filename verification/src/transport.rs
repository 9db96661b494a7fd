//! The plain description of an externally supplied starting canvas: a canvas
//! size and a list of blocks, each with an identifier, two corners and a
//! color.

use vstd::prelude::*;

verus! {

/// One block of a canvas description: its identifier, its bottom-left and
/// top-right corners, and its color channels.
#[derive(Debug)]
pub struct BlockData {
    pub block_id: String,
    pub bottom_left: (i32, i32),
    pub top_right: (i32, i32),
    pub color: (u8, u8, u8, u8),
}

/// A canvas description: the canvas size and its blocks.
#[derive(Debug)]
pub struct PictureData {
    pub width: i32,
    pub height: i32,
    pub blocks: Vec<BlockData>,
}

} // verus!
