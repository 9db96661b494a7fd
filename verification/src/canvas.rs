//! The hierarchical canvas: a mapping from block identifier to block, with
//! operation application, per-operation cost, and per-point color lookup.

use vstd::prelude::*;
use vstd::seq_lib::*;
use vstd::string::StringExecFns;
use vstd::pervasive::VecAdditionalExecFns;
use crate::color::{spec_white, Color};
use crate::error::EditError;
use crate::geometry::{Point, Shape};
use crate::ops::{digit_char, BlockId, Operation};
use crate::transport::{BlockData, PictureData};

verus! {

/// A uniformly colored sub-region of a composite block.
#[derive(Debug, Clone, Copy, PartialEq, Eq, Structural)]
pub struct Child {
    pub shape: Shape,
    pub color: Color,
}

/// A block of the canvas: uniformly colored (`Simple`), or composed of
/// colored sub-regions (`Complex`). Children are plain colored rectangles, so
/// nesting deeper than one level is impossible by construction.
#[derive(Debug)]
pub enum Block {
    Simple { shape: Shape, color: Color },
    Complex { shape: Shape, children: Vec<Child> },
}

/// The mathematical value of a block.
pub enum BlockV {
    Leaf { shape: Shape, color: Color },
    Group { shape: Shape, kids: Seq<Child> },
}

impl View for Block {
    type V = BlockV;

    open spec fn view(&self) -> BlockV {
        match self {
            Block::Simple { shape, color } => BlockV::Leaf { shape: *shape, color: *color },
            Block::Complex { shape, children } => BlockV::Group {
                shape: *shape,
                kids: children@,
            },
        }
    }
}

impl BlockV {
    /// The shape of the block.
    pub open spec fn shape(self) -> Shape {
        match self {
            BlockV::Leaf { shape, .. } => shape,
            BlockV::Group { shape, .. } => shape,
        }
    }

    /// The same block with another shape.
    pub open spec fn with_shape(self, new_shape: Shape) -> BlockV {
        match self {
            BlockV::Leaf { color, .. } => BlockV::Leaf { shape: new_shape, color },
            BlockV::Group { kids, .. } => BlockV::Group { shape: new_shape, kids },
        }
    }

    /// The block's shape is valid and lies within the canvas rectangle, and
    /// the shapes of its children are valid.
    pub open spec fn wf(self, width: int, height: int) -> bool {
        &&& self.shape().valid()
        &&& 0 <= self.shape().l
        &&& self.shape().r <= width
        &&& 0 <= self.shape().b
        &&& self.shape().t <= height
        &&& match self {
            BlockV::Leaf { .. } => true,
            BlockV::Group { kids, .. } => forall|k: int|
                0 <= k < kids.len() ==> (#[trigger] kids[k]).shape.valid(),
        }
    }
}

impl Block {
    /// The shape of the block.
    pub fn shape(&self) -> (s: Shape)
        ensures
            s == self@.shape(),
    {
        match self {
            Block::Simple { shape, .. } => *shape,
            Block::Complex { shape, .. } => *shape,
        }
    }

    /// A copy of the block with another shape; the color or the children stay.
    pub fn update_shape(&self, new_shape: Shape) -> (b: Block)
        ensures
            b@ == self@.with_shape(new_shape),
    {
        match self {
            Block::Simple { color, .. } => Block::Simple { shape: new_shape, color: *color },
            Block::Complex { children, .. } => {
                let mut kids: Vec<Child> = Vec::new();
                let mut k: usize = 0;
                while k < children.len()
                    invariant
                        k <= children@.len(),
                        kids@ == children@.take(k as int),
                    decreases children@.len() - k,
                {
                    kids.push(children[k]);
                    proof {
                        assert(kids@ =~= children@.take(k + 1));
                    }
                    k = k + 1;
                }
                proof {
                    assert(kids@ =~= children@);
                }
                Block::Complex { shape: new_shape, children: kids }
            },
        }
    }
}

/// The entries of a canvas: for each block, its identifier's characters and
/// the block's value, in storage order.
pub type Entries = Seq<(Seq<char>, BlockV)>;

/// `i` is the position of the first entry whose identifier is `id`.
pub open spec fn is_first_key(s: Entries, id: Seq<char>, i: int) -> bool {
    &&& 0 <= i < s.len()
    &&& s[i].0 == id
    &&& forall|j: int| 0 <= j < i ==> (#[trigger] s[j]).0 != id
}

/// Some entry has the identifier `id`.
pub open spec fn has_key(s: Entries, id: Seq<char>) -> bool {
    exists|i: int| 0 <= i < s.len() && (#[trigger] s[i]).0 == id
}

/// When some entry has the identifier, a first such entry exists.
pub proof fn lemma_first_key_exists(s: Entries, id: Seq<char>)
    requires
        has_key(s, id),
    ensures
        exists|i: int| is_first_key(s, id, i),
    decreases s.len(),
{
    if s[0].0 == id {
        assert(is_first_key(s, id, 0));
    } else {
        let rest = s.drop_first();
        assert(has_key(rest, id)) by {
            let w = choose|i: int| 0 <= i < s.len() && (#[trigger] s[i]).0 == id;
            assert(rest[w - 1].0 == id);
        }
        lemma_first_key_exists(rest, id);
        let i = choose|i: int| is_first_key(rest, id, i);
        assert(forall|j: int| 0 <= j < i + 1 ==> (#[trigger] s[j]).0 != id) by {
            assert(forall|j: int| 1 <= j < i + 1 ==> s[j] == rest[j - 1]);
        }
        assert(is_first_key(s, id, i + 1));
    }
}

/// A canvas: the mapping from block identifier to block, the canvas size, and
/// a monotonically assigned counter that current operations do not use.
#[derive(Debug)]
pub struct Picture {
    pub counter: u32,
    pub width: i32,
    pub height: i32,
    pub blocks: Vec<(BlockId, Block)>,
}

/// The entries of a block store: each identifier's characters with the
/// block's value, in storage order.
pub open spec fn entries_of(s: Seq<(BlockId, Block)>) -> Entries {
    s.map_values(|p: (BlockId, Block)| (p.0@, p.1@))
}

/// The entries of a fresh canvas: one full-canvas white leaf under the root
/// identifier.
pub open spec fn initial_entries(width: i32, height: i32) -> Entries {
    seq![
        ("0"@, BlockV::Leaf { shape: Shape { l: 0, b: 0, r: width, t: height }, color: spec_white() }),
    ]
}

impl Picture {
    /// The entries of the canvas, in storage order.
    pub open spec fn entries(self) -> Entries {
        entries_of(self.blocks@)
    }

    /// Well-formedness: the canvas size is positive and small enough for the
    /// cost formula, block identifiers are unique, and every block is
    /// well-formed within the canvas rectangle.
    pub open spec fn wf(self) -> bool {
        &&& 0 < self.width
        &&& 0 < self.height
        &&& 10 * self.width * self.height <= i32::MAX
        &&& forall|i: int, j: int|
            0 <= i < j < self.entries().len() ==> (#[trigger] self.entries()[i]).0 != (
            #[trigger] self.entries()[j]).0
        &&& forall|i: int|
            0 <= i < self.entries().len() ==> (#[trigger] self.entries()[i]).1.wf(
                self.width as int,
                self.height as int,
            )
    }

    /// The canvas of the given size holding one full-canvas white leaf under
    /// the identifier of the root block.
    pub fn initial(width: i32, height: i32) -> (pic: Picture)
        requires
            0 < width,
            0 < height,
            10 * width * height <= i32::MAX,
        ensures
            pic.wf(),
            pic.counter == 0,
            pic.width == width,
            pic.height == height,
            pic.entries() =~= initial_entries(width, height),
    {
        let mut blocks: Vec<(BlockId, Block)> = Vec::new();
        blocks.push(
            (
                String::from_str("0"),
                Block::Simple {
                    shape: Shape { l: 0, b: 0, r: width, t: height },
                    color: Color::white(),
                },
            ),
        );
        Picture { counter: 0, width, height, blocks }
    }

    /// The position of the block with the given identifier, if any.
    fn find_index(&self, id: &BlockId) -> (res: Option<usize>)
        ensures
            match res {
                Some(i) => is_first_key(self.entries(), id@, i as int),
                None => !has_key(self.entries(), id@),
            },
    {
        let mut i: usize = 0;
        while i < self.blocks.len()
            invariant
                i <= self.blocks@.len(),
                forall|j: int| 0 <= j < i ==> (#[trigger] self.entries()[j]).0 != id@,
            decreases self.blocks@.len() - i,
        {
            if self.blocks[i].0 == *id {
                return Some(i);
            }
            i = i + 1;
        }
        None
    }

    /// Look up and remove the block at `id`, and reinsert at the same
    /// identifier a leaf with the same shape and the new color; a composite
    /// becomes a leaf and its children are discarded. Fails when `id` is
    /// absent, leaving the canvas unchanged.
    pub fn apply_color(&mut self, id: &BlockId, color: Color) -> (res: Result<(), EditError>)
        ensures
            recolor_result(old(self).entries(), id@, color, final(self).entries(), res),
            final(self).counter == old(self).counter,
            final(self).width == old(self).width,
            final(self).height == old(self).height,
            old(self).wf() ==> final(self).wf(),
    {
        let found = self.find_index(id);
        match found {
            None => Err(EditError::MissingBlock { id: id.clone() }),
            Some(i) => {
                let (bid, old_block) = self.blocks.remove(i);
                let shape = old_block.shape();
                self.blocks.push((bid, Block::Simple { shape, color }));
                proof {
                    let oe = old(self).entries();
                    let ne = final(self).entries();
                    assert(ne =~= oe.remove(i as int).push(
                        (id@, BlockV::Leaf { shape: oe[i as int].1.shape(), color }),
                    ));
                    assert(forall|k: int|
                        is_first_key(oe, id@, k) ==> k == i) by {
                        assert(is_first_key(oe, id@, i as int));
                    }
                    if old(self).wf() {
                        lemma_remove_push_wf(*old(self), *self, i as int, id@, BlockV::Leaf {
                            shape: oe[i as int].1.shape(),
                            color,
                        });
                    }
                }
                Ok(())
            },
        }
    }
}

/// What a recolor of `id` with `color` does: on success the entry is removed
/// and a leaf with the same shape and the new color is appended under the
/// same identifier; the only failure is a missing identifier, which leaves
/// the entries unchanged.
pub open spec fn recolor_result(
    oe: Entries,
    id: Seq<char>,
    color: Color,
    ne: Entries,
    res: Result<(), EditError>,
) -> bool {
    match res {
        Ok(()) => has_key(oe, id) && forall|i: int|
            is_first_key(oe, id, i) ==> ne == oe.remove(i).push(
                (id, BlockV::Leaf { shape: oe[i].1.shape(), color }),
            ),
        Err(e) => {
            &&& !has_key(oe, id)
            &&& e matches EditError::MissingBlock { id: missing } && missing@ == id
            &&& ne == oe
        },
    }
}

/// A cut of a block: at an interior point, at an interior x coordinate, or at
/// an interior y coordinate.
#[derive(Debug, Clone, Copy, PartialEq, Eq, Structural)]
pub enum Cut {
    P(Point),
    X(i32),
    Y(i32),
}

/// The cut's coordinate is strictly interior to the shape on its axis.
pub open spec fn cut_valid(shape: Shape, cut: Cut) -> bool {
    match cut {
        Cut::P(p) => shape.spec_interior(p),
        Cut::X(x) => shape.l < x < shape.r,
        Cut::Y(y) => shape.b < y < shape.t,
    }
}

/// The sub-rectangles of the cut, in the cut's fixed order.
pub open spec fn cut_pieces(shape: Shape, cut: Cut) -> Seq<Shape> {
    match cut {
        Cut::P(p) => shape.pcut_pieces(p),
        Cut::X(x) => shape.xcut_pieces(x),
        Cut::Y(y) => shape.ycut_pieces(y),
    }
}

/// The failure reported for a cut outside the shape.
pub open spec fn cut_error(shape: Shape, cut: Cut) -> EditError {
    match cut {
        Cut::P(p) => EditError::CutOutside { shape, point: p },
        Cut::X(x) => EditError::CutOutsideX { shape, x },
        Cut::Y(y) => EditError::CutOutsideY { shape, y },
    }
}

/// Apply the geometric cut to the shape.
fn cut_shapes(shape: &Shape, cut: Cut) -> (res: Result<Vec<Shape>, EditError>)
    ensures
        match res {
            Ok(v) => cut_valid(*shape, cut) && v@ == cut_pieces(*shape, cut),
            Err(e) => !cut_valid(*shape, cut) && e == cut_error(*shape, cut),
        },
{
    match cut {
        Cut::P(p) => shape.pcut(p),
        Cut::X(x) => shape.xcut(x),
        Cut::Y(y) => shape.ycut(y),
    }
}

/// The identifier of the `j`-th block of a cut: the parent identifier with a
/// dot and the digit of `j` appended.
pub open spec fn child_id_chars(id: Seq<char>, j: int) -> Seq<char> {
    id + "."@ + seq![digit_char(j)]
}

/// The identifier of the `j`-th block of a cut.
fn child_id(id: &BlockId, j: u8) -> (c: BlockId)
    requires
        j < 10,
    ensures
        c@ == child_id_chars(id@, j as int),
{
    let mut c = id.clone();
    c.append(".");
    c.append(crate::ops::digit_str(j));
    proof {
        assert(c@ =~= child_id_chars(id@, j as int));
    }
    c
}

/// The children of the original block clipped to one piece of a cut: every
/// child intersected with the piece, children with no intersection dropped.
pub open spec fn filter_kids(kids: Seq<Child>, piece: Shape) -> Seq<Child>
    decreases kids.len(),
{
    if kids.len() == 0 {
        Seq::empty()
    } else {
        filter_kids(kids.drop_last(), piece) + (match piece.spec_intersect(kids.last().shape) {
            Some(sh) => seq![Child { shape: sh, color: kids.last().color }],
            None => Seq::empty(),
        })
    }
}

/// Clip the children of a composite block to one piece of a cut.
fn filter_children(children: &Vec<Child>, piece: &Shape) -> (res: Vec<Child>)
    ensures
        res@ == filter_kids(children@, *piece),
{
    let mut res: Vec<Child> = Vec::new();
    let mut k: usize = 0;
    while k < children.len()
        invariant
            k <= children@.len(),
            res@ == filter_kids(children@.take(k as int), *piece),
        decreases children@.len() - k,
    {
        let kid = children[k];
        match piece.intersect(&kid.shape) {
            Some(sh) => {
                res.push(Child { shape: sh, color: kid.color });
            },
            None => {},
        }
        proof {
            let pre = children@.take(k as int);
            let post = children@.take(k + 1);
            assert(post.drop_last() =~= pre);
            assert(post.last() == children@[k as int]);
        }
        k = k + 1;
    }
    proof {
        assert(children@.take(children@.len() as int) =~= children@);
    }
    res
}

/// The block standing on one piece of a cut: a leaf keeps its color, a
/// composite keeps its clipped children.
pub open spec fn cut_piece_block(bv: BlockV, piece: Shape) -> BlockV {
    match bv {
        BlockV::Leaf { color, .. } => BlockV::Leaf { shape: piece, color },
        BlockV::Group { kids, .. } => BlockV::Group { shape: piece, kids: filter_kids(kids, piece) },
    }
}

/// The entries that a cut of the block inserts, in the cut's fixed order.
pub open spec fn cut_new_entries(id: Seq<char>, bv: BlockV, cut: Cut) -> Seq<(Seq<char>, BlockV)> {
    Seq::new(
        cut_pieces(bv.shape(), cut).len(),
        |j: int| (child_id_chars(id, j), cut_piece_block(bv, cut_pieces(bv.shape(), cut)[j])),
    )
}

/// What a cut of the block at `id` does: on success the entry is removed and
/// the blocks of the pieces are inserted under the child identifiers, in the
/// cut's fixed order. A missing identifier leaves the entries unchanged; a
/// cut that is not strictly interior to the block's shape fails after the
/// removal, so the block stays removed.
pub open spec fn cut_result(
    oe: Entries,
    id: Seq<char>,
    cut: Cut,
    ne: Entries,
    res: Result<(), EditError>,
) -> bool {
    match res {
        Ok(()) => has_key(oe, id) && forall|i: int|
            is_first_key(oe, id, i) ==> {
                let bv = oe[i].1;
                cut_valid(bv.shape(), cut) && ne == upsert_all(
                    oe.remove(i),
                    cut_new_entries(id, bv, cut),
                )
            },
        Err(e) => if has_key(oe, id) {
            forall|i: int|
                is_first_key(oe, id, i) ==> {
                    let bv = oe[i].1;
                    &&& !cut_valid(bv.shape(), cut)
                    &&& e == cut_error(bv.shape(), cut)
                    &&& ne == oe.remove(i)
                }
        } else {
            &&& e matches EditError::MissingBlock { id: missing } && missing@ == id
            &&& ne == oe
        },
    }
}

/// What a swap of `id1` and `id2` does: on success the two blocks' shapes are
/// exchanged in place while colors and children stay with their identifiers.
/// A missing identifier (the first missing one is reported) or a size
/// mismatch leaves the entries unchanged.
pub open spec fn swap_result(
    oe: Entries,
    id1: Seq<char>,
    id2: Seq<char>,
    ne: Entries,
    res: Result<(), EditError>,
) -> bool {
    match res {
        Ok(()) => has_key(oe, id1) && has_key(oe, id2) && forall|i: int, j: int|
            is_first_key(oe, id1, i) && is_first_key(oe, id2, j) ==> {
                let b1 = oe[i].1;
                let b2 = oe[j].1;
                &&& b1.shape().spec_same_size(b2.shape())
                &&& ne == oe.update(i, (id1, b1.with_shape(b2.shape()))).update(
                    j,
                    (id2, b2.with_shape(b1.shape())),
                )
            },
        Err(e) => match e {
            EditError::MissingBlock { id: missing } => {
                &&& (!has_key(oe, id1) && missing@ == id1) || (has_key(oe, id1) && !has_key(
                    oe,
                    id2,
                ) && missing@ == id2)
                &&& ne == oe
            },
            EditError::ShapeMismatch { a, b } => has_key(oe, id1) && has_key(oe, id2) && forall|
                i: int,
                j: int,
            |
                is_first_key(oe, id1, i) && is_first_key(oe, id2, j) ==> {
                    &&& !oe[i].1.shape().spec_same_size(oe[j].1.shape())
                    &&& a == oe[i].1.shape()
                    &&& b == oe[j].1.shape()
                    &&& ne == oe
                },
            _ => false,
        },
    }
}

/// The position of the first entry with the identifier `id`.
pub open spec fn first_key_index(s: Entries, id: Seq<char>) -> int {
    choose|i: int| is_first_key(s, id, i)
}

/// The first position of an identifier is unique.
pub proof fn lemma_first_key_unique(s: Entries, id: Seq<char>, i: int, j: int)
    requires
        is_first_key(s, id, i),
        is_first_key(s, id, j),
    ensures
        i == j,
{
}

/// Insert a block under an identifier: replace the first entry with that
/// identifier, or append a new entry when the identifier is absent.
pub open spec fn upsert_one(s: Entries, id: Seq<char>, b: BlockV) -> Entries {
    if has_key(s, id) {
        s.update(first_key_index(s, id), (id, b))
    } else {
        s.push((id, b))
    }
}

/// Insert each of the given entries in turn.
pub open spec fn upsert_all(s: Entries, news: Seq<(Seq<char>, BlockV)>) -> Entries
    decreases news.len(),
{
    if news.len() == 0 {
        s
    } else {
        upsert_one(upsert_all(s, news.drop_last()), news.last().0, news.last().1)
    }
}

/// Inserting a block that is well-formed for the canvas size keeps unique
/// identifiers unique and all blocks well-formed.
proof fn lemma_upsert_one_wf(s: Entries, id: Seq<char>, b: BlockV, width: int, height: int)
    requires
        forall|i: int, j: int| 0 <= i < j < s.len() ==> (#[trigger] s[i]).0 != (#[trigger] s[j]).0,
        forall|i: int| 0 <= i < s.len() ==> (#[trigger] s[i]).1.wf(width, height),
        b.wf(width, height),
    ensures
        forall|i: int, j: int|
            0 <= i < j < upsert_one(s, id, b).len() ==> (#[trigger] upsert_one(s, id, b)[i]).0 != (
            #[trigger] upsert_one(s, id, b)[j]).0,
        forall|i: int|
            0 <= i < upsert_one(s, id, b).len() ==> (#[trigger] upsert_one(s, id, b)[i]).1.wf(
                width,
                height,
            ),
{
    let ns = upsert_one(s, id, b);
    if has_key(s, id) {
        lemma_first_key_exists(s, id);
        let w = first_key_index(s, id);
        assert(is_first_key(s, id, w));
        assert(ns == s.update(w, (id, b)));
        assert forall|i: int, j: int| 0 <= i < j < ns.len() implies (#[trigger] ns[i]).0 != (
        #[trigger] ns[j]).0 by {
            assert(s[w].0 == id);
        }
    }
}

/// Every piece of a valid cut of a valid shape within the canvas is itself a
/// valid shape within the canvas.
proof fn lemma_cut_pieces_wf(shape: Shape, cut: Cut, width: int, height: int)
    requires
        shape.valid(),
        0 <= shape.l,
        shape.r <= width,
        0 <= shape.b,
        shape.t <= height,
        cut_valid(shape, cut),
    ensures
        forall|j: int|
            0 <= j < cut_pieces(shape, cut).len() ==> {
                let piece = #[trigger] cut_pieces(shape, cut)[j];
                piece.valid() && 0 <= piece.l && piece.r <= width && 0 <= piece.b && piece.t
                    <= height
            },
{
}

/// Every clipped child of a valid piece has a valid shape, when the original
/// children do.
proof fn lemma_filter_kids_valid(kids: Seq<Child>, piece: Shape)
    requires
        piece.valid(),
        forall|k: int| 0 <= k < kids.len() ==> (#[trigger] kids[k]).shape.valid(),
    ensures
        forall|k: int|
            0 <= k < filter_kids(kids, piece).len() ==> (#[trigger] filter_kids(kids, piece)[
            k]).shape.valid(),
    decreases kids.len(),
{
    if kids.len() > 0 {
        assert(forall|k: int|
            0 <= k < kids.drop_last().len() ==> #[trigger] kids.drop_last()[k] == kids[k]);
        lemma_filter_kids_valid(kids.drop_last(), piece);
        let pre = filter_kids(kids.drop_last(), piece);
        let fk = filter_kids(kids, piece);
        assert(forall|k: int| 0 <= k < pre.len() ==> #[trigger] fk[k] == pre[k]);
        match piece.spec_intersect(kids.last().shape) {
            Some(sh) => {
                assert(fk[fk.len() - 1].shape == sh);
                assert(sh.valid());
            },
            None => {},
        }
    }
}

impl Picture {
    /// Insert the block under the identifier: replace the first block with
    /// that identifier, or append the pair when the identifier is absent.
    fn upsert_block(&mut self, id: BlockId, b: Block)
        ensures
            final(self).entries() == upsert_one(old(self).entries(), id@, b@),
            final(self).counter == old(self).counter,
            final(self).width == old(self).width,
            final(self).height == old(self).height,
    {
        let found = self.find_index(&id);
        match found {
            Some(i) => {
                self.blocks.set(i, (id, b));
                proof {
                    let oe = old(self).entries();
                    lemma_first_key_unique(oe, id@, i as int, first_key_index(oe, id@));
                    assert(final(self).entries() =~= oe.update(i as int, (id@, b@)));
                }
            },
            None => {
                self.blocks.push((id, b));
                proof {
                    assert(final(self).entries() =~= old(self).entries().push((id@, b@)));
                }
            },
        }
    }

    /// Look up and remove the block at `id` and apply the cut to its shape.
    /// For a leaf, each piece becomes a leaf of the same color; for a
    /// composite, each piece becomes a composite holding the original
    /// children clipped to the piece. The new blocks are inserted in the
    /// cut's fixed order under the child identifiers of `id`. Fails when `id`
    /// is absent (canvas unchanged), or when the cut is not strictly interior
    /// to the block's shape (the block stays removed).
    pub fn apply_cut(&mut self, id: &BlockId, cut: Cut) -> (res: Result<(), EditError>)
        requires
            old(self).wf(),
        ensures
            final(self).wf(),
            cut_result(old(self).entries(), id@, cut, final(self).entries(), res),
            final(self).counter == old(self).counter,
            final(self).width == old(self).width,
            final(self).height == old(self).height,
    {
        let found = self.find_index(id);
        let i = match found {
            None => {
                return Err(EditError::MissingBlock { id: id.clone() });
            },
            Some(i) => i,
        };
        let ghost oe = old(self).entries();
        let (bid, old_block) = self.blocks.remove(i);
        proof {
            assert(self.entries() =~= oe.remove(i as int));
            assert(forall|k: int| is_first_key(oe, id@, k) ==> k == i) by {
                assert(is_first_key(oe, id@, i as int));
            }
            lemma_remove_keeps_wf(*old(self), *self, i as int);
        }
        let shape = old_block.shape();
        let pieces = match cut_shapes(&shape, cut) {
            Err(e) => {
                return Err(e);
            },
            Ok(pieces) => pieces,
        };
        let ghost bv = old_block@;
        let ghost base = oe.remove(i as int);
        let ghost news = cut_new_entries(id@, bv, cut);
        proof {
            lemma_cut_pieces_wf(shape, cut, self.width as int, self.height as int);
        }
        let mut j: usize = 0;
        while j < pieces.len()
            invariant
                j <= pieces@.len(),
                pieces@ == cut_pieces(bv.shape(), cut),
                pieces@.len() <= 4,
                cut_valid(bv.shape(), cut),
                news == cut_new_entries(id@, bv, cut),
                news.len() == pieces@.len(),
                bid@ == id@,
                self.entries() == upsert_all(base, news.take(j as int)),
                self.width == old(self).width,
                self.height == old(self).height,
                self.counter == old(self).counter,
                0 < self.width,
                0 < self.height,
                10 * self.width * self.height <= i32::MAX,
                forall|p: int, q: int|
                    0 <= p < q < self.entries().len() ==> (#[trigger] self.entries()[p]).0 != (
                    #[trigger] self.entries()[q]).0,
                forall|p: int|
                    0 <= p < self.entries().len() ==> (#[trigger] self.entries()[p]).1.wf(
                        self.width as int,
                        self.height as int,
                    ),
                forall|jj: int|
                    0 <= jj < pieces@.len() ==> {
                        let piece = #[trigger] pieces@[jj];
                        piece.valid() && 0 <= piece.l && piece.r <= self.width && 0 <= piece.b
                            && piece.t <= self.height
                    },
                old_block@ == bv,
                bv.wf(self.width as int, self.height as int),
            decreases pieces@.len() - j,
        {
            let piece = pieces[j];
            let cid = child_id(&bid, j as u8);
            let new_block = match &old_block {
                Block::Simple { color, .. } => Block::Simple { shape: piece, color: *color },
                Block::Complex { children, .. } => {
                    let kids = filter_children(children, &piece);
                    Block::Complex { shape: piece, children: kids }
                },
            };
            proof {
                assert(new_block@ == cut_piece_block(bv, piece));
                assert(new_block@.wf(self.width as int, self.height as int)) by {
                    if let BlockV::Group { kids, .. } = bv {
                        lemma_filter_kids_valid(kids, piece);
                    }
                }
                lemma_upsert_one_wf(
                    self.entries(),
                    cid@,
                    new_block@,
                    self.width as int,
                    self.height as int,
                );
                assert(news.take(j + 1).drop_last() =~= news.take(j as int));
                assert(news.take(j + 1).last() == news[j as int]);
            }
            self.upsert_block(cid, new_block);
            j = j + 1;
        }
        proof {
            assert(news.take(news.len() as int) =~= news);
        }
        Ok(())
    }

    /// Exchange the shapes of the blocks at `id1` and `id2`; colors and
    /// children stay attached to their original identifiers. Fails when
    /// either identifier is absent or the two shapes are not the same size,
    /// leaving the canvas unchanged.
    pub fn apply_swap(&mut self, id1: &BlockId, id2: &BlockId) -> (res: Result<(), EditError>)
        requires
            old(self).wf(),
        ensures
            final(self).wf(),
            swap_result(old(self).entries(), id1@, id2@, final(self).entries(), res),
            final(self).counter == old(self).counter,
            final(self).width == old(self).width,
            final(self).height == old(self).height,
    {
        let i1 = match self.find_index(id1) {
            None => {
                return Err(EditError::MissingBlock { id: id1.clone() });
            },
            Some(i) => i,
        };
        let i2 = match self.find_index(id2) {
            None => {
                return Err(EditError::MissingBlock { id: id2.clone() });
            },
            Some(i) => i,
        };
        let ghost oe = old(self).entries();
        proof {
            assert(forall|k: int| is_first_key(oe, id1@, k) ==> k == i1) by {
                assert(is_first_key(oe, id1@, i1 as int));
            }
            assert(forall|k: int| is_first_key(oe, id2@, k) ==> k == i2) by {
                assert(is_first_key(oe, id2@, i2 as int));
            }
        }
        let shape1 = self.blocks[i1].1.shape();
        let shape2 = self.blocks[i2].1.shape();
        if !shape1.is_same(&shape2) {
            return Err(EditError::ShapeMismatch { a: shape1, b: shape2 });
        }
        let key1 = self.blocks[i1].0.clone();
        let key2 = self.blocks[i2].0.clone();
        let b1new = self.blocks[i1].1.update_shape(shape2);
        let b2new = self.blocks[i2].1.update_shape(shape1);
        self.blocks.set(i1, (key1, b1new));
        self.blocks.set(i2, (key2, b2new));
        proof {
            let ne = final(self).entries();
            assert(ne =~= oe.update(i1 as int, (id1@, oe[i1 as int].1.with_shape(shape2))).update(
                i2 as int,
                (id2@, oe[i2 as int].1.with_shape(shape1)),
            ));
            assert(forall|p: int, q: int| 0 <= p < q < ne.len() ==> (#[trigger] ne[p]).0 != (
            #[trigger] ne[q]).0);
            assert(forall|p: int|
                0 <= p < ne.len() ==> (#[trigger] ne[p]).1.wf(
                    self.width as int,
                    self.height as int,
                ));
        }
        Ok(())
    }

    /// Apply one operation to the canvas: recolor, cut, or swap mutate it;
    /// merge is deliberately unsupported and fails. On failure the canvas is
    /// unchanged, except for a cut whose geometry fails after the lookup,
    /// which leaves the block removed.
    pub fn apply(&mut self, op: &Operation) -> (res: Result<(), EditError>)
        requires
            old(self).wf(),
        ensures
            final(self).wf(),
            match *op {
                Operation::Color { id, color } => recolor_result(
                    old(self).entries(),
                    id@,
                    color,
                    final(self).entries(),
                    res,
                ),
                Operation::PCut { id, point } => cut_result(
                    old(self).entries(),
                    id@,
                    Cut::P(point),
                    final(self).entries(),
                    res,
                ),
                Operation::XCut { id, x } => cut_result(
                    old(self).entries(),
                    id@,
                    Cut::X(x),
                    final(self).entries(),
                    res,
                ),
                Operation::YCut { id, y } => cut_result(
                    old(self).entries(),
                    id@,
                    Cut::Y(y),
                    final(self).entries(),
                    res,
                ),
                Operation::Swap { id1, id2 } => swap_result(
                    old(self).entries(),
                    id1@,
                    id2@,
                    final(self).entries(),
                    res,
                ),
                Operation::Merge { .. } => res == Err::<(), EditError>(EditError::Unsupported)
                    && final(self).entries() == old(self).entries(),
            },
            final(self).counter == old(self).counter,
            final(self).width == old(self).width,
            final(self).height == old(self).height,
    {
        match op {
            Operation::Color { id, color } => self.apply_color(id, *color),
            Operation::PCut { id, point } => self.apply_cut(id, Cut::P(*point)),
            Operation::XCut { id, x } => self.apply_cut(id, Cut::X(*x)),
            Operation::YCut { id, y } => self.apply_cut(id, Cut::Y(*y)),
            Operation::Swap { id1, id2 } => self.apply_swap(id1, id2),
            Operation::Merge { .. } => Err(EditError::Unsupported),
        }
    }
}

/// The shape described by a block of a canvas description.
pub open spec fn data_shape(bd: BlockData) -> Shape {
    Shape { l: bd.bottom_left.0, b: bd.bottom_left.1, r: bd.top_right.0, t: bd.top_right.1 }
}

/// The color described by a block of a canvas description.
pub open spec fn data_color(bd: BlockData) -> Color {
    Color { r: bd.color.0, g: bd.color.1, b: bd.color.2, a: bd.color.3 }
}

/// The described shape is valid and lies within the canvas rectangle.
pub open spec fn block_data_wf(bd: BlockData, width: int, height: int) -> bool {
    &&& data_shape(bd).valid()
    &&& 0 <= data_shape(bd).l
    &&& data_shape(bd).r <= width
    &&& 0 <= data_shape(bd).b
    &&& data_shape(bd).t <= height
}

/// The entries described by a list of blocks, inserted in order; a repeated
/// identifier keeps the position of its first occurrence and the block of its
/// last.
pub open spec fn data_entries(bds: Seq<BlockData>) -> Entries
    decreases bds.len(),
{
    if bds.len() == 0 {
        Seq::empty()
    } else {
        upsert_one(
            data_entries(bds.drop_last()),
            bds.last().block_id@,
            BlockV::Leaf { shape: data_shape(bds.last()), color: data_color(bds.last()) },
        )
    }
}

impl Picture {
    /// The canvas reconstructed from a description: every described block
    /// becomes a leaf. Fails when the canvas size is not positive or too
    /// large for the cost formula, or when a described shape is not valid
    /// and within the canvas.
    pub fn from_data(data: &PictureData) -> (res: Option<Picture>)
        ensures
            match res {
                Some(pic) => {
                    &&& 0 < data.width
                    &&& 0 < data.height
                    &&& 10 * data.width * data.height <= i32::MAX
                    &&& forall|k: int|
                        0 <= k < data.blocks@.len() ==> block_data_wf(
                            #[trigger] data.blocks@[k],
                            data.width as int,
                            data.height as int,
                        )
                    &&& pic.wf()
                    &&& pic.counter == 0
                    &&& pic.width == data.width
                    &&& pic.height == data.height
                    &&& pic.entries() == data_entries(data.blocks@)
                },
                None => {
                    ||| !(0 < data.width && 0 < data.height && 10 * data.width * data.height
                        <= i32::MAX)
                    ||| exists|k: int|
                        0 <= k < data.blocks@.len() && !block_data_wf(
                            #[trigger] data.blocks@[k],
                            data.width as int,
                            data.height as int,
                        )
                },
            },
    {
        if data.width <= 0 || data.height <= 0 {
            return None;
        }
        proof {
            assert((data.width as i64) * (data.height as i64) <= 0x4000_0000_0000_0000i64)
                by (nonlinear_arith)
                requires
                    0 < data.width < 0x8000_0000i64,
                    0 < data.height < 0x8000_0000i64,
            ;
        }
        if (data.width as i64) * (data.height as i64) > (i32::MAX as i64) / 10 {
            proof {
                assert(10 * data.width * data.height > i32::MAX) by (nonlinear_arith)
                    requires
                        (data.width as i64) * (data.height as i64) > (i32::MAX as i64) / 10,
                ;
            }
            return None;
        }
        proof {
            assert(10 * data.width * data.height <= i32::MAX) by (nonlinear_arith)
                requires
                    (data.width as i64) * (data.height as i64) <= (i32::MAX as i64) / 10,
            ;
        }
        let mut pic = Picture { counter: 0, width: data.width, height: data.height, blocks: Vec::new() };
        proof {
            assert(pic.entries() =~= Seq::<(Seq<char>, BlockV)>::empty());
        }
        let mut k: usize = 0;
        while k < data.blocks.len()
            invariant
                k <= data.blocks@.len(),
                pic.counter == 0,
                pic.width == data.width,
                pic.height == data.height,
                0 < data.width,
                0 < data.height,
                10 * data.width * data.height <= i32::MAX,
                pic.entries() == data_entries(data.blocks@.take(k as int)),
                forall|j: int|
                    0 <= j < k ==> block_data_wf(
                        #[trigger] data.blocks@[j],
                        data.width as int,
                        data.height as int,
                    ),
                forall|p: int, q: int|
                    0 <= p < q < pic.entries().len() ==> (#[trigger] pic.entries()[p]).0 != (
                    #[trigger] pic.entries()[q]).0,
                forall|p: int|
                    0 <= p < pic.entries().len() ==> (#[trigger] pic.entries()[p]).1.wf(
                        data.width as int,
                        data.height as int,
                    ),
            decreases data.blocks@.len() - k,
        {
            let bd = &data.blocks[k];
            let shape = Shape {
                l: bd.bottom_left.0,
                b: bd.bottom_left.1,
                r: bd.top_right.0,
                t: bd.top_right.1,
            };
            if !(shape.l < shape.r && shape.b < shape.t && 0 <= shape.l && shape.r <= data.width
                && 0 <= shape.b && shape.t <= data.height) {
                return None;
            }
            let color = Color { r: bd.color.0, g: bd.color.1, b: bd.color.2, a: bd.color.3 };
            let b = Block::Simple { shape, color };
            proof {
                lemma_upsert_one_wf(
                    pic.entries(),
                    bd.block_id@,
                    b@,
                    data.width as int,
                    data.height as int,
                );
                assert(data.blocks@.take(k + 1).drop_last() =~= data.blocks@.take(k as int));
            }
            pic.upsert_block(bd.block_id.clone(), b);
            k = k + 1;
        }
        proof {
            assert(data.blocks@.take(data.blocks@.len() as int) =~= data.blocks@);
        }
        Some(pic)
    }
}

/// Division of a nonnegative numerator by a positive denominator, rounded to
/// the nearest integer with halves rounded up.
pub open spec fn rounded_div(n: int, d: int) -> int {
    (2 * n + d) / (2 * d)
}

/// The per-kind base constant of the cost formula.
pub open spec fn base_cost(op: Operation) -> int {
    match op {
        Operation::Color { .. } => 5,
        Operation::PCut { .. } => 10,
        Operation::XCut { .. } => 7,
        Operation::YCut { .. } => 7,
        Operation::Swap { .. } => 3,
        Operation::Merge { .. } => 1,
    }
}

/// The identifier whose block the cost formula measures: the operation's
/// first identifier.
pub open spec fn cost_id(op: Operation) -> Seq<char> {
    match op {
        Operation::Color { id, .. } => id@,
        Operation::PCut { id, .. } => id@,
        Operation::XCut { id, .. } => id@,
        Operation::YCut { id, .. } => id@,
        Operation::Swap { id1, .. } => id1@,
        Operation::Merge { id1, .. } => id1@,
    }
}

/// `i` is the position of the first entry whose shape contains `p`.
pub open spec fn is_first_hit(s: Entries, p: Point, i: int) -> bool {
    &&& 0 <= i < s.len()
    &&& s[i].1.shape().spec_contains(p)
    &&& forall|j: int| 0 <= j < i ==> !(#[trigger] s[j]).1.shape().spec_contains(p)
}

/// Some entry's shape contains `p`.
pub open spec fn some_hit(s: Entries, p: Point) -> bool {
    exists|i: int| 0 <= i < s.len() && (#[trigger] s[i]).1.shape().spec_contains(p)
}

/// `k` is the position of the first child whose shape contains `p`.
pub open spec fn is_first_kid_hit(kids: Seq<Child>, p: Point, k: int) -> bool {
    &&& 0 <= k < kids.len()
    &&& kids[k].shape.spec_contains(p)
    &&& forall|j: int| 0 <= j < k ==> !(#[trigger] kids[j]).shape.spec_contains(p)
}

/// Some child's shape contains `p`.
pub open spec fn some_kid_hit(kids: Seq<Child>, p: Point) -> bool {
    exists|k: int| 0 <= k < kids.len() && (#[trigger] kids[k]).shape.spec_contains(p)
}

/// What a color lookup at `p` returns: the color of the first block whose
/// shape contains the point, descending into the first containing child of a
/// composite; a malformed-canvas failure when no block, or no child of the
/// found composite, contains the point.
pub open spec fn color_at_result(s: Entries, p: Point, res: Result<Color, EditError>) -> bool {
    match res {
        Ok(c) => some_hit(s, p) && forall|i: int|
            is_first_hit(s, p, i) ==> match s[i].1 {
                BlockV::Leaf { color, .. } => c == color,
                BlockV::Group { kids, .. } => some_kid_hit(kids, p) && forall|k: int|
                    is_first_kid_hit(kids, p, k) ==> c == kids[k].color,
            },
        Err(e) => {
            &&& e == (EditError::MalformedPicture { point: p })
            &&& some_hit(s, p) ==> forall|i: int|
                is_first_hit(s, p, i) ==> (s[i].1 matches BlockV::Group { kids, .. }
                    && !some_kid_hit(kids, p))
        },
    }
}

impl Picture {
    /// The cost of the operation against the current canvas:
    /// `round(base * width * height / area)`, where `area` is the area of the
    /// measured block's shape, or, for a merge, the sum of both operands'
    /// areas. Fails when a referenced identifier is absent.
    pub fn cost(&self, op: &Operation) -> (res: Result<u64, EditError>)
        requires
            self.wf(),
        ensures
            match *op {
                Operation::Merge { id1, id2 } => match res {
                    Ok(c) => {
                        &&& has_key(self.entries(), id1@)
                        &&& has_key(self.entries(), id2@)
                        &&& forall|i: int, j: int|
                            is_first_key(self.entries(), id1@, i) && is_first_key(
                                self.entries(),
                                id2@,
                                j,
                            ) ==> c == rounded_div(
                                base_cost(*op) * self.width * self.height,
                                self.entries()[i].1.shape().spec_area()
                                    + self.entries()[j].1.shape().spec_area(),
                            )
                    },
                    Err(e) => {
                        &&& e matches EditError::MissingBlock { id: missing } && ((!has_key(
                            self.entries(),
                            id1@,
                        ) && missing@ == id1@) || (has_key(self.entries(), id1@) && !has_key(
                            self.entries(),
                            id2@,
                        ) && missing@ == id2@))
                    },
                },
                _ => match res {
                    Ok(c) => has_key(self.entries(), cost_id(*op)) && forall|i: int|
                        is_first_key(self.entries(), cost_id(*op), i) ==> c == rounded_div(
                            base_cost(*op) * self.width * self.height,
                            self.entries()[i].1.shape().spec_area(),
                        ),
                    Err(e) => {
                        &&& !has_key(self.entries(), cost_id(*op))
                        &&& e matches EditError::MissingBlock { id: missing } && missing@
                            == cost_id(*op)
                    },
                },
            },
    {
        let (id, second): (&BlockId, Option<&BlockId>) = match op {
            Operation::Color { id, .. } => (id, None),
            Operation::PCut { id, .. } => (id, None),
            Operation::XCut { id, .. } => (id, None),
            Operation::YCut { id, .. } => (id, None),
            Operation::Swap { id1, .. } => (id1, None),
            Operation::Merge { id1, id2 } => (id1, Some(id2)),
        };
        let i = match self.find_index(id) {
            None => {
                return Err(EditError::MissingBlock { id: id.clone() });
            },
            Some(i) => i,
        };
        proof {
            assert(forall|k: int| is_first_key(self.entries(), id@, k) ==> k == i) by {
                assert(is_first_key(self.entries(), id@, i as int));
            }
            lemma_area_in_canvas(self.entries()[i as int].1.shape(), *self);
        }
        let area1 = self.blocks[i].1.shape().area();
        let area: u64 = match second {
            None => area1 as u64,
            Some(id2) => {
                let j = match self.find_index(id2) {
                    None => {
                        return Err(EditError::MissingBlock { id: id2.clone() });
                    },
                    Some(j) => j,
                };
                proof {
                    assert(forall|k: int| is_first_key(self.entries(), id2@, k) ==> k == j) by {
                        assert(is_first_key(self.entries(), id2@, j as int));
                    }
                    lemma_area_in_canvas(self.entries()[j as int].1.shape(), *self);
                }
                let area2 = self.blocks[j].1.shape().area();
                area1 as u64 + area2 as u64
            },
        };
        let base: u64 = match op {
            Operation::Color { .. } => 5,
            Operation::PCut { .. } => 10,
            Operation::XCut { .. } => 7,
            Operation::YCut { .. } => 7,
            Operation::Swap { .. } => 3,
            Operation::Merge { .. } => 1,
        };
        proof {
            assert(base * (self.width as u64) * (self.height as u64) <= 10 * self.width
                * self.height) by (nonlinear_arith)
                requires
                    1 <= base <= 10,
                    0 < self.width,
                    0 < self.height,
            ;
        }
        let n: u64 = base * (self.width as u64) * (self.height as u64);
        Ok((2 * n + area) / (2 * area))
    }

    /// The color of the canvas at the point: the color of the first block
    /// whose shape contains the point, descending into the first containing
    /// child of a composite. Fails when no block, or no child of the found
    /// composite, contains the point: the canvas does not tile.
    pub fn get_color(&self, p: Point) -> (res: Result<Color, EditError>)
        ensures
            color_at_result(self.entries(), p, res),
    {
        let mut i: usize = 0;
        while i < self.blocks.len()
            invariant
                i <= self.blocks@.len(),
                forall|j: int|
                    0 <= j < i ==> !(#[trigger] self.entries()[j]).1.shape().spec_contains(p),
            decreases self.blocks@.len() - i,
        {
            let shape = self.blocks[i].1.shape();
            if shape.contains(p) {
                proof {
                    assert(is_first_hit(self.entries(), p, i as int));
                    assert(forall|k: int| is_first_hit(self.entries(), p, k) ==> k == i);
                }
                match &self.blocks[i].1 {
                    Block::Simple { color, .. } => {
                        return Ok(*color);
                    },
                    Block::Complex { children, .. } => {
                        let ghost kids = children@;
                        let mut k: usize = 0;
                        while k < children.len()
                            invariant
                                k <= children@.len(),
                                kids == children@,
                                i < self.blocks@.len(),
                                is_first_hit(self.entries(), p, i as int),
                                (self.entries()[i as int].1 matches BlockV::Group {
                                    kids: gk,
                                    ..
                                } && gk == kids),
                                forall|j: int|
                                    0 <= j < k ==> !(#[trigger] children@[j]).shape.spec_contains(
                                        p,
                                    ),
                            decreases children@.len() - k,
                        {
                            let kid = children[k];
                            if kid.shape.contains(p) {
                                proof {
                                    assert(is_first_kid_hit(kids, p, k as int));
                                    assert(forall|m: int|
                                        is_first_kid_hit(kids, p, m) ==> m == k);
                                }
                                return Ok(kid.color);
                            }
                            k = k + 1;
                        }
                        return Err(EditError::MalformedPicture { point: p });
                    },
                }
            }
            i = i + 1;
        }
        Err(EditError::MalformedPicture { point: p })
    }
}

/// The area of a block's shape within a well-formed canvas is positive and at
/// most the canvas area, which fits an `i32`.
proof fn lemma_area_in_canvas(shape: Shape, pic: Picture)
    requires
        0 < pic.width,
        0 < pic.height,
        10 * pic.width * pic.height <= i32::MAX,
        shape.valid(),
        0 <= shape.l,
        shape.r <= pic.width,
        0 <= shape.b,
        shape.t <= pic.height,
    ensures
        1 <= shape.spec_area() <= pic.width * pic.height,
        pic.width * pic.height <= i32::MAX,
{
    assert(1 <= shape.spec_width());
    assert(1 <= shape.spec_height());
    assert(1 <= shape.spec_area() <= pic.width * pic.height) by (nonlinear_arith)
        requires
            1 <= shape.spec_width() <= pic.width,
            1 <= shape.spec_height() <= pic.height,
            shape.spec_area() == shape.spec_width() * shape.spec_height(),
    ;
    assert(pic.width * pic.height <= 10 * pic.width * pic.height) by (nonlinear_arith)
        requires
            0 < pic.width,
            0 < pic.height,
    ;
}

/// No point lies in the shapes of two distinct blocks.
pub open spec fn pairwise_disjoint(s: Entries) -> bool {
    forall|i: int, j: int, p: Point|
        0 <= i < j < s.len() ==> !((#[trigger] s[i].1.shape().spec_contains(p)) && (
        #[trigger] s[j].1.shape().spec_contains(p)))
}

/// Law: after a successful recolor of the block at `id`, a color lookup at
/// any point inside that block's shape returns the new color, on a canvas
/// whose blocks are pairwise disjoint.
pub proof fn lemma_recolor_then_color_at(
    oe: Entries,
    id: Seq<char>,
    color: Color,
    ne: Entries,
    res: Result<(), EditError>,
    p: Point,
    i: int,
    outcome: Result<Color, EditError>,
)
    requires
        pairwise_disjoint(oe),
        recolor_result(oe, id, color, ne, res),
        res is Ok,
        is_first_key(oe, id, i),
        oe[i].1.shape().spec_contains(p),
        color_at_result(ne, p, outcome),
    ensures
        outcome == Ok::<Color, EditError>(color),
{
    assert(ne == oe.remove(i).push((id, BlockV::Leaf { shape: oe[i].1.shape(), color })));
    let last = ne.len() - 1;
    assert(forall|j: int|
        0 <= j < oe.remove(i).len() ==> #[trigger] oe.remove(i)[j] == (if j < i {
            oe[j]
        } else {
            oe[j + 1]
        }));
    assert(ne[last].1.shape().spec_contains(p));
    assert forall|j: int| 0 <= j < last implies !(#[trigger] ne[j]).1.shape().spec_contains(
        p,
    ) by {
        if j < i {
            assert(ne[j] == oe[j]);
            assert(!(oe[j].1.shape().spec_contains(p) && oe[i].1.shape().spec_contains(p)));
        } else {
            assert(ne[j] == oe[j + 1]);
            assert(!(oe[i].1.shape().spec_contains(p) && oe[j + 1].1.shape().spec_contains(p)));
        }
    }
    assert(is_first_hit(ne, p, last));
    assert(some_hit(ne, p));
    assert(forall|h: int| is_first_hit(ne, p, h) ==> h == last);
    match outcome {
        Ok(c) => {
            assert(c == color);
        },
        Err(e) => {
            assert(ne[last].1 matches BlockV::Group { .. });
            assert(false);
        },
    }
}

/// Law: recoloring a block twice with the same color yields the same canvas
/// as recoloring once, on a canvas with unique identifiers; the second
/// recolor succeeds exactly when the first did.
pub proof fn lemma_recolor_idempotent(
    oe: Entries,
    id: Seq<char>,
    color: Color,
    e1: Entries,
    r1: Result<(), EditError>,
    e2: Entries,
    r2: Result<(), EditError>,
)
    requires
        forall|i: int, j: int| 0 <= i < j < oe.len() ==> (#[trigger] oe[i]).0 != (
        #[trigger] oe[j]).0,
        recolor_result(oe, id, color, e1, r1),
        recolor_result(e1, id, color, e2, r2),
    ensures
        e2 == e1,
        r1 is Ok <==> r2 is Ok,
{
    if r1 is Ok {
        lemma_first_key_exists(oe, id);
        let i = choose|i: int| is_first_key(oe, id, i);
        assert(e1 == oe.remove(i).push((id, BlockV::Leaf { shape: oe[i].1.shape(), color })));
        let last = e1.len() - 1;
        assert(forall|j: int|
            0 <= j < oe.remove(i).len() ==> #[trigger] oe.remove(i)[j] == (if j < i {
                oe[j]
            } else {
                oe[j + 1]
            }));
        assert(e1[last].0 == id);
        assert(has_key(e1, id));
        assert forall|j: int| 0 <= j < last implies (#[trigger] e1[j]).0 != id by {
            if j < i {
                assert(e1[j] == oe[j]);
            } else {
                assert(e1[j] == oe[j + 1]);
            }
        }
        assert(is_first_key(e1, id, last));
        assert(r2 is Ok);
        assert(forall|h: int| is_first_key(e1, id, h) ==> h == last);
        assert(e2 == e1.remove(last).push((id, BlockV::Leaf { shape: e1[last].1.shape(), color })));
        assert(e1.remove(last) =~= oe.remove(i));
        assert(e2 =~= e1);
    } else {
        assert(!has_key(oe, id));
        assert(e1 == oe);
        assert(r2 is Err);
        assert(e2 == e1);
    }
}

/// The rounded division of a nonnegative numerator by a positive denominator
/// lies between zero and the numerator.
pub proof fn lemma_rounded_div_bounds(n: int, d: int)
    requires
        0 <= n,
        1 <= d,
    ensures
        0 <= rounded_div(n, d) <= n,
{
    let q = rounded_div(n, d);
    vstd::arithmetic::div_mod::lemma_fundamental_div_mod(2 * n + d, 2 * d);
    vstd::arithmetic::div_mod::lemma_mod_division_less_than_divisor(2 * n + d, 2 * d);
    let rem = (2 * n + d) % (2 * d);
    assert(0 <= q <= n) by (nonlinear_arith)
        requires
            2 * n + d == 2 * d * q + rem,
            0 <= rem < 2 * d,
            0 <= n,
            1 <= d,
    ;
}

/// Cost is a non-negative integer, and weakly decreases as the measured
/// block's area increases, for a fixed operation kind and canvas size. The
/// decrease is not strict in general: two areas close to each other can round
/// to the same cost.
pub proof fn lemma_cost_monotone_in_area(n: int, a1: int, a2: int)
    requires
        0 <= n,
        1 <= a1 <= a2,
    ensures
        0 <= rounded_div(n, a2) <= rounded_div(n, a1),
{
    lemma_rounded_div_bounds(n, a1);
    lemma_rounded_div_bounds(n, a2);
    let q1 = rounded_div(n, a1);
    let q2 = rounded_div(n, a2);
    vstd::arithmetic::div_mod::lemma_fundamental_div_mod(2 * n + a1, 2 * a1);
    vstd::arithmetic::div_mod::lemma_mod_division_less_than_divisor(2 * n + a1, 2 * a1);
    vstd::arithmetic::div_mod::lemma_fundamental_div_mod(2 * n + a2, 2 * a2);
    vstd::arithmetic::div_mod::lemma_mod_division_less_than_divisor(2 * n + a2, 2 * a2);
    let r1 = (2 * n + a1) % (2 * a1);
    let r2 = (2 * n + a2) % (2 * a2);
    assert(q2 <= q1) by (nonlinear_arith)
        requires
            2 * n + a1 == 2 * a1 * q1 + r1,
            0 <= r1 < 2 * a1,
            2 * n + a2 == 2 * a2 * q2 + r2,
            0 <= r2 < 2 * a2,
            0 <= n,
            1 <= a1 <= a2,
            0 <= q1,
            0 <= q2,
    ;
}

impl Block {
    /// An equal copy of the block.
    pub fn duplicate(&self) -> (b: Block)
        ensures
            b@ == self@,
    {
        self.update_shape(self.shape())
    }
}

impl Picture {
    /// An equal copy of the canvas: the evaluator replays every candidate
    /// log against its own copy of the starting canvas.
    pub fn duplicate(&self) -> (pic: Picture)
        ensures
            pic.entries() == self.entries(),
            pic.counter == self.counter,
            pic.width == self.width,
            pic.height == self.height,
            self.wf() ==> pic.wf(),
    {
        let mut blocks: Vec<(BlockId, Block)> = Vec::new();
        let mut k: usize = 0;
        while k < self.blocks.len()
            invariant
                k <= self.blocks@.len(),
                entries_of(blocks@) == self.entries().take(k as int),
            decreases self.blocks@.len() - k,
        {
            let id = self.blocks[k].0.clone();
            let b = self.blocks[k].1.duplicate();
            let pair = (id, b);
            let ghost gp = pair;
            let ghost pre = blocks@;
            blocks.push(pair);
            proof {
                assert(blocks@ == pre.push(gp));
                assert(pre.len() == k as int) by {
                    assert(entries_of(pre).len() == pre.len());
                }
                let mv = entries_of(blocks@);
                assert forall|j: int| 0 <= j < mv.len() implies mv[j] == self.entries().take(
                    k + 1,
                )[j] by {
                    if j < k {
                        assert(mv[j] == entries_of(pre)[j]);
                    } else {
                        assert(blocks@[j] == gp);
                        assert(mv[j] == (gp.0@, gp.1@));
                    }
                }
                assert(mv =~= self.entries().take(k + 1));
            }
            k = k + 1;
        }
        let pic = Picture { counter: self.counter, width: self.width, height: self.height, blocks };
        proof {
            assert(pic.entries() =~= self.entries());
        }
        pic
    }
}

/// Removing an entry keeps a canvas well-formed.
proof fn lemma_remove_keeps_wf(old_pic: Picture, new_pic: Picture, i: int)
    requires
        old_pic.wf(),
        0 <= i < old_pic.entries().len(),
        new_pic.width == old_pic.width,
        new_pic.height == old_pic.height,
        new_pic.entries() == old_pic.entries().remove(i),
    ensures
        new_pic.wf(),
{
    let oe = old_pic.entries();
    let ne = new_pic.entries();
    assert(forall|j: int|
        0 <= j < ne.len() ==> #[trigger] ne[j] == (if j < i {
            oe[j]
        } else {
            oe[j + 1]
        }));
}

/// Removing the entry at `i` and appending a well-formed block under the same
/// identifier keeps a canvas well-formed.
proof fn lemma_remove_push_wf(old_pic: Picture, new_pic: Picture, i: int, id: Seq<char>, b: BlockV)
    requires
        old_pic.wf(),
        is_first_key(old_pic.entries(), id, i),
        b.wf(old_pic.width as int, old_pic.height as int),
        new_pic.width == old_pic.width,
        new_pic.height == old_pic.height,
        new_pic.entries() == old_pic.entries().remove(i).push((id, b)),
    ensures
        new_pic.wf(),
{
    let oe = old_pic.entries();
    let ne = new_pic.entries();
    assert(forall|j: int|
        0 <= j < oe.remove(i).len() ==> #[trigger] oe.remove(i)[j] == (if j < i {
            oe[j]
        } else {
            oe[j + 1]
        }));
    assert(forall|p: int, q: int| 0 <= p < q < ne.len() ==> (#[trigger] ne[p]).0 != (
    #[trigger] ne[q]).0);
    assert(forall|p: int|
        0 <= p < ne.len() ==> (#[trigger] ne[p]).1.wf(new_pic.width as int, new_pic.height as int));
}

} // verus!
