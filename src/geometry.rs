use vstd::prelude::*;

verus! {

/// A cell-aligned rectangle of the terminal: `width` columns starting at
/// column `x`, `height` rows starting at row `y`.
#[derive(Clone, Copy, Debug, PartialEq, Eq, Structural)]
pub struct Rect {
    pub x: u16,
    pub y: u16,
    pub width: u16,
    pub height: u16,
}

/// One item of a layout: the caller's index of the item and the cells it gets.
#[derive(Clone, Copy, Debug, PartialEq, Eq, Structural)]
pub struct BlockRect {
    pub index: usize,
    pub rect: Rect,
}

impl Rect {
    /// Its right and bottom edges stay addressable as `u16` coordinates.
    pub open spec fn wf(self) -> bool {
        self.x + self.width <= u16::MAX && self.y + self.height <= u16::MAX
    }

    /// Number of cells covered.
    pub open spec fn area(self) -> int {
        self.width * self.height
    }

    /// `r` lies inside this rectangle.
    pub open spec fn contains_rect(self, r: Rect) -> bool {
        self.x <= r.x && r.x + r.width <= self.x + self.width && self.y <= r.y && r.y
            + r.height <= self.y + self.height
    }

    /// The same rectangle with rows and columns exchanged.
    pub open spec fn flip(self) -> Rect {
        Rect { x: self.y, y: self.x, width: self.height, height: self.width }
    }
}

/// The open rectangles do not overlap: one lies wholly to the left of,
/// right of, above or below the other (an empty rectangle may touch another
/// only along its edge).
pub open spec fn disjoint(a: Rect, b: Rect) -> bool {
    a.x + a.width <= b.x || b.x + b.width <= a.x || a.y + a.height <= b.y || b.y + b.height <= a.y
}

/// No two of the blocks share a cell.
pub open spec fn pairwise_disjoint(bs: Seq<BlockRect>) -> bool {
    forall|i: int, j: int|
        0 <= i < j < bs.len() ==> #[trigger] disjoint(bs[i].rect, bs[j].rect)
}

/// Every block lies inside `area`.
pub open spec fn all_inside(bs: Seq<BlockRect>, area: Rect) -> bool {
    forall|i: int| 0 <= i < bs.len() ==> area.contains_rect(#[trigger] bs[i].rect)
}

/// No block shares a cell with `r`.
pub open spec fn all_disjoint_from(bs: Seq<BlockRect>, r: Rect) -> bool {
    forall|i: int| 0 <= i < bs.len() ==> disjoint(#[trigger] bs[i].rect, r)
}

/// Sum of the areas of the blocks.
pub open spec fn total_area(bs: Seq<BlockRect>) -> int
    decreases bs.len(),
{
    if bs.len() == 0 {
        0
    } else {
        total_area(bs.drop_last()) + bs.last().rect.area()
    }
}

/// The blocks cover `area` exactly: every block lies inside it, no two share
/// a cell, and their areas add up to the area of `area` (so no cell is left
/// uncovered).
pub open spec fn tiles(bs: Seq<BlockRect>, area: Rect) -> bool {
    all_inside(bs, area) && pairwise_disjoint(bs) && total_area(bs) == area.area()
}

/// The block with rows and columns exchanged.
pub open spec fn flip_block(b: BlockRect) -> BlockRect {
    BlockRect { index: b.index, rect: b.rect.flip() }
}

/// Pushing a block adds its area.
pub proof fn lemma_total_area_push(bs: Seq<BlockRect>, b: BlockRect)
    ensures
        total_area(bs.push(b)) == total_area(bs) + b.rect.area(),
{
    assert(bs.push(b).drop_last() =~= bs);
}

/// The area of two block lists put together is the sum of their areas.
pub proof fn lemma_total_area_concat(a: Seq<BlockRect>, b: Seq<BlockRect>)
    ensures
        total_area(a + b) == total_area(a) + total_area(b),
    decreases b.len(),
{
    if b.len() == 0 {
        assert(a + b =~= a);
    } else {
        lemma_total_area_concat(a, b.drop_last());
        assert((a + b).drop_last() =~= a + b.drop_last());
    }
}

/// Exchanging rows and columns keeps the total area.
pub proof fn lemma_total_area_flip(bs: Seq<BlockRect>)
    ensures
        total_area(bs.map_values(|b: BlockRect| flip_block(b))) == total_area(bs),
    decreases bs.len(),
{
    if bs.len() > 0 {
        lemma_total_area_flip(bs.drop_last());
        assert(bs.map_values(|b: BlockRect| flip_block(b)).drop_last() =~= bs.drop_last().map_values(
            |b: BlockRect| flip_block(b),
        ));
        let r = bs.last().rect;
        assert(r.flip().area() == r.area()) by (nonlinear_arith)
            requires
                r.flip().width == r.height,
                r.flip().height == r.width,
        ;
    }
}

/// A block inside `r` shares no cell with a block that shares none with `r`.
pub proof fn lemma_disjoint_inside(a: Rect, r: Rect, b: Rect)
    requires
        disjoint(a, r),
        r.contains_rect(b),
    ensures
        disjoint(a, b),
{
}

/// Copy a rectangle with rows and columns exchanged.
pub fn flip_rect(r: Rect) -> (out: Rect)
    ensures
        out == r.flip(),
{
    Rect { x: r.y, y: r.x, width: r.height, height: r.width }
}

} // verus!
