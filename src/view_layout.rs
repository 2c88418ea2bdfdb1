use vstd::prelude::*;
use crate::geometry::{
    BlockRect, Rect, all_inside, pairwise_disjoint, total_area, disjoint, tiles,
    lemma_total_area_push,
};
use crate::layout::{grid_layout, share, share_value, has_index, has_block, indices_from, grid};
use crate::squarify::{treemap, squarified};
use crate::scan::{Item, ItemKind, ViewMode};

verus! {

/// Position of the first files-aggregate item from `i` on, or -1.
pub open spec fn first_aggregate(items: Seq<Item>, i: int) -> int
    decreases items.len() - i,
{
    if i < 0 || i >= items.len() {
        -1
    } else if items[i].kind == ItemKind::FilesAggregate {
        i
    } else {
        first_aggregate(items, i + 1)
    }
}

/// Height of the files strip: the files' share of the total (one line when
/// the total is zero), at least one line; all of `height` when there are no
/// other items, else leaving at least one line for them.
pub open spec fn files_strip_height(fsize: int, total: int, height: int, others: int) -> int {
    let h0 = if total == 0 { 1 } else { share_value(fsize, total, height) };
    let h1 = if h0 == 0 { 1 } else { h0 };
    if others == 0 {
        height
    } else if h1 >= height {
        height - 1
    } else {
        h1
    }
}

/// What `layout_view` lays out (see there).
pub open spec fn view_layout(
    items: Seq<Item>,
    sizes: Seq<(usize, u64)>,
    has_zero: bool,
    view: ViewMode,
    total: u64,
    area: Rect,
) -> Seq<BlockRect> {
    let n = sizes.len();
    if n == 0 || area.width == 0 || area.height == 0 {
        Seq::empty()
    } else if view == ViewMode::Files || has_zero {
        grid(sizes, area)
    } else {
        let fi = first_aggregate(items, 0);
        let blocks = if fi >= 0 && items[fi].count > 0 && area.height >= 2 {
            let top = sizes.remove(fi);
            let fh = files_strip_height(items[fi].size as int, total as int, area.height as int, top.len() as int);
            let top_h = area.height - fh;
            let top_area = Rect { x: area.x, y: area.y, width: area.width, height: top_h as u16 };
            let upper = if top_h > 0 { squarified(top, top_area) } else { Seq::empty() };
            upper.push(BlockRect { index: fi as usize, rect: Rect { x: area.x, y: (area.y + top_h) as u16, width: area.width, height: fh as u16 } })
        } else {
            squarified(sizes, area)
        };
        if blocks.len() < n { grid(sizes, area) } else { blocks }
    }
}

/// Position of the first files-aggregate item, if any.
pub fn files_aggregate_position(items: &Vec<Item>) -> (r: Option<usize>)
    ensures
        match r {
            Some(k) => k == first_aggregate(items@, 0),
            None => first_aggregate(items@, 0) == -1,
        },
        match r {
            Some(k) => k < items@.len() && items@[k as int].kind == ItemKind::FilesAggregate
                && forall|j: int| 0 <= j < k ==> (#[trigger] items@[j]).kind != ItemKind::FilesAggregate,
            None => forall|j: int| 0 <= j < items@.len() ==> (#[trigger] items@[j]).kind != ItemKind::FilesAggregate,
        },
{
    let mut i: usize = 0;
    while i < items.len()
        invariant
            i <= items@.len(),
            forall|j: int| 0 <= j < i ==> (#[trigger] items@[j]).kind != ItemKind::FilesAggregate,
            first_aggregate(items@, 0) == first_aggregate(items@, i as int),
        decreases items@.len() - i,
    {
        if items[i].kind == ItemKind::FilesAggregate {
            return Some(i);
        }
        i = i + 1;
    }
    None
}

/// The entries of `sizes` other than the one of index `skip`.
fn without_index(sizes: &Vec<(usize, u64)>, skip: usize) -> (out: Vec<(usize, u64)>)
    requires
        skip < sizes@.len(),
        forall|k: int| 0 <= k < sizes@.len() ==> (#[trigger] sizes@[k]).0 == k,
    ensures
        forall|k: int| 0 <= k < out@.len() ==> has_index(sizes@, #[trigger] out@[k].0),
        forall|p: int| 0 <= p < sizes@.len() && p != skip ==> #[trigger] has_index(out@, sizes@[p].0),
        out@.len() == sizes@.len() - 1,
        out@ == sizes@.remove(skip as int),
{
    let mut out: Vec<(usize, u64)> = Vec::new();
    let mut i: usize = 0;
    while i < sizes.len()
        invariant
            skip < sizes@.len(),
            i <= sizes@.len(),
            forall|k: int| 0 <= k < sizes@.len() ==> (#[trigger] sizes@[k]).0 == k,
            forall|k: int| 0 <= k < out@.len() ==> has_index(sizes@, #[trigger] out@[k].0),
            out@.len() == (if i > skip { i - 1 } else { i as int }),
            forall|p: int| 0 <= p < i && p != skip ==> #[trigger] has_index(out@, sizes@[p].0),
            out@ == (if i > skip {
                sizes@.subrange(0, skip as int) + sizes@.subrange(skip + 1, i as int)
            } else {
                sizes@.subrange(0, i as int)
            }),
        decreases sizes@.len() - i,
    {
        assert(sizes@[i as int].0 == i);
        if sizes[i].0 != skip {
            let ghost prev = out@;
            out.push(sizes[i]);
            proof {
                assert forall|k: int| 0 <= k < out@.len() implies has_index(sizes@, #[trigger] out@[k].0) by {
                    if k < prev.len() {
                        assert(out@[k] == prev[k]);
                    } else {
                        assert(out@[k] == sizes@[i as int]);
                    }
                }
                assert forall|p: int| 0 <= p < i + 1 && p != skip implies #[trigger] has_index(out@, sizes@[p].0) by {
                    if p < i {
                        assert(has_index(prev, sizes@[p].0));
                        let k = choose|k: int| 0 <= k < prev.len() && prev[k].0 == sizes@[p].0;
                        assert(out@[k] == prev[k]);
                    } else {
                        assert(out@[prev.len() as int] == sizes@[i as int]);
                    }
                }
            }
        }
        assert(out@ =~= (if i + 1 > skip {
            sizes@.subrange(0, skip as int) + sizes@.subrange(skip + 1, i + 1)
        } else {
            sizes@.subrange(0, i + 1)
        }));
        i = i + 1;
    }
    assert(out@ =~= sizes@.remove(skip as int));
    out
}

/// The layout of the current view in `area`, given the items, their layout
/// weights (`sizes`, one entry per item, indexed by position), whether a
/// directory has size zero, the view mode and the total size.
///
/// The grid is used for the file listing and whenever a directory has size
/// zero. Otherwise, when there is a files-aggregate item standing for at
/// least one file, it gets a full-width strip along the bottom, as high as
/// its share of the total (at least one line, leaving at least one line when
/// there are other items, all of it when there are none), and the other
/// items share the rest as a squarified treemap; else the whole area is one
/// treemap. Should the
/// treemap leave an item out, the grid is used instead.
///
/// For a non-empty list in a non-empty area the blocks, one per item, cover
/// the area exactly.
pub fn layout_view(
    items: &Vec<Item>,
    sizes: &Vec<(usize, u64)>,
    has_zero: bool,
    view: ViewMode,
    total: u64,
    area: Rect,
) -> (out: Vec<BlockRect>)
    requires
        area.wf(),
        sizes@.len() == items@.len(),
        forall|k: int| 0 <= k < sizes@.len() ==> (#[trigger] sizes@[k]).0 == k,
    ensures
        out@ == view_layout(items@, sizes@, has_zero, view, total, area),
        sizes@.len() > 0 && area.width > 0 && area.height > 0 ==> {
            &&& out@.len() == sizes@.len()
            &&& tiles(out@, area)
            &&& indices_from(out@, sizes@)
            &&& forall|p: int| 0 <= p < sizes@.len() ==> #[trigger] has_block(out@, sizes@[p].0)
        },
        sizes@.len() == 0 || area.width == 0 || area.height == 0 ==> out@.len() == 0,
{
    let n = sizes.len();
    if n == 0 || area.width == 0 || area.height == 0 {
        return Vec::new();
    }
    if view == ViewMode::Files || has_zero {
        return grid_layout(sizes.as_slice(), area);
    }
    let blocks = match files_aggregate_position(items) {
        Some(fi) if items[fi].count > 0 && area.height >= 2 => {
            let fsize = items[fi].size;
            let mut files_h: u16 = if total == 0 {
                1
            } else {
                share(fsize as u128, total as u128, area.height)
            };
            if files_h == 0 {
                files_h = 1;
            }
            let top = without_index(sizes, fi);
            if top.len() == 0 {
                files_h = area.height;
            } else if files_h >= area.height {
                files_h = area.height - 1;
            }
            let top_h = area.height - files_h;
            let top_area = Rect { x: area.x, y: area.y, width: area.width, height: top_h };
            let mut blocks = if top_h > 0 {
                treemap(top.as_slice(), top_area)
            } else {
                Vec::new()
            };
            let files_rect = Rect { x: area.x, y: area.y + top_h, width: area.width, height: files_h };
            let b = BlockRect { index: fi, rect: files_rect };
            proof {
                if top_h == 0 {
                    assert(top@.len() == 0);
                }
                lemma_total_area_push(blocks@, b);
                assert(area.width * top_h + area.width * files_h == area.width * area.height)
                    by (nonlinear_arith)
                    requires
                        top_h + files_h == area.height,
                ;
                assert(top_area.area() == area.width * top_h);
                assert(files_rect.area() == area.width * files_h);
                assert forall|i: int, j: int|
                    0 <= i < j < blocks@.len() + 1 implies #[trigger] disjoint(blocks@.push(b)[i].rect, blocks@.push(b)[j].rect) by {
                    assert(blocks@.push(b)[i] == blocks@[i]);
                    if j < blocks@.len() {
                        assert(blocks@.push(b)[j] == blocks@[j]);
                    } else {
                        assert(top_area.contains_rect(blocks@[i].rect));
                    }
                }
                assert forall|i: int| 0 <= i < blocks@.len() + 1 implies area.contains_rect(#[trigger] blocks@.push(b)[i].rect) by {
                    if i < blocks@.len() {
                        assert(blocks@.push(b)[i] == blocks@[i]);
                        assert(top_area.contains_rect(blocks@[i].rect));
                    }
                }
                assert forall|k: int| 0 <= k < blocks@.len() + 1 implies has_index(sizes@, #[trigger] blocks@.push(b)[k].index) by {
                    if k < blocks@.len() {
                        assert(blocks@.push(b)[k] == blocks@[k]);
                        assert(has_index(top@, blocks@[k].index));
                        let p = choose|p: int| 0 <= p < top@.len() && top@[p].0 == blocks@[k].index;
                        assert(has_index(sizes@, top@[p].0));
                    } else {
                        assert(sizes@[fi as int].0 == fi);
                    }
                }
            }
            let ghost top_blocks = blocks@;
            blocks.push(b);
            proof {
                assert forall|p: int| 0 <= p < sizes@.len() implies #[trigger] has_block(blocks@, sizes@[p].0) by {
                    assert(sizes@[p].0 == p);
                    if p == fi {
                        assert(blocks@[top_blocks.len() as int].index == fi);
                    } else {
                        assert(has_index(top@, sizes@[p].0));
                        let j = choose|j: int| 0 <= j < top@.len() && top@[j].0 == sizes@[p].0;
                        assert(has_block(top_blocks, top@[j].0));
                        let k = choose|k: int| 0 <= k < top_blocks.len() && top_blocks[k].index == top@[j].0;
                        assert(blocks@[k] == top_blocks[k]);
                    }
                }
            }
            assert(tiles(blocks@, area));
            blocks
        },
        _ => treemap(sizes.as_slice(), area),
    };
    if blocks.len() < n {
        return grid_layout(sizes.as_slice(), area);
    }
    blocks
}

} // verus!
