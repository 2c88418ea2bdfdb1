use disktree::geometry::{BlockRect, Rect};
use disktree::layout::{grid_layout, grid_row_count, rank_order, share};
use disktree::squarify::{treemap, worst_ratio_le};
use disktree::scan::{Item, ItemKind, ViewMode};
use disktree::view_layout::layout_view;

fn area_of(r: &Rect) -> u64 {
    r.width as u64 * r.height as u64
}

fn overlaps(a: &Rect, b: &Rect) -> bool {
    a.width > 0
        && a.height > 0
        && b.width > 0
        && b.height > 0
        && a.x < b.x + b.width
        && b.x < a.x + a.width
        && a.y < b.y + b.height
        && b.y < a.y + a.height
}

fn assert_tiles(blocks: &[BlockRect], area: Rect) {
    let mut sum = 0u64;
    for (i, a) in blocks.iter().enumerate() {
        assert!(a.rect.x >= area.x && a.rect.x + a.rect.width <= area.x + area.width);
        assert!(a.rect.y >= area.y && a.rect.y + a.rect.height <= area.y + area.height);
        sum += area_of(&a.rect);
        for b in blocks.iter().skip(i + 1) {
            assert!(!overlaps(&a.rect, &b.rect), "{:?} overlaps {:?}", a, b);
        }
    }
    assert_eq!(sum, area_of(&area));
}

fn rect(x: u16, y: u16, width: u16, height: u16) -> Rect {
    Rect { x, y, width, height }
}

#[test]
fn treemap_tiles_positive_weights() {
    let sizes = vec![(0, 500), (1, 300), (2, 120), (3, 60), (4, 15), (5, 5)];
    let area = rect(3, 2, 40, 12);
    let blocks = treemap(&sizes, area);
    assert_eq!(blocks.len(), sizes.len());
    assert_tiles(&blocks, area);
    let mut idx: Vec<usize> = blocks.iter().map(|b| b.index).collect();
    idx.sort();
    assert_eq!(idx, vec![0, 1, 2, 3, 4, 5]);
}

#[test]
fn treemap_all_zero_sizes_still_tile() {
    let sizes = vec![(7, 0), (8, 0), (9, 0)];
    let area = rect(0, 0, 9, 3);
    let blocks = treemap(&sizes, area);
    assert_eq!(blocks.len(), 3);
    assert_tiles(&blocks, area);
}

#[test]
fn treemap_empty_inputs() {
    assert!(treemap(&[], rect(0, 0, 10, 10)).is_empty());
    assert!(treemap(&[(0, 5)], rect(0, 0, 0, 10)).is_empty());
    assert!(treemap(&[(0, 5)], rect(0, 0, 10, 0)).is_empty());
}

#[test]
fn treemap_single_item_fills_area() {
    let blocks = treemap(&[(4, 99)], rect(1, 1, 7, 5));
    assert_eq!(blocks, vec![BlockRect { index: 4, rect: rect(1, 1, 7, 5) }]);
}

#[test]
fn treemap_is_deterministic() {
    let sizes = vec![(0, 10), (1, 10), (2, 30), (3, 7), (4, 10)];
    let area = rect(0, 0, 25, 9);
    let a = treemap(&sizes, area);
    let b = treemap(&sizes, area);
    assert_eq!(a, b);
}

#[test]
fn treemap_larger_item_gets_more_area() {
    let sizes = vec![(0, 10 * 1024), (1, 20 * 1024), (2, 30 * 1024), (3, 5 * 1024)];
    let area = rect(0, 0, 10, 4);
    let blocks = treemap(&sizes, area);
    assert_eq!(blocks.len(), 4);
    assert_tiles(&blocks, area);
    let get = |i: usize| area_of(&blocks.iter().find(|b| b.index == i).unwrap().rect);
    assert!(get(2) > get(0));
}

#[test]
fn scenario_four_items_in_ten_by_four() {
    let items = vec![
        Item { name: "c".to_string(), path: "/r/c".to_string(), size: 30 * 1024, kind: ItemKind::Dir, count: 0 },
        Item { name: "b".to_string(), path: "/r/b".to_string(), size: 20 * 1024, kind: ItemKind::Dir, count: 0 },
        Item { name: "a".to_string(), path: "/r/a".to_string(), size: 10 * 1024, kind: ItemKind::Dir, count: 0 },
        Item {
            name: "(Files: 3)".to_string(),
            path: "/r".to_string(),
            size: 5 * 1024,
            kind: ItemKind::FilesAggregate,
            count: 3,
        },
    ];
    let sizes: Vec<(usize, u64)> = items.iter().enumerate().map(|(i, it)| (i, it.size)).collect();
    let total: u64 = items.iter().map(|i| i.size).sum();
    let area = rect(0, 0, 10, 4);
    let blocks = layout_view(&items, &sizes, false, ViewMode::Dirs, total, area);
    assert_eq!(blocks.len(), 4);
    assert_tiles(&blocks, area);
    let get = |i: usize| area_of(&blocks.iter().find(|b| b.index == i).unwrap().rect);
    assert!(get(0) > get(2));
    let files = blocks.iter().find(|b| b.index == 3).unwrap();
    assert_eq!(files.rect, rect(0, 3, 10, 1));
}

#[test]
fn layout_view_uses_grid_for_zero_size_dir() {
    let items = vec![
        Item { name: "a".to_string(), path: "/a".to_string(), size: 0, kind: ItemKind::Dir, count: 0 },
        Item { name: "b".to_string(), path: "/b".to_string(), size: 9, kind: ItemKind::Dir, count: 0 },
    ];
    let sizes = vec![(0, 0), (1, 9)];
    let area = rect(0, 0, 8, 4);
    let a = layout_view(&items, &sizes, true, ViewMode::Dirs, 9, area);
    assert_eq!(a, grid_layout(&sizes, area));
    assert_tiles(&a, area);
}

#[test]
fn layout_view_lone_files_item_fills_area() {
    let items = vec![Item {
        name: "(Files: 2)".to_string(),
        path: "/x".to_string(),
        size: 0,
        kind: ItemKind::FilesAggregate,
        count: 2,
    }];
    let area = rect(0, 0, 6, 5);
    let blocks = layout_view(&items, &vec![(0, 0)], false, ViewMode::Dirs, 0, area);
    assert_eq!(blocks, vec![BlockRect { index: 0, rect: area }]);
}

#[test]
fn grid_tiles_with_n_entries() {
    let sizes: Vec<(usize, u64)> = (0..7).map(|i| (i, (i as u64 + 1) * 10)).collect();
    let area = rect(2, 1, 20, 6);
    let blocks = grid_layout(&sizes, area);
    assert_eq!(blocks.len(), 7);
    assert_tiles(&blocks, area);
    for b in &blocks {
        assert!(b.rect.width >= 1 && b.rect.height >= 1);
    }
}

#[test]
fn grid_round_robin_rows() {
    // 5 items -> 3 rows; ranks 0,3 | 1,4 | 2
    let sizes = vec![(0, 50), (1, 40), (2, 30), (3, 20), (4, 10)];
    let area = rect(0, 0, 12, 9);
    let blocks = grid_layout(&sizes, area);
    let rows: Vec<u16> = [0usize, 3, 1, 4, 2]
        .iter()
        .map(|i| blocks.iter().find(|b| b.index == *i).unwrap().rect.y)
        .collect();
    assert_eq!(rows[0], rows[1]);
    assert_eq!(rows[2], rows[3]);
    assert!(rows[0] < rows[2] && rows[2] < rows[4]);
    assert_tiles(&blocks, area);
}

#[test]
fn grid_rows_capped_by_height() {
    let sizes: Vec<(usize, u64)> = (0..9).map(|i| (i, 1)).collect();
    let area = rect(0, 0, 30, 2);
    let blocks = grid_layout(&sizes, area);
    assert_eq!(blocks.len(), 9);
    assert_tiles(&blocks, area);
    assert_eq!(grid_row_count(9, 2), 2);
}

#[test]
fn grid_row_counts() {
    assert_eq!(grid_row_count(1, 10), 1);
    assert_eq!(grid_row_count(4, 10), 2);
    assert_eq!(grid_row_count(5, 10), 3);
    assert_eq!(grid_row_count(10, 10), 4);
    assert_eq!(grid_row_count(100, 3), 3);
}

#[test]
fn rank_order_heaviest_first_ties_by_position() {
    let sizes = vec![(0, 5), (1, 9), (2, 5), (3, 0), (4, 1)];
    assert_eq!(rank_order(&sizes), vec![1, 0, 2, 3, 4]);
}

#[test]
fn share_rounds_to_nearest() {
    assert_eq!(share(1, 3, 10), 3);
    assert_eq!(share(1, 2, 5), 3);
    assert_eq!(share(2, 3, 10), 7);
    assert_eq!(share(5, 5, 8), 8);
    assert_eq!(share(9, 5, 8), 8);
    assert_eq!(share(0, 5, 8), 0);
}

#[test]
fn worst_ratio_comparisons() {
    // a single square item of area 16 on side 4 has ratio 1
    assert!(worst_ratio_le((16, 16, 16), (16, 16, 16), 4));
    // row (16) vs row (16, 1): the small item makes it worse
    assert!(!worst_ratio_le((1, 16, 17), (16, 16, 16), 4));
    // an empty row is infinitely bad
    assert!(worst_ratio_le((1, 16, 17), (0, 0, 0), 4));
    assert!(!worst_ratio_le((0, 16, 16), (16, 16, 16), 4));
}

#[test]
fn worst_ratio_grows_with_huge_item() {
    let (mn, mx, sm, l) = (2u64, 5u64, 9u64, 3u64);
    let v = l * l * mx * 4;
    assert!(worst_ratio_le((mn, mx, sm), (mn, v, sm + v), l as u16));
}

#[test]
fn treemap_zero_size_like_one() {
    let area = rect(0, 0, 12, 5);
    let a = treemap(&[(0, 40), (1, 0), (2, 9), (3, 0)], area);
    let b = treemap(&[(0, 40), (1, 1), (2, 9), (3, 1)], area);
    assert_eq!(a, b);
}

#[test]
fn treemap_ignores_input_order_for_distinct_weights() {
    let area = rect(1, 2, 17, 6);
    let a = treemap(&[(0, 70), (1, 5), (2, 30), (3, 12)], area);
    let b = treemap(&[(2, 30), (0, 70), (3, 12), (1, 5)], area);
    assert_eq!(a, b);
}

#[test]
fn treemap_ten_by_four_rows() {
    let blocks = treemap(&[(0, 30720), (1, 20480), (2, 10240), (3, 5120)], rect(0, 0, 10, 4));
    assert_eq!(blocks[0], BlockRect { index: 0, rect: rect(0, 0, 10, 2) });
    assert_eq!(blocks[1], BlockRect { index: 1, rect: rect(0, 2, 10, 1) });
    assert_eq!(blocks[2], BlockRect { index: 2, rect: rect(0, 3, 10, 1) });
    assert_eq!(blocks[3], BlockRect { index: 3, rect: rect(0, 4, 10, 0) });
}

#[test]
fn grid_bands_are_full_width() {
    let sizes: Vec<(usize, u64)> = (0..5).map(|i| (i, 100 - i as u64)).collect();
    let area = rect(0, 0, 10, 6);
    let blocks = grid_layout(&sizes, area);
    for y in [0u16, 2, 4] {
        let w: u16 = blocks.iter().filter(|b| b.rect.y == y).map(|b| b.rect.width).sum();
        assert!(w == 10 || w == 0);
    }
}
