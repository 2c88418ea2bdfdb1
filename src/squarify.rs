use vstd::prelude::*;
use vstd::arithmetic::div_mod::{
    lemma_div_is_ordered, lemma_div_by_multiple, lemma_fundamental_div_mod_converse,
};
use vstd::arithmetic::mul::lemma_mul_inequality;
use crate::geometry::{
    BlockRect, Rect, all_inside, pairwise_disjoint, all_disjoint_from, total_area, disjoint, tiles,
    flip_block, flip_rect, lemma_total_area_push, lemma_total_area_flip, lemma_total_area_concat,
    lemma_disjoint_inside,
};
use crate::layout::{
    weight, weight_of, is_rank_order, rank_order, indices_from, has_index, has_block, lists_position,
    lemma_rank_order_covers, lemma_rank_order_unique, comes_before,
};

verus! {

/// Largest number of cells a rectangle can have.
pub const MAX_CELLS: u64 = 4294836225;

/// A cumulative weight below this is scaled exactly.
pub const SCALE_EXACT_LIMIT: u128 = 79228162514264337593543950336;

pub const SCALE_COARSE_UNIT: u128 = 4294967296;

/// Cells owed to the first items whose weights add up to `c`, out of `a`
/// cells for a total weight `t` (rounded down; for very large totals the low
/// 32 bits of `c` and `t` are dropped first).
pub open spec fn scaled(c: int, t: int, a: int) -> int {
    if t < SCALE_EXACT_LIMIT {
        c * a / t
    } else {
        (c / SCALE_COARSE_UNIT as int) * a / (t / SCALE_COARSE_UNIT as int)
    }
}

/// Sum of the first `k` area values of `s`.
pub open spec fn area_prefix(s: Seq<(usize, u64)>, k: int) -> int
    decreases k,
{
    if k <= 0 {
        0
    } else {
        area_prefix(s, k - 1) + s[k - 1].1
    }
}

/// Sum of the weights of the first `k` ranks of `order`.
pub open spec fn rank_weight_prefix(s: Seq<(usize, u64)>, order: Seq<usize>, k: int) -> int
    decreases k,
{
    if k <= 0 {
        0
    } else {
        rank_weight_prefix(s, order, k - 1) + weight(s[order[k - 1] as int].1)
    }
}

/// Worst aspect ratio of a row with smallest item `mn`, largest `mx` and sum
/// `sm`, against side `l`, is infinite.
pub open spec fn worst_infinite(mn: int, sm: int, l: int) -> bool {
    mn <= 0 || sm <= 0 || l <= 0
}

/// The worst aspect ratio `max(l²·mx / sm², sm² / (l²·mn))` of row `a` does not
/// exceed that of row `b` (rows given as `(min, max, sum)`).
pub open spec fn worst_le(a: (int, int, int), b: (int, int, int), l: int) -> bool {
    if worst_infinite(b.0, b.2, l) {
        true
    } else if worst_infinite(a.0, a.2, l) {
        false
    } else {
        let an1 = l * l * a.1;
        let ad1 = a.2 * a.2;
        let an2 = a.2 * a.2;
        let ad2 = l * l * a.0;
        let bn1 = l * l * b.1;
        let bd1 = b.2 * b.2;
        let bn2 = b.2 * b.2;
        let bd2 = l * l * b.0;
        (an1 * bd1 <= bn1 * ad1 || an1 * bd2 <= bn2 * ad1) && (an2 * bd1 <= bn1 * ad2 || an2 * bd2 <= bn2 * ad2)
    }
}

/// Compares the worst aspect ratios of two rows, given as `(min, max, sum)`
/// of their areas, against the side `short`: true when row `a` is no worse
/// than row `b`.
pub fn worst_ratio_le(a: (u64, u64, u64), b: (u64, u64, u64), short: u16) -> (r: bool)
    requires
        a.1 <= MAX_CELLS,
        a.2 <= MAX_CELLS,
        a.0 <= MAX_CELLS,
        b.1 <= MAX_CELLS,
        b.2 <= MAX_CELLS,
        b.0 <= MAX_CELLS,
    ensures
        r == worst_le((a.0 as int, a.1 as int, a.2 as int), (b.0 as int, b.1 as int, b.2 as int), short as int),
{
    if b.0 == 0 || b.2 == 0 || short == 0 {
        return true;
    }
    if a.0 == 0 || a.2 == 0 {
        return false;
    }
    let l = short as u128;
    assert(l * l <= 4294836225) by (nonlinear_arith)
        requires
            l <= 65535,
    ;
    let l2 = l * l;
    let (amin, amax, asum) = (a.0 as u128, a.1 as u128, a.2 as u128);
    let (bmin, bmax, bsum) = (b.0 as u128, b.1 as u128, b.2 as u128);
    assert(l2 * amax <= 0xFFFF_FFFF_FFFF_FFFF && asum * asum <= 0xFFFF_FFFF_FFFF_FFFF && l2 * amin
        <= 0xFFFF_FFFF_FFFF_FFFF && l2 * bmax <= 0xFFFF_FFFF_FFFF_FFFF && bsum * bsum
        <= 0xFFFF_FFFF_FFFF_FFFF && l2 * bmin <= 0xFFFF_FFFF_FFFF_FFFF) by (nonlinear_arith)
        requires
            l2 <= 4294836225,
            amax <= 4294836225,
            asum <= 4294836225,
            amin <= 4294836225,
            bmax <= 4294836225,
            bsum <= 4294836225,
            bmin <= 4294836225,
    ;
    let an1 = l2 * amax;
    let ad1 = asum * asum;
    let an2 = asum * asum;
    let ad2 = l2 * amin;
    let bn1 = l2 * bmax;
    let bd1 = bsum * bsum;
    let bn2 = bsum * bsum;
    let bd2 = l2 * bmin;
    assert(an1 * bd1 <= 0xFFFF_FFFF_FFFF_FFFE_0000_0000_0000_0001 && bn1 * ad1 <= 0xFFFF_FFFF_FFFF_FFFE_0000_0000_0000_0001
        && an1 * bd2 <= 0xFFFF_FFFF_FFFF_FFFE_0000_0000_0000_0001 && bn2 * ad1 <= 0xFFFF_FFFF_FFFF_FFFE_0000_0000_0000_0001
        && an2 * bd1 <= 0xFFFF_FFFF_FFFF_FFFE_0000_0000_0000_0001 && bn1 * ad2 <= 0xFFFF_FFFF_FFFF_FFFE_0000_0000_0000_0001
        && an2 * bd2 <= 0xFFFF_FFFF_FFFF_FFFE_0000_0000_0000_0001 && bn2 * ad2 <= 0xFFFF_FFFF_FFFF_FFFE_0000_0000_0000_0001)
        by (nonlinear_arith)
        requires
            an1 <= 0xFFFF_FFFF_FFFF_FFFF,
            an2 <= 0xFFFF_FFFF_FFFF_FFFF,
            bn1 <= 0xFFFF_FFFF_FFFF_FFFF,
            bn2 <= 0xFFFF_FFFF_FFFF_FFFF,
            ad1 <= 0xFFFF_FFFF_FFFF_FFFF,
            ad2 <= 0xFFFF_FFFF_FFFF_FFFF,
            bd1 <= 0xFFFF_FFFF_FFFF_FFFF,
            bd2 <= 0xFFFF_FFFF_FFFF_FFFF,
            0 <= an1, 0 <= an2, 0 <= bn1, 0 <= bn2, 0 <= ad1, 0 <= ad2, 0 <= bd1, 0 <= bd2,
    ;
    (an1 * bd1 <= bn1 * ad1 || an1 * bd2 <= bn2 * ad1) && (an2 * bd1 <= bn1 * ad2 || an2 * bd2 <= bn2 * ad2)
}

/// Adding to a row an item at least `l²` times as large as the row's largest
/// never lowers the row's worst aspect ratio.
pub proof fn lemma_worst_ratio_grows(mn: int, mx: int, sm: int, v: int, l: int)
    requires
        1 <= mn <= mx <= sm,
        1 <= l,
        v >= l * l * mx,
    ensures
        worst_le((mn, mx, sm), (if v < mn { v } else { mn }, if v > mx { v } else { mx }, sm + v), l),
{
    assert(l * l >= 1) by (nonlinear_arith)
        requires
            l >= 1,
    ;
    assert(v >= mx) by (nonlinear_arith)
        requires
            v >= l * l * mx,
            l * l >= 1,
            mx >= 1,
    ;
    let nmn = mn;
    let nmx = v;
    let nsm = sm + v;
    assert((sm * sm) * (l * l * nmn) <= (nsm * nsm) * (l * l * mn)) by (nonlinear_arith)
        requires
            nmn == mn,
            nsm == sm + v,
            v >= 1,
            sm >= 1,
            mn >= 1,
            l >= 1,
    ;
    assert((l * l * mx) * (l * l * nmn) <= (nsm * nsm) * (sm * sm)) by (nonlinear_arith)
        requires
            nmn == mn,
            nsm == sm + v,
            v >= l * l * mx,
            mx >= mn,
            sm >= 1,
            mn >= 1,
            l >= 1,
            mx >= 1,
    ;
}

proof fn lemma_scaled_facts(c1: int, c2: int, t: int, a: int)
    requires
        0 <= c1 <= c2 <= t,
        0 < t,
        0 <= a,
    ensures
        0 <= scaled(c1, t, a) <= scaled(c2, t, a) <= a,
        scaled(t, t, a) == a,
{
    let u = SCALE_COARSE_UNIT as int;
    let (d1, d2, dt) = if t < SCALE_EXACT_LIMIT {
        (c1, c2, t)
    } else {
        lemma_div_is_ordered(c1, c2, u);
        lemma_div_is_ordered(c2, t, u);
        lemma_div_is_ordered(u, t, u);
        (c1 / u, c2 / u, t / u)
    };
    assert(0 <= d1 <= d2 <= dt && dt > 0);
    lemma_mul_inequality(d1, d2, a);
    lemma_mul_inequality(d2, dt, a);
    assert(0 <= d1 * a) by (nonlinear_arith)
        requires
            0 <= d1,
            0 <= a,
    ;
    lemma_div_is_ordered(d1 * a, d2 * a, dt);
    lemma_div_is_ordered(d2 * a, dt * a, dt);
    assert(dt * a == a * dt) by (nonlinear_arith);
    lemma_div_by_multiple(a, dt);
    lemma_div_is_ordered(0, d1 * a, dt);
}

/// `scaled(c, t, a)`.
fn scale(c: u128, t: u128, a: u64) -> (r: u64)
    requires
        c <= t,
        0 < t,
        a <= MAX_CELLS,
    ensures
        r == scaled(c as int, t as int, a as int),
{
    proof {
        lemma_scaled_facts(c as int, c as int, t as int, a as int);
    }
    if t < SCALE_EXACT_LIMIT {
        assert(c * a <= t * a <= 0xFFFF_FFFF_FFFF_FFFF_FFFF_FFFF_FFFF_FFFF) by (nonlinear_arith)
            requires
                c <= t < SCALE_EXACT_LIMIT,
                a <= MAX_CELLS,
        ;
        (c * a as u128 / t) as u64
    } else {
        let c2 = c / SCALE_COARSE_UNIT;
        let t2 = t / SCALE_COARSE_UNIT;
        assert(c2 <= t2 && t2 * a <= 0xFFFF_FFFF_FFFF_FFFF_FFFF_FFFF_FFFF_FFFF) by {
            lemma_div_is_ordered(c as int, t as int, SCALE_COARSE_UNIT as int);
            assert(t2 * a <= 0xFFFF_FFFF_FFFF_FFFF_FFFF_FFFF_FFFF_FFFF) by (nonlinear_arith)
                requires
                    t2 == t / SCALE_COARSE_UNIT,
                    a <= MAX_CELLS,
            ;
        }
        assert(c2 * a <= t2 * a) by (nonlinear_arith)
            requires
                c2 <= t2,
        ;
        (c2 * a as u128 / t2) as u64
    }
}

proof fn lemma_rank_weight_prefix_mono(s: Seq<(usize, u64)>, order: Seq<usize>, i: int, k: int)
    requires
        0 <= i <= k,
    ensures
        0 <= rank_weight_prefix(s, order, i) <= rank_weight_prefix(s, order, k),
    decreases k,
{
    if k > 0 {
        if i < k {
            lemma_rank_weight_prefix_mono(s, order, i, k - 1);
        } else {
            lemma_rank_weight_prefix_mono(s, order, i - 1, k - 1);
        }
    }
}

/// The items of `s` in the rank order `o`, each with its share of `cells`:
/// the share of the first `k` items is `scaled` from their cumulative weight,
/// so that the shares add up to `cells` exactly.
pub open spec fn ranked_areas(s: Seq<(usize, u64)>, o: Seq<usize>, cells: int) -> Seq<(usize, u64)> {
    let t = rank_weight_prefix(s, o, o.len() as int);
    Seq::new(
        o.len(),
        |k: int|
            (
                s[o[k] as int].0,
                (scaled(rank_weight_prefix(s, o, k + 1), t, cells) - scaled(rank_weight_prefix(s, o, k), t, cells)) as u64,
            ),
    )
}

/// The items in rank order, each with its share of `cells`: the shares are
/// taken from cumulative weights, so that they add up to `cells` exactly.
fn rank_areas(sizes: &[(usize, u64)], order: &Vec<usize>, cells: u64) -> (areas: Vec<(usize, u64)>)
    requires
        is_rank_order(sizes@, order@),
        sizes@.len() > 0,
        cells <= MAX_CELLS,
    ensures
        areas@.len() == sizes@.len(),
        forall|k: int| 0 <= k < areas@.len() ==> #[trigger] areas@[k].0 == sizes@[order@[k] as int].0,
        forall|k: int| 0 <= k <= areas@.len() ==> 0 <= #[trigger] area_prefix(areas@, k) <= cells,
        area_prefix(areas@, areas@.len() as int) == cells,
        areas@ == ranked_areas(sizes@, order@, cells as int),
{
    let n = order.len();
    let mut total: u128 = 0;
    let mut i: usize = 0;
    while i < n
        invariant
            n == order@.len() == sizes@.len(),
            is_rank_order(sizes@, order@),
            i <= n,
            total == rank_weight_prefix(sizes@, order@, i as int),
            total <= i * 0xFFFF_FFFF_FFFF_FFFFu128,
        decreases n - i,
    {
        assert(total + 0xFFFF_FFFF_FFFF_FFFFu128 <= (i + 1) * 0xFFFF_FFFF_FFFF_FFFFu128 <= 0xFFFF_FFFF_FFFF_FFFF_FFFF_FFFF_FFFF_FFFFu128) by (nonlinear_arith)
            requires
                total <= i * 0xFFFF_FFFF_FFFF_FFFFu128,
                i < 0x1_0000_0000_0000_0000int,
        ;
        total = total + weight_of(sizes[order[i]].1) as u128;
        i = i + 1;
    }
    let mut areas: Vec<(usize, u64)> = Vec::new();
    let mut cum: u128 = 0;
    let mut prev: u64 = 0;
    let mut k: usize = 0;
    proof {
        lemma_rank_weight_prefix_mono(sizes@, order@, 0, n as int);
        lemma_rank_weight_prefix_mono(sizes@, order@, (n - 1) as int, (n - 1) as int);
        lemma_fundamental_div_mod_converse(0, total as int, 0, 0);
        if total >= SCALE_EXACT_LIMIT {
            lemma_fundamental_div_mod_converse(0, (total / SCALE_COARSE_UNIT) as int, 0, 0);
        }
    }
    while k < n
        invariant
            n == order@.len() == sizes@.len(),
            is_rank_order(sizes@, order@),
            k <= n,
            total == rank_weight_prefix(sizes@, order@, n as int),
            total > 0,
            cells <= MAX_CELLS,
            cum == rank_weight_prefix(sizes@, order@, k as int),
            prev == scaled(cum as int, total as int, cells as int),
            areas@.len() == k,
            area_prefix(areas@, k as int) == prev,
            forall|q: int| 0 <= q < k ==> #[trigger] areas@[q].0 == sizes@[order@[q] as int].0,
            forall|q: int| 0 <= q <= k ==> 0 <= #[trigger] area_prefix(areas@, q) <= cells,
            areas@ == ranked_areas(sizes@, order@, cells as int).subrange(0, k as int),
        decreases n - k,
    {
        proof {
            lemma_rank_weight_prefix_mono(sizes@, order@, k as int, k + 1);
            lemma_rank_weight_prefix_mono(sizes@, order@, k + 1, n as int);
            lemma_scaled_facts(cum as int, (cum + weight(sizes@[order@[k as int] as int].1)) as int, total as int, cells as int);
        }
        let p = order[k];
        cum = cum + weight_of(sizes[p].1) as u128;
        let cur = scale(cum, total, cells);
        let ghost before = areas@;
        areas.push((sizes[p].0, cur - prev));
        proof {
            assert forall|q: int| 0 <= q <= k + 1 implies 0 <= #[trigger] area_prefix(areas@, q) <= cells by {
                if q <= k {
                    lemma_area_prefix_push(before, (sizes@[p as int].0, (cur - prev) as u64), q);
                } else {
                    lemma_area_prefix_push(before, (sizes@[p as int].0, (cur - prev) as u64), k as int);
                }
            }
            lemma_area_prefix_push(before, (sizes@[p as int].0, (cur - prev) as u64), k as int);
        }
        assert(areas@ =~= ranked_areas(sizes@, order@, cells as int).subrange(0, k + 1));
        prev = cur;
        k = k + 1;
    }
    proof {
        lemma_scaled_facts(total as int, total as int, total as int, cells as int);
        assert(areas@ =~= ranked_areas(sizes@, order@, cells as int));
    }
    areas
}

/// The first `k` values of a sequence do not change when an item is pushed.
proof fn lemma_area_prefix_push(s: Seq<(usize, u64)>, e: (usize, u64), k: int)
    requires
        k <= s.len(),
    ensures
        area_prefix(s.push(e), k) == area_prefix(s, k),
        area_prefix(s.push(e), s.len() + 1int) == area_prefix(s, s.len() as int) + e.1,
{
    lemma_area_prefix_push_below(s, e, k);
    lemma_area_prefix_push_below(s, e, s.len() as int);
}

proof fn lemma_area_prefix_push_below(s: Seq<(usize, u64)>, e: (usize, u64), k: int)
    requires
        k <= s.len(),
    ensures
        area_prefix(s.push(e), k) == area_prefix(s, k),
    decreases k,
{
    if k > 0 {
        lemma_area_prefix_push_below(s, e, k - 1);
    }
}

/// What laying out `row` in `rect` must give: one block per item, in order,
/// tiling a strip of `rect`, and the part of `rect` that is left, which the
/// blocks do not touch (nothing is left after the last row).
pub open spec fn row_laid(
    row: Seq<(usize, u64)>,
    rect: Rect,
    is_last: bool,
    blocks: Seq<BlockRect>,
    rest: Rect,
) -> bool {
    &&& blocks.len() == row.len()
    &&& forall|k: int| 0 <= k < blocks.len() ==> #[trigger] blocks[k].index == row[k].0
    &&& all_inside(blocks, rect)
    &&& pairwise_disjoint(blocks)
    &&& all_disjoint_from(blocks, rest)
    &&& rect.contains_rect(rest)
    &&& rest.wf()
    &&& total_area(blocks) + rest.area() == rect.area()
    &&& is_last ==> rest.area() == 0
}

/// Thickness of the strip of a row of area `row_sum` laid along a side of
/// length `len` in a rectangle `depth` deep: the area over the side, rounded
/// (halves up), at least one, at most `depth`; all of `depth` for the last
/// row.
pub open spec fn strip_thickness(row_sum: int, len: int, depth: int, is_last: bool) -> int {
    if is_last {
        depth
    } else {
        let raw = if len == 0 { 0 } else { (2 * row_sum + len) / (2 * len) };
        let t = if raw == 0 { 1 } else { raw };
        if t > depth { depth } else { t }
    }
}

/// Length along the strip of an item of area `a` in a strip `t` thick, with
/// `room` left and `left_after` items to come: the area over the thickness,
/// rounded, at least one, leaving one for each item to come; the last item
/// takes all the room.
pub open spec fn item_len(a: int, t: int, room: int, left_after: int) -> int {
    if left_after == 0 {
        room
    } else {
        let raw = if t == 0 { 1 } else { (2 * a + t) / (2 * t) };
        let w = if raw == 0 { 1 } else { raw };
        let cap = if room > left_after { room - left_after } else { 0 };
        if w > cap { cap } else { w }
    }
}

/// The blocks of `row` from item `k` on, in a strip `t` thick along the top
/// of `rect`, starting `used` columns in: each block starts where the one
/// before ends.
pub open spec fn strip_blocks(row: Seq<(usize, u64)>, rect: Rect, t: int, k: int, used: int) -> Seq<BlockRect>
    decreases row.len() - k,
{
    if k < 0 || k >= row.len() {
        Seq::empty()
    } else {
        let w = item_len(row[k].1 as int, t, rect.width - used, row.len() - 1 - k);
        seq![BlockRect { index: row[k].0, rect: Rect { x: (rect.x + used) as u16, y: rect.y, width: w as u16, height: t as u16 } }]
            + strip_blocks(row, rect, t, k + 1, used + w)
    }
}

/// A row laid as a strip along the top of `rect`: its blocks, and what is
/// left of `rect` below the strip.
pub open spec fn strip(row: Seq<(usize, u64)>, row_sum: int, rect: Rect, is_last: bool) -> (Seq<BlockRect>, Rect) {
    let t = strip_thickness(row_sum, rect.width as int, rect.height as int, is_last);
    (
        strip_blocks(row, rect, t, 0, 0),
        Rect { x: rect.x, y: (rect.y + t) as u16, width: rect.width, height: (rect.height - t) as u16 },
    )
}

/// A row of the squarified treemap laid along the longer side of `rect`: a
/// strip along the top when `rect` is at least as wide as high, else the
/// same along the left side (rows and columns exchanged).
pub open spec fn row_layout(row: Seq<(usize, u64)>, row_sum: int, rect: Rect, is_last: bool) -> (Seq<BlockRect>, Rect) {
    if rect.width >= rect.height {
        strip(row, row_sum, rect, is_last)
    } else {
        let r = strip(row, row_sum, rect.flip(), is_last);
        (r.0.map_values(|b: BlockRect| flip_block(b)), r.1.flip())
    }
}

/// Lays `row` out as a strip along the top of `rect`, as thick as the row's
/// area over the width (rounded, at least one line, at most the height; the
/// whole height for the last row). Each item is as wide as its area over that
/// thickness (rounded, at least one column, leaving a column for each later
/// item); the last item takes the rest of the width.
fn lay_strip(row: &Vec<(usize, u64)>, row_sum: u64, rect: Rect, is_last: bool) -> (res: (
    Vec<BlockRect>,
    Rect,
))
    requires
        rect.wf(),
        row@.len() > 0,
        row_sum <= MAX_CELLS,
        forall|k: int| 0 <= k < row@.len() ==> (#[trigger] row@[k]).1 <= MAX_CELLS,
    ensures
        row_laid(row@, rect, is_last, res.0@, res.1),
        res.0@ == strip(row@, row_sum as int, rect, is_last).0,
        res.1 == strip(row@, row_sum as int, rect, is_last).1,
{
    let wd = rect.width;
    let ht = rect.height;
    let raw: u64 = if wd == 0 {
        0
    } else {
        (2 * row_sum + wd as u64) / (2 * wd as u64)
    };
    let mut t: u16 = if raw == 0 {
        1
    } else if raw > ht as u64 {
        ht
    } else {
        raw as u16
    };
    if t > ht {
        t = ht;
    }
    if is_last {
        t = ht;
    }
    let n = row.len();
    let mut out: Vec<BlockRect> = Vec::new();
    let mut x: u16 = rect.x;
    let mut used: u16 = 0;
    let mut k: usize = 0;
    assert(t == strip_thickness(row_sum as int, wd as int, ht as int, is_last));
    assert(out@ + strip_blocks(row@, rect, t as int, 0, 0) =~= strip_blocks(row@, rect, t as int, 0, 0));
    while k < n
        invariant
            n == row@.len(),
            n > 0,
            out@ + strip_blocks(row@, rect, t as int, k as int, used as int) == strip_blocks(row@, rect, t as int, 0, 0),
            forall|q: int| 0 <= q < row@.len() ==> (#[trigger] row@[q]).1 <= MAX_CELLS,
            rect.wf(),
            wd == rect.width,
            t <= rect.height,
            k <= n,
            out@.len() == k,
            x == rect.x + used,
            used <= wd,
            k == n ==> used == wd,
            forall|q: int| 0 <= q < k ==> #[trigger] out@[q].index == row@[q].0,
            forall|q: int|
                0 <= q < k ==> (#[trigger] out@[q]).rect.y == rect.y && out@[q].rect.height == t
                    && rect.x <= out@[q].rect.x && out@[q].rect.x + out@[q].rect.width <= x,
            pairwise_disjoint(out@),
            total_area(out@) == t * used,
        decreases n - k,
    {
        let a = row[k].1;
        let raw_w: u64 = if t == 0 {
            1
        } else {
            (2 * a + t as u64) / (2 * t as u64)
        };
        let left_after = n - 1 - k;
        let room: usize = (wd - used) as usize;
        let cap: u16 = if room > left_after {
            (room - left_after) as u16
        } else {
            0
        };
        let mut w: u16 = if raw_w == 0 {
            1
        } else if raw_w > cap as u64 {
            cap
        } else {
            raw_w as u16
        };
        if w > cap {
            w = cap;
        }
        if k == n - 1 {
            w = wd - used;
        }
        let b = BlockRect { index: row[k].0, rect: Rect { x, y: rect.y, width: w, height: t } };
        proof {
            assert(w == item_len(a as int, t as int, (wd - used) as int, (n - 1 - k) as int));
            assert(strip_blocks(row@, rect, t as int, k as int, used as int) == seq![b] + strip_blocks(
                row@,
                rect,
                t as int,
                k + 1,
                used + w,
            ));
            assert(out@.push(b) + strip_blocks(row@, rect, t as int, k + 1, used + w) =~= out@ + (seq![b]
                + strip_blocks(row@, rect, t as int, k + 1, used + w)));
            lemma_total_area_push(out@, b);
            assert(t * (used + w) == t * used + w * t) by (nonlinear_arith);
            assert forall|i: int, j: int|
                0 <= i < j < out@.len() + 1 implies #[trigger] disjoint(out@.push(b)[i].rect, out@.push(b)[j].rect) by {
                assert(out@.push(b)[i] == out@[i]);
                if j < out@.len() {
                    assert(out@.push(b)[j] == out@[j]);
                }
            }
        }
        out.push(b);
        x = x + w;
        used = used + w;
        k = k + 1;
    }
    let rest = Rect { x: rect.x, y: rect.y + t, width: wd, height: ht - t };
    proof {
        assert(strip_blocks(row@, rect, t as int, k as int, used as int) =~= Seq::<BlockRect>::empty());
        assert(out@ =~= out@ + Seq::<BlockRect>::empty());
        assert(t * wd + wd * (ht - t) == wd * ht) by (nonlinear_arith);
        assert forall|q: int| 0 <= q < out@.len() implies rect.contains_rect(#[trigger] out@[q].rect) by {}
        assert forall|q: int| 0 <= q < out@.len() implies disjoint(#[trigger] out@[q].rect, rest) by {}
    }
    (out, rest)
}

/// A row laid out in the transposed rectangle, transposed back.
proof fn lemma_row_laid_flip(
    row: Seq<(usize, u64)>,
    rect: Rect,
    is_last: bool,
    blocks: Seq<BlockRect>,
    rest: Rect,
)
    requires
        row_laid(row, rect.flip(), is_last, blocks, rest),
    ensures
        row_laid(row, rect, is_last, blocks.map_values(|b: BlockRect| flip_block(b)), rest.flip()),
{
    let fb = blocks.map_values(|b: BlockRect| flip_block(b));
    lemma_total_area_flip(blocks);
    assert(rest.flip().area() == rest.area() && rect.flip().area() == rect.area()) by (nonlinear_arith);
    assert forall|i: int, j: int| 0 <= i < j < fb.len() implies #[trigger] disjoint(fb[i].rect, fb[j].rect) by {
        assert(disjoint(blocks[i].rect, blocks[j].rect));
    }
    assert forall|i: int| 0 <= i < fb.len() implies rect.contains_rect(#[trigger] fb[i].rect) by {
        assert(rect.flip().contains_rect(blocks[i].rect));
    }
    assert forall|i: int| 0 <= i < fb.len() implies disjoint(#[trigger] fb[i].rect, rest.flip()) by {
        assert(disjoint(blocks[i].rect, rest));
    }
    assert forall|k: int| 0 <= k < fb.len() implies #[trigger] fb[k].index == row[k].0 by {
        assert(blocks[k].index == row[k].0);
    }
}

/// Lays out one row of the squarified treemap along the longer side of
/// `rect`: a horizontal strip at the top when `rect` is at least as wide as
/// high, a vertical strip at the left otherwise. Returns the blocks and what
/// is left of `rect`.
fn layout_row(row: &Vec<(usize, u64)>, row_sum: u64, rect: Rect, is_last: bool) -> (res: (
    Vec<BlockRect>,
    Rect,
))
    requires
        rect.wf(),
        row@.len() > 0,
        row_sum == area_prefix(row@, row@.len() as int),
        row_sum <= MAX_CELLS,
        forall|k: int| 0 <= k < row@.len() ==> (#[trigger] row@[k]).1 <= MAX_CELLS,
    ensures
        row_laid(row@, rect, is_last, res.0@, res.1),
        res.0@ == row_layout(row@, row_sum as int, rect, is_last).0,
        res.1 == row_layout(row@, row_sum as int, rect, is_last).1,
{
    if rect.width >= rect.height {
        return lay_strip(row, row_sum, rect, is_last);
    }
    let (blocks, rest) = lay_strip(row, row_sum, flip_rect(rect), is_last);
    let mut out: Vec<BlockRect> = Vec::new();
    let mut k: usize = 0;
    while k < blocks.len()
        invariant
            k <= blocks@.len(),
            out@.len() == k,
            forall|q: int| 0 <= q < k ==> #[trigger] out@[q] == flip_block(blocks@[q]),
        decreases blocks@.len() - k,
    {
        let b = blocks[k];
        out.push(BlockRect { index: b.index, rect: flip_rect(b.rect) });
        k = k + 1;
    }
    proof {
        assert(rect.flip().flip() == rect);
        lemma_row_laid_flip(row@, rect, is_last, blocks@, rest);
        assert(out@ =~= blocks@.map_values(|b: BlockRect| flip_block(b)));
    }
    (out, flip_rect(rest))
}

/// The rank order of `s` (there is exactly one: `lemma_rank_order_unique`).
pub open spec fn rank_order_of(s: Seq<(usize, u64)>) -> Seq<usize> {
    choose|o: Seq<usize>| is_rank_order(s, o)
}

/// The greedy row building of the squarified treemap from item `i` of
/// `areas` on, with the blocks `out` laid so far, `rect` left, and the open
/// `row` with smallest, largest and total area `mn`, `mx`, `sm`: an item
/// joins the row when that does not make the row's worst aspect ratio
/// against the shorter side of `rect` worse (`worst_le`); otherwise the row
/// is laid out (`row_layout`) and the item starts a new one. The last row
/// takes all that is left.
pub open spec fn sq_rows(
    areas: Seq<(usize, u64)>,
    i: int,
    out: Seq<BlockRect>,
    rect: Rect,
    row: Seq<(usize, u64)>,
    mn: u64,
    mx: u64,
    sm: u64,
) -> Seq<BlockRect>
    decreases areas.len() - i,
{
    if i < 0 || i >= areas.len() {
        if row.len() == 0 {
            out
        } else {
            out + row_layout(row, sm as int, rect, true).0
        }
    } else {
        let next = areas[i];
        if row.len() == 0 {
            sq_rows(areas, i + 1, out, rect, seq![next], next.1, next.1, next.1)
        } else {
            let short = if rect.width < rect.height { rect.width } else { rect.height };
            let nmn = if next.1 < mn { next.1 } else { mn };
            let nmx = if next.1 > mx { next.1 } else { mx };
            let nsm = (sm + next.1) as u64;
            if worst_le((nmn as int, nmx as int, nsm as int), (mn as int, mx as int, sm as int), short as int) {
                sq_rows(areas, i + 1, out, rect, row.push(next), nmn, nmx, nsm)
            } else {
                let laid = row_layout(row, sm as int, rect, false);
                sq_rows(areas, i + 1, out + laid.0, laid.1, seq![next], next.1, next.1, next.1)
            }
        }
    }
}

/// The squarified treemap of `sizes` in `area`: the items in rank order,
/// scaled to the cells of `area` (`ranked_areas`), gathered into rows by
/// `sq_rows`.
pub open spec fn squarified(sizes: Seq<(usize, u64)>, area: Rect) -> Seq<BlockRect> {
    if sizes.len() == 0 || area.width == 0 || area.height == 0 {
        Seq::empty()
    } else {
        sq_rows(
            ranked_areas(sizes, rank_order_of(sizes), area.width * area.height),
            0,
            Seq::empty(),
            area,
            Seq::empty(),
            0,
            0,
            0,
        )
    }
}

/// Squarified treemap: the items, heaviest first, are scaled to the cells of
/// `area` and gathered greedily into rows, an item joining the current row as
/// long as that does not make the row's worst aspect ratio (against the
/// shorter side of what is left) any worse; each closed row is laid out along
/// the longer side of what is left, and the last row takes all that remains.
///
/// For a non-empty list and a non-empty area the blocks, one per item, cover
/// `area` exactly: no two overlap and their areas add up to the area of `area`.
pub fn treemap(sizes: &[(usize, u64)], area: Rect) -> (out: Vec<BlockRect>)
    requires
        area.wf(),
    ensures
        out@ == squarified(sizes@, area),
        sizes@.len() == 0 || area.width == 0 || area.height == 0 ==> out@.len() == 0,
        sizes@.len() > 0 && area.width > 0 && area.height > 0 ==> {
            &&& out@.len() == sizes@.len()
            &&& tiles(out@, area)
            &&& indices_from(out@, sizes@)
            &&& forall|p: int| 0 <= p < sizes@.len() ==> #[trigger] has_block(out@, sizes@[p].0)
            &&& exists|order: Seq<usize>|
                #[trigger] is_rank_order(sizes@, order) && forall|k: int|
                    0 <= k < out@.len() ==> #[trigger] out@[k].index == sizes@[order[k] as int].0
        },
{
    let n = sizes.len();
    if n == 0 || area.width == 0 || area.height == 0 {
        return Vec::new();
    }
    let order = rank_order(sizes);
    assert(area.width * area.height <= MAX_CELLS) by (nonlinear_arith)
        requires
            area.width <= 65535,
            area.height <= 65535,
    ;
    let cells: u64 = area.width as u64 * area.height as u64;
    let areas = rank_areas(sizes, &order, cells);
    proof {
        assert(is_rank_order(sizes@, order@));
        lemma_rank_order_unique(sizes@, order@, rank_order_of(sizes@));
    }
    let ghost goal = squarified(sizes@, area);
    let mut out: Vec<BlockRect> = Vec::new();
    let mut rect = area;
    let mut row: Vec<(usize, u64)> = Vec::new();
    let mut row_min: u64 = 0;
    let mut row_max: u64 = 0;
    let mut row_sum: u64 = 0;
    let mut start: usize = 0;
    let mut i: usize = 0;
    while i < n
        invariant
            n == sizes@.len() == areas@.len(),
            n > 0,
            cells == area.area(),
            cells <= MAX_CELLS,
            area.wf(),
            forall|k: int| 0 <= k < areas@.len() ==> #[trigger] areas@[k].0 == sizes@[order@[k] as int].0,
            is_rank_order(sizes@, order@),
            forall|k: int| 0 <= k <= areas@.len() ==> 0 <= #[trigger] area_prefix(areas@, k) <= cells,
            start <= i <= n,
            i > 0 ==> row@.len() > 0,
            out@.len() + row@.len() == i,
            forall|k: int| 0 <= k < out@.len() ==> #[trigger] out@[k].index == areas@[k].0,
            forall|k: int| 0 <= k < row@.len() ==> #[trigger] row@[k].0 == areas@[out@.len() + k].0,
            row_sum == area_prefix(areas@, i as int) - area_prefix(areas@, start as int),
            row_sum == area_prefix(row@, row@.len() as int),
            row_min <= MAX_CELLS,
            row_max <= MAX_CELLS,
            forall|k: int| 0 <= k < row@.len() ==> (#[trigger] row@[k]).1 <= MAX_CELLS,
            forall|k: int| 0 <= k < row@.len() ==> has_index(sizes@, #[trigger] row@[k].0),
            indices_from(out@, sizes@),
            rect.wf(),
            area.contains_rect(rect),
            all_inside(out@, area),
            pairwise_disjoint(out@),
            all_disjoint_from(out@, rect),
            total_area(out@) + rect.area() == area.area(),
            sq_rows(areas@, i as int, out@, rect, row@, row_min, row_max, row_sum) == goal,
        decreases n - i,
    {
        let next = areas[i];
        let ghost row_before = row@;
        let ghost st = (out@, rect, row@, row_min, row_max, row_sum);
        proof {
            assert(area_prefix(areas@, i + 1) == area_prefix(areas@, i as int) + next.1);
            assert(sizes@[order@[i as int] as int].0 == next.0);
            assert(0 <= order@[i as int] < sizes@.len());
        }
        if row.len() == 0 {
            row.push(next);
            assert(row@ =~= seq![next]);
            row_min = next.1;
            row_max = next.1;
            row_sum = next.1;
            start = i;
            proof {
                assert(area_prefix(row@, 1) == area_prefix(row@, 0) + row@[0].1);
            }
        } else {
            let short = if rect.width < rect.height {
                rect.width
            } else {
                rect.height
            };
            let next_min = if next.1 < row_min {
                next.1
            } else {
                row_min
            };
            let next_max = if next.1 > row_max {
                next.1
            } else {
                row_max
            };
            let next_sum = row_sum + next.1;
            if worst_ratio_le((next_min, next_max, next_sum), (row_min, row_max, row_sum), short) {
                let ghost before = row@;
                row.push(next);
                proof {
                    lemma_area_prefix_push(before, next, before.len() as int);
                    assert forall|k: int| 0 <= k < row@.len() implies #[trigger] row@[k].0 == areas@[out@.len() + k].0 by {
                        if k < before.len() {
                            assert(row@[k] == before[k]);
                        }
                    }
                }
                row_min = next_min;
                row_max = next_max;
                row_sum = next_sum;
            } else {
                let (mut laid, rest) = layout_row(&row, row_sum, rect, false);
                let ghost out_before = out@;
                let ghost laid_before = laid@;
                proof {
                    lemma_append_laid(out@, laid@, area, rect, rest, sizes@, row@);
                    assert(!worst_le(
                        (next_min as int, next_max as int, next_sum as int),
                        (row_min as int, row_max as int, row_sum as int),
                        short as int,
                    ));
                }
                out.append(&mut laid);
                assert(out@ == out_before + laid_before);
                proof {
                    assert forall|k: int| 0 <= k < out@.len() implies #[trigger] out@[k].index == areas@[k].0 by {
                        if k >= out_before.len() {
                            assert(out@[k] == laid_before[k - out_before.len()]);
                            assert(laid_before[k - out_before.len()].index == row_before[k - out_before.len()].0);
                        } else {
                            assert(out@[k] == out_before[k]);
                        }
                    }
                }
                rect = rest;
                row = Vec::new();
                row.push(next);
                assert(row@ =~= seq![next]);
                row_min = next.1;
                row_max = next.1;
                row_sum = next.1;
                start = i;
                proof {
                    assert(area_prefix(row@, 1) == area_prefix(row@, 0) + row@[0].1);
                }
            }
        }
        proof {
            assert forall|k: int| 0 <= k < row@.len() implies has_index(sizes@, #[trigger] row@[k].0) by {
                if k == row@.len() - 1 {
                    assert(row@[k] == next);
                    assert(next.0 == sizes@[order@[i as int] as int].0);
                } else {
                    assert(row@[k] == row_before[k]);
                }
            }
        }
        assert(sq_rows(areas@, i as int, st.0, st.1, st.2, st.3, st.4, st.5) == sq_rows(
            areas@,
            i + 1,
            out@,
            rect,
            row@,
            row_min,
            row_max,
            row_sum,
        ));
        i = i + 1;
    }
    let (mut laid, rest) = layout_row(&row, row_sum, rect, true);
    let ghost out_before = out@;
    let ghost laid_before = laid@;
    let ghost last_row = row@;
    proof {
        lemma_append_laid(out@, laid@, area, rect, rest, sizes@, row@);
    }
    out.append(&mut laid);
    proof {
        assert(out@ == goal);
        assert forall|k: int| 0 <= k < out@.len() implies #[trigger] out@[k].index == sizes@[order@[k] as int].0 by {
            if k >= out_before.len() {
                assert(out@[k] == laid_before[k - out_before.len()]);
                assert(laid_before[k - out_before.len()].index == last_row[k - out_before.len()].0);
            } else {
                assert(out@[k] == out_before[k]);
            }
            assert(areas@[k].0 == sizes@[order@[k] as int].0);
        }
        assert(is_rank_order(sizes@, order@));
        lemma_rank_order_covers(sizes@, order@);
        assert forall|p: int| 0 <= p < sizes@.len() implies #[trigger] has_block(out@, sizes@[p].0) by {
            assert(lists_position(order@, p));
            let j = choose|j: int| 0 <= j < order@.len() && order@[j] == p;
            assert(out@[j].index == sizes@[order@[j] as int].0);
        }
    }
    out
}

/// Appending a laid-out row keeps the blocks tiling `area` minus what is left.
proof fn lemma_append_laid(
    out: Seq<BlockRect>,
    laid: Seq<BlockRect>,
    area: Rect,
    rect: Rect,
    rest: Rect,
    sizes: Seq<(usize, u64)>,
    row: Seq<(usize, u64)>,
)
    requires
        area.contains_rect(rect),
        all_inside(out, area),
        pairwise_disjoint(out),
        all_disjoint_from(out, rect),
        indices_from(out, sizes),
        forall|k: int| 0 <= k < row.len() ==> has_index(sizes, #[trigger] row[k].0),
        row_laid(row, rect, false, laid, rest) || row_laid(row, rect, true, laid, rest),
    ensures
        all_inside(out + laid, area),
        pairwise_disjoint(out + laid),
        all_disjoint_from(out + laid, rest),
        indices_from(out + laid, sizes),
        total_area(out + laid) == total_area(out) + total_area(laid),
        area.contains_rect(rest),
{
    let all = out + laid;
    lemma_total_area_concat(out, laid);
    assert forall|i: int| 0 <= i < all.len() implies area.contains_rect(#[trigger] all[i].rect) by {
        if i >= out.len() {
            assert(all[i] == laid[i - out.len()]);
            assert(rect.contains_rect(laid[i - out.len()].rect));
        }
    }
    assert forall|i: int| 0 <= i < all.len() implies disjoint(#[trigger] all[i].rect, rest) by {
        if i < out.len() {
            lemma_disjoint_inside(out[i].rect, rect, rest);
        } else {
            assert(all[i] == laid[i - out.len()]);
        }
    }
    assert forall|i: int, j: int| 0 <= i < j < all.len() implies #[trigger] disjoint(all[i].rect, all[j].rect) by {
        if j < out.len() {
            assert(disjoint(out[i].rect, out[j].rect));
        } else if i < out.len() {
            assert(all[j] == laid[j - out.len()]);
            assert(rect.contains_rect(laid[j - out.len()].rect));
            lemma_disjoint_inside(out[i].rect, rect, laid[j - out.len()].rect);
        } else {
            assert(all[i] == laid[i - out.len()] && all[j] == laid[j - out.len()]);
            assert(disjoint(laid[i - out.len()].rect, laid[j - out.len()].rect));
        }
    }
    assert forall|k: int| 0 <= k < all.len() implies has_index(sizes, #[trigger] all[k].index) by {
        if k >= out.len() {
            assert(all[k] == laid[k - out.len()]);
            assert(laid[k - out.len()].index == row[k - out.len()].0);
        } else {
            assert(all[k] == out[k]);
        }
    }
}

/// `sizes` with every zero size counted as one.
pub open spec fn zero_as_one(sizes: Seq<(usize, u64)>) -> Seq<(usize, u64)> {
    sizes.map_values(|e: (usize, u64)| (e.0, if e.1 == 0 { 1u64 } else { e.1 }))
}

proof fn lemma_rank_weight_prefix_same(s1: Seq<(usize, u64)>, s2: Seq<(usize, u64)>, o: Seq<usize>, k: int)
    requires
        s1.len() == s2.len(),
        forall|p: int| 0 <= p < s1.len() ==> weight(#[trigger] s1[p].1) == weight(s2[p].1),
        forall|j: int| 0 <= j < o.len() ==> #[trigger] o[j] < s1.len(),
        k <= o.len(),
    ensures
        rank_weight_prefix(s1, o, k) == rank_weight_prefix(s2, o, k),
    decreases k,
{
    if k > 0 {
        lemma_rank_weight_prefix_same(s1, s2, o, k - 1);
        assert(o[k - 1] < s1.len());
    }
}

/// A size of zero is laid out exactly like a size of one (so an empty
/// directory stays visible, and an all-zero list gets equal weights).
pub proof fn lemma_zero_size_counts_as_one(sizes: Seq<(usize, u64)>, area: Rect)
    requires
        sizes.len() <= usize::MAX,
    ensures
        squarified(sizes, area) == squarified(zero_as_one(sizes), area),
{
    let s2 = zero_as_one(sizes);
    if sizes.len() > 0 && area.width > 0 && area.height > 0 {
        assert forall|p: int| 0 <= p < sizes.len() implies weight(#[trigger] sizes[p].1) == weight(s2[p].1) by {}
        lemma_rank_order_exists(sizes);
        let o = rank_order_of(sizes);
        assert(is_rank_order(s2, o)) by {
            assert forall|i: int, j: int| 0 <= i < j < o.len() implies comes_before(s2, #[trigger] o[i] as int, #[trigger] o[j] as int) by {
                assert(comes_before(sizes, o[i] as int, o[j] as int));
                assert(o[i] < sizes.len() && o[j] < sizes.len());
            }
        }
        lemma_rank_order_exists(s2);
        lemma_rank_order_unique(s2, o, rank_order_of(s2));
        let n = o.len() as int;
        lemma_rank_weight_prefix_same(sizes, s2, o, n);
        let cells = area.width * area.height;
        assert forall|k: int| 0 <= k < n implies #[trigger] ranked_areas(sizes, o, cells)[k] == ranked_areas(s2, o, cells)[k] by {
            lemma_rank_weight_prefix_same(sizes, s2, o, k);
            lemma_rank_weight_prefix_same(sizes, s2, o, k + 1);
            assert(o[k] < sizes.len());
        }
        assert(ranked_areas(sizes, o, cells) =~= ranked_areas(s2, o, cells));
    }
}

/// Every list of sizes has a rank order.
pub proof fn lemma_rank_order_exists(s: Seq<(usize, u64)>)
    requires
        s.len() <= usize::MAX,
    ensures
        is_rank_order(s, rank_order_of(s)),
{
    let o = rank_order_spec_witness(s, s.len() as int);
    assert(is_rank_order(s, o));
}

/// A rank order of the first `k` positions of `s`, built by insertion.
proof fn rank_order_spec_witness(s: Seq<(usize, u64)>, k: int) -> (o: Seq<usize>)
    requires
        0 <= k <= s.len(),
        s.len() <= usize::MAX,
    ensures
        o.len() == k,
        forall|i: int| 0 <= i < o.len() ==> #[trigger] o[i] < k,
        forall|i: int, j: int| 0 <= i < j < o.len() ==> comes_before(s, #[trigger] o[i] as int, #[trigger] o[j] as int),
    decreases k,
{
    if k == 0 {
        Seq::empty()
    } else {
        let prev = rank_order_spec_witness(s, k - 1);
        let p = k - 1;
        let i = insertion_point(s, prev, p, 0);
        let o = prev.insert(i, p as usize);
        assert(o[i] == p);
        assert forall|a: int, b: int| 0 <= a < b < o.len() implies comes_before(s, #[trigger] o[a] as int, #[trigger] o[b] as int) by {
            if b < i {
                assert(o[a] == prev[a] && o[b] == prev[b]);
            } else if b == i {
                assert(o[a] == prev[a]);
                assert(prev[a] < p);
            } else if a == i {
                assert(o[b] == prev[b - 1]);
                if b - 1 > i {
                    assert(comes_before(s, prev[i] as int, prev[b - 1] as int));
                }
            } else if a < i {
                assert(o[a] == prev[a] && o[b] == prev[b - 1]);
            } else {
                assert(o[a] == prev[a - 1] && o[b] == prev[b - 1]);
                assert(comes_before(s, prev[a - 1] as int, prev[b - 1] as int));
            }
        }
        assert forall|q: int| 0 <= q < o.len() implies #[trigger] o[q] < k by {
            if q < i {
                assert(o[q] == prev[q]);
            } else if q > i {
                assert(o[q] == prev[q - 1]);
            }
        }
        o
    }
}

/// The first position from `i` on whose item is lighter than the item at
/// position `p`.
proof fn insertion_point(s: Seq<(usize, u64)>, prev: Seq<usize>, p: int, i: int) -> (r: int)
    requires
        0 <= i <= prev.len(),
        forall|k: int| 0 <= k < i ==> weight(s[#[trigger] prev[k] as int].1) >= weight(s[p].1),
    ensures
        i <= r <= prev.len(),
        forall|k: int| 0 <= k < r ==> weight(s[#[trigger] prev[k] as int].1) >= weight(s[p].1),
        r < prev.len() ==> weight(s[prev[r] as int].1) < weight(s[p].1),
    decreases prev.len() - i,
{
    if i >= prev.len() || weight(s[prev[i] as int].1) < weight(s[p].1) {
        i
    } else {
        insertion_point(s, prev, p, i + 1)
    }
}

/// Directories of 30, 20 and 10 KiB and 5 KiB of files in a 10 by 4 area:
/// the 30 KiB directory gets a 10 by 2 block, more than the 10 by 1 block of
/// the 10 KiB one.
pub proof fn lemma_ten_by_four_example()
    ensures
        ({
            let out = squarified(
                seq![(0usize, 30720u64), (1usize, 20480u64), (2usize, 10240u64), (3usize, 5120u64)],
                Rect { x: 0, y: 0, width: 10, height: 4 },
            );
            &&& out.len() == 4
            &&& out[0] == BlockRect { index: 0, rect: Rect { x: 0, y: 0, width: 10, height: 2 } }
            &&& out[2] == BlockRect { index: 2, rect: Rect { x: 0, y: 3, width: 10, height: 1 } }
            &&& out[0].rect.area() > out[2].rect.area()
        }),
{
    let s = seq![(0usize, 30720u64), (1usize, 20480u64), (2usize, 10240u64), (3usize, 5120u64)];
    let area = Rect { x: 0, y: 0, width: 10, height: 4 };
    let o = seq![0usize, 1usize, 2usize, 3usize];
    assert(is_rank_order(s, o));
    lemma_rank_order_exists(s);
    lemma_rank_order_unique(s, o, rank_order_of(s));
    reveal_with_fuel(rank_weight_prefix, 5);
    assert(rank_weight_prefix(s, o, 1) == 30720);
    assert(rank_weight_prefix(s, o, 2) == 51200);
    assert(rank_weight_prefix(s, o, 3) == 61440);
    assert(rank_weight_prefix(s, o, 4) == 66560);
    assert(scaled(0, 66560, 40) == 0);
    assert(scaled(30720, 66560, 40) == 18);
    assert(scaled(51200, 66560, 40) == 30);
    assert(scaled(61440, 66560, 40) == 36);
    assert(scaled(66560, 66560, 40) == 40);
    let a = seq![(0usize, 18u64), (1usize, 12u64), (2usize, 6u64), (3usize, 4u64)];
    assert(ranked_areas(s, o, 40) =~= a);
    let r0 = Rect { x: 0, y: 0, width: 10, height: 4 };
    let r1 = Rect { x: 0, y: 2, width: 10, height: 2 };
    let r2 = Rect { x: 0, y: 3, width: 10, height: 1 };
    let r3 = Rect { x: 0, y: 4, width: 10, height: 0 };
    let b0 = BlockRect { index: 0, rect: Rect { x: 0, y: 0, width: 10, height: 2 } };
    let b1 = BlockRect { index: 1, rect: Rect { x: 0, y: 2, width: 10, height: 1 } };
    let b2 = BlockRect { index: 2, rect: Rect { x: 0, y: 3, width: 10, height: 1 } };
    let b3 = BlockRect { index: 3, rect: Rect { x: 0, y: 4, width: 10, height: 0 } };
    reveal_with_fuel(strip_blocks, 2);
    assert(row_layout(seq![a[0]], 18, r0, false).0 =~= seq![b0]);
    assert(row_layout(seq![a[0]], 18, r0, false).1 == r1);
    assert(row_layout(seq![a[1]], 12, r1, false).0 =~= seq![b1]);
    assert(row_layout(seq![a[1]], 12, r1, false).1 == r2);
    assert(row_layout(seq![a[2]], 6, r2, false).0 =~= seq![b2]);
    assert(row_layout(seq![a[2]], 6, r2, false).1 == r3);
    assert(row_layout(seq![a[3]], 4, r3, true).0 =~= seq![b3]);
    assert(!worst_le((12, 18, 30), (18, 18, 18), 4)) by {
        assert(!(900int * 324 <= 288int * 192) && !(900int * 288 <= 324int * 192));
    }
    assert(!worst_le((6, 12, 18), (12, 12, 12), 2)) by {
        assert(2int * 2 * 12 == 48 && 18int * 18 == 324 && 2int * 2 * 6 == 24 && 12int * 12 == 144);
        assert(!(324int * 144 <= 48int * 24) && !(324int * 48 <= 144int * 24));
    }
    assert(!worst_le((4, 6, 10), (6, 6, 6), 1)) by {
        assert(!(100int * 36 <= 6int * 4) && !(100int * 6 <= 36int * 4));
    }
    let e = Seq::<BlockRect>::empty();
    let e2 = Seq::<(usize, u64)>::empty();
    assert(sq_rows(a, 4, seq![b0, b1, b2], r3, seq![a[3]], 4, 4, 4) =~= seq![b0, b1, b2, b3]);
    assert(seq![b0, b1] + seq![b2] =~= seq![b0, b1, b2]);
    assert(sq_rows(a, 3, seq![b0, b1], r2, seq![a[2]], 6, 6, 6) == sq_rows(a, 4, seq![b0, b1, b2], r3, seq![a[3]], 4, 4, 4));
    assert(seq![b0] + seq![b1] =~= seq![b0, b1]);
    assert(sq_rows(a, 2, seq![b0], r1, seq![a[1]], 12, 12, 12) == sq_rows(a, 3, seq![b0, b1], r2, seq![a[2]], 6, 6, 6));
    assert(e + seq![b0] =~= seq![b0]);
    assert(sq_rows(a, 1, e, r0, seq![a[0]], 18, 18, 18) == sq_rows(a, 2, seq![b0], r1, seq![a[1]], 12, 12, 12));
    assert(sq_rows(a, 0, e, r0, e2, 0, 0, 0) == sq_rows(a, 1, e, r0, seq![a[0]], 18, 18, 18));
    assert(squarified(s, area) == sq_rows(a, 0, e, r0, e2, 0, 0, 0));
}

proof fn lemma_rank_weight_prefix_matched(
    s1: Seq<(usize, u64)>,
    o1: Seq<usize>,
    s2: Seq<(usize, u64)>,
    o2: Seq<usize>,
    k: int,
)
    requires
        o1.len() == o2.len(),
        k <= o1.len(),
        forall|q: int| 0 <= q < o1.len() ==> #[trigger] s2[o2[q] as int] == s1[o1[q] as int],
    ensures
        rank_weight_prefix(s1, o1, k) == rank_weight_prefix(s2, o2, k),
    decreases k,
{
    if k > 0 {
        lemma_rank_weight_prefix_matched(s1, o1, s2, o2, k - 1);
        assert(s2[o2[k - 1] as int] == s1[o1[k - 1] as int]);
    }
}

/// The squarified layout depends on the order of the input only through
/// the ranking: when no two sizes weigh the same, any reordering `s2` of
/// `s1` (`s2[i] == s1[perm[i]]` for a permutation `perm`) is laid out the
/// same way.
pub proof fn lemma_layout_ignores_input_order(
    s1: Seq<(usize, u64)>,
    s2: Seq<(usize, u64)>,
    perm: Seq<int>,
    area: Rect,
)
    requires
        s1.len() <= usize::MAX,
        s2.len() == s1.len(),
        perm.len() == s1.len(),
        forall|i: int| 0 <= i < perm.len() ==> 0 <= #[trigger] perm[i] < s1.len(),
        forall|i: int, j: int| 0 <= i < j < perm.len() ==> #[trigger] perm[i] != #[trigger] perm[j],
        forall|i: int| 0 <= i < s2.len() ==> #[trigger] s2[i] == s1[perm[i]],
        forall|i: int, j: int| 0 <= i < j < s1.len() ==> weight(#[trigger] s1[i].1) != weight(#[trigger] s1[j].1),
    ensures
        squarified(s1, area) == squarified(s2, area),
{
    let n = s1.len() as int;
    if n > 0 && area.width > 0 && area.height > 0 {
        crate::layout::lemma_distinct_below_covers(perm, n);
        lemma_rank_order_exists(s1);
        let o1 = rank_order_of(s1);
        let o2 = Seq::new(o1.len(), |k: int| (choose|i: int| 0 <= i < n && perm[i] == o1[k] as int) as usize);
        assert forall|k: int| 0 <= k < o1.len() implies 0 <= #[trigger] o2[k] < n && perm[o2[k] as int] == o1[k] as int by {
            assert(o1[k] < n);
            assert(perm.contains(o1[k] as int));
        }
        assert forall|q: int| 0 <= q < o1.len() implies #[trigger] s2[o2[q] as int] == s1[o1[q] as int] by {
            assert(perm[o2[q] as int] == o1[q] as int);
        }
        assert(is_rank_order(s2, o2)) by {
            assert forall|i: int| 0 <= i < o2.len() implies #[trigger] o2[i] < s2.len() by {}
            assert forall|i: int, j: int| 0 <= i < j < o2.len() implies comes_before(s2, #[trigger] o2[i] as int, #[trigger] o2[j] as int) by {
                assert(comes_before(s1, o1[i] as int, o1[j] as int));
                assert(o1[i] != o1[j]);
                assert(s2[o2[i] as int] == s1[o1[i] as int]);
                assert(s2[o2[j] as int] == s1[o1[j] as int]);
                if o1[i] < o1[j] {
                    assert(weight(s1[o1[i] as int].1) != weight(s1[o1[j] as int].1));
                } else {
                    assert(weight(s1[o1[j] as int].1) != weight(s1[o1[i] as int].1));
                }
            }
        }
        lemma_rank_order_exists(s2);
        lemma_rank_order_unique(s2, o2, rank_order_of(s2));
        let cells = area.width * area.height;
        lemma_rank_weight_prefix_matched(s1, o1, s2, o2, n);
        assert forall|k: int| 0 <= k < n implies #[trigger] ranked_areas(s1, o1, cells)[k] == ranked_areas(s2, o2, cells)[k] by {
            lemma_rank_weight_prefix_matched(s1, o1, s2, o2, k);
            lemma_rank_weight_prefix_matched(s1, o1, s2, o2, k + 1);
            assert(s2[o2[k] as int] == s1[o1[k] as int]);
        }
        assert(ranked_areas(s1, o1, cells) =~= ranked_areas(s2, o2, cells));
    }
}

} // verus!
