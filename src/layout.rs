use vstd::prelude::*;
use vstd::arithmetic::div_mod::{
    lemma_div_is_ordered, lemma_fundamental_div_mod, lemma_fundamental_div_mod_converse,
};
use vstd::set_lib::{lemma_int_range, lemma_subset_equality, set_int_range};
pub use crate::geometry::{BlockRect, Rect};
pub use crate::squarify::treemap;
use crate::geometry::{all_inside, pairwise_disjoint, total_area, disjoint, tiles, lemma_total_area_push};

verus! {

/// Layout weight of a size: a zero size counts as one, so that empty
/// entries stay visible (and an all-zero list gets equal weights).
pub open spec fn weight(s: u64) -> int {
    if s == 0 {
        1
    } else {
        s as int
    }
}

/// Position `p` of `s` is laid out before position `q`: heavier first, and
/// among equal weights the earlier position first.
pub open spec fn comes_before(s: Seq<(usize, u64)>, p: int, q: int) -> bool {
    weight(s[p].1) > weight(s[q].1) || (weight(s[p].1) == weight(s[q].1) && p < q)
}

/// `order` lists every position of `s` once, heaviest first.
pub open spec fn is_rank_order(s: Seq<(usize, u64)>, order: Seq<usize>) -> bool {
    &&& order.len() == s.len()
    &&& forall|i: int| 0 <= i < order.len() ==> #[trigger] order[i] < s.len()
    &&& forall|i: int, j: int|
        0 <= i < j < order.len() ==> comes_before(s, #[trigger] order[i] as int, #[trigger] order[j] as int)
}

/// Largest value a weight sum may have for `share` to compute exactly.
pub const SHARE_EXACT_LIMIT: u128 = 2596148429267413814265248164610048;

pub const SHARE_COARSE_UNIT: u128 = 4294967296;

/// `part / whole` of `span`, rounded to the nearest integer (halves up).
pub open spec fn share_spec(part: int, whole: int, span: int) -> int {
    (2 * part * span + whole) / (2 * whole)
}

/// `weight(s)`.
pub fn weight_of(s: u64) -> (w: u64)
    ensures
        w == weight(s),
        w >= 1,
{
    if s == 0 {
        1
    } else {
        s
    }
}

/// The positions of `sizes`, heaviest first, ties in the order they come in.
pub fn rank_order(sizes: &[(usize, u64)]) -> (order: Vec<usize>)
    ensures
        is_rank_order(sizes@, order@),
{
    let n = sizes.len();
    let mut order: Vec<usize> = Vec::new();
    let mut p: usize = 0;
    while p < n
        invariant
            n == sizes@.len(),
            p <= n,
            order@.len() == p,
            forall|i: int| 0 <= i < order@.len() ==> #[trigger] order@[i] < p,
            forall|i: int, j: int|
                0 <= i < j < order@.len() ==> comes_before(sizes@, #[trigger] order@[i] as int, #[trigger] order@[j] as int),
        decreases n - p,
    {
        let wp = weight_of(sizes[p].1);
        let mut i: usize = 0;
        while i < order.len() && weight_of(sizes[order[i]].1) >= wp
            invariant
                n == sizes@.len(),
                p < n,
                wp == weight(sizes@[p as int].1),
                i <= order@.len(),
                forall|k: int| 0 <= k < order@.len() ==> #[trigger] order@[k] < p,
                forall|k: int| 0 <= k < i ==> weight(sizes@[#[trigger] order@[k] as int].1) >= wp,
            decreases order@.len() - i,
        {
            i = i + 1;
        }
        let ghost old_order = order@;
        order.insert(i, p);
        assert forall|a: int, b: int|
            0 <= a < b < order@.len() implies comes_before(sizes@, #[trigger] order@[a] as int, #[trigger] order@[b] as int) by {
            if b < i {
                assert(order@[a] == old_order[a] && order@[b] == old_order[b]);
            } else if b == i {
                assert(order@[a] == old_order[a]);
            } else if a == i {
                assert(order@[b] == old_order[b - 1]);
                assert(weight(sizes@[old_order[i as int] as int].1) < wp);
                if b - 1 > i {
                    assert(comes_before(sizes@, old_order[i as int] as int, old_order[b - 1] as int));
                }
            } else if a < i {
                assert(order@[a] == old_order[a] && order@[b] == old_order[b - 1]);
            } else {
                assert(order@[a] == old_order[a - 1] && order@[b] == old_order[b - 1]);
                assert(comes_before(sizes@, old_order[a - 1] as int, old_order[b - 1] as int));
            }
        }
        assert forall|k: int| 0 <= k < order@.len() implies #[trigger] order@[k] < p + 1 by {
            if k < i {
                assert(order@[k] == old_order[k]);
            } else if k > i {
                assert(order@[k] == old_order[k - 1]);
            }
        }
        p = p + 1;
    }
    order
}

/// What `share` computes: `share_spec`, after dropping the low 32 bits of
/// both weights when `whole` reaches `SHARE_EXACT_LIMIT`; all of `span` when
/// `part` is at least `whole`.
pub open spec fn share_value(part: int, whole: int, span: int) -> int {
    if part >= whole {
        span
    } else if whole < SHARE_EXACT_LIMIT {
        share_spec(part, whole, span)
    } else {
        share_spec(part / SHARE_COARSE_UNIT as int, whole / SHARE_COARSE_UNIT as int, span)
    }
}

/// `part / whole` of `span`, rounded to the nearest integer; exact while
/// `whole` stays below `SHARE_EXACT_LIMIT`, coarser (dropping the low 32 bits
/// of both) above it.
pub fn share(part: u128, whole: u128, span: u16) -> (r: u16)
    requires
        0 < whole,
    ensures
        r <= span,
        r == share_value(part as int, whole as int, span as int),
        part <= whole && whole < SHARE_EXACT_LIMIT ==> r == share_spec(part as int, whole as int, span as int),
{
    if part >= whole {
        proof {
            if part == whole {
                assert((2 * part * span + whole) as int == (2 * whole) as int * span as int + whole as int)
                    by (nonlinear_arith)
                    requires
                        part == whole,
                ;
                lemma_fundamental_div_mod_converse(
                    (2 * part * span + whole) as int,
                    (2 * whole) as int,
                    span as int,
                    whole as int,
                );
            }
        }
        return span;
    }
    let (p, w) = if whole < SHARE_EXACT_LIMIT {
        (part, whole)
    } else {
        (part / SHARE_COARSE_UNIT, whole / SHARE_COARSE_UNIT)
    };
    assert(p <= w && 0 < w && w < SHARE_EXACT_LIMIT) by {
        if whole >= SHARE_EXACT_LIMIT {
            lemma_div_is_ordered(part as int, whole as int, SHARE_COARSE_UNIT as int);
            lemma_div_is_ordered(SHARE_COARSE_UNIT as int, whole as int, SHARE_COARSE_UNIT as int);
        }
    }
    let s = span as u128;
    assert(2 * p * s + w <= w * (2 * s + 1) && w * (2 * s + 1) < 0x1_0000_0000_0000_0000_0000_0000_0000_0000)
        by (nonlinear_arith)
        requires
            p <= w,
            0 < w < SHARE_EXACT_LIMIT,
            s < 65536,
    ;
    let r = (2 * p * s + w) / (2 * w);
    assert(r <= s) by (nonlinear_arith)
        requires
            r == (2 * p * s + w) / (2 * w),
            2 * p * s + w <= w * (2 * s + 1),
            0 < w,
    {
        assert((2 * p * s + w) / (2 * w) <= (w * (2 * s + 1)) / (2 * w)) by {
            lemma_div_is_ordered((2 * p * s + w) as int, (w * (2 * s + 1)) as int, (2 * w) as int);
        }
        assert(w * (2 * s + 1) == (2 * w) * s + w);
        lemma_fundamental_div_mod_converse((w * (2 * s + 1)) as int, (2 * w) as int, s as int, w as int);
    }
    r as u16
}

/// Number of grid rows tried from `r` on: the first that reaches `h`, or whose
/// square holds `n` items.
pub open spec fn rows_from(r: int, n: int, h: int) -> int
    decreases h - r,
{
    if r >= h || r * r >= n {
        r
    } else {
        rows_from(r + 1, n, h)
    }
}

/// Rows of the grid for `n` items in `h` lines: `ceil(sqrt(n))`, at least one,
/// at most `h`.
pub open spec fn grid_rows(n: int, h: int) -> int {
    rows_from(1, n, h)
}

/// Items that the round-robin puts in row `r`: ranks `r`, `r + rows`, ...
/// below `n`.
pub open spec fn row_len(n: int, rows: int, r: int) -> int {
    if r < n {
        (n - 1 - r) / rows + 1
    } else {
        0
    }
}

/// Items in the first `k` rows of the round-robin.
pub open spec fn rows_len_sum(n: int, rows: int, k: int) -> int
    decreases k,
{
    if k <= 0 {
        0
    } else {
        rows_len_sum(n, rows, k - 1) + row_len(n, rows, k - 1)
    }
}

proof fn lemma_row_len_step(n: int, rows: int, r: int)
    requires
        0 <= n,
        0 <= r < rows,
    ensures
        row_len(n + 1, rows, r) == row_len(n, rows, r) + (if n % rows == r { 1int } else { 0int }),
{
    lemma_fundamental_div_mod(n, rows);
    if r < n {
        let a = n - 1 - r;
        lemma_fundamental_div_mod(a, rows);
        let q = a / rows;
        let m = a % rows;
        if m + 1 < rows {
            lemma_fundamental_div_mod_converse(a + 1, rows, q, m + 1);
            if m + 1 + r < rows {
                lemma_fundamental_div_mod_converse(n, rows, q, m + 1 + r);
            } else {
                assert(n == (q + 1) * rows + (m + 1 + r - rows)) by (nonlinear_arith)
                    requires
                        n == a + 1 + r,
                        a == q * rows + m,
                ;
                lemma_fundamental_div_mod_converse(n, rows, q + 1, m + 1 + r - rows);
            }
        } else {
            assert(a + 1 == (q + 1) * rows + 0) by (nonlinear_arith)
                requires
                    a == q * rows + m,
                    m + 1 == rows,
            ;
            lemma_fundamental_div_mod_converse(a + 1, rows, q + 1, 0);
            assert(n == (q + 1) * rows + r) by (nonlinear_arith)
                requires
                    a + 1 == (q + 1) * rows,
                    n == a + 1 + r,
            ;
            lemma_fundamental_div_mod_converse(n, rows, q + 1, r);
        }
    } else if r == n {
        lemma_fundamental_div_mod_converse(n, rows, 0, n);
        assert(0int / rows == 0);
    } else {
        lemma_fundamental_div_mod_converse(n, rows, 0, n);
    }
}

proof fn lemma_rows_len_sum_step(n: int, rows: int, k: int)
    requires
        0 <= n,
        0 <= k <= rows,
        1 <= rows,
    ensures
        rows_len_sum(n + 1, rows, k) == rows_len_sum(n, rows, k) + (if n % rows < k { 1int } else { 0int }),
    decreases k,
{
    if k > 0 {
        lemma_rows_len_sum_step(n, rows, k - 1);
        lemma_row_len_step(n, rows, k - 1);
    }
}

/// The rows of the round-robin hold `n` items in all.
proof fn lemma_rows_len_total(n: int, rows: int)
    requires
        0 <= n,
        1 <= rows,
    ensures
        rows_len_sum(n, rows, rows) == n,
    decreases n,
{
    if n == 0 {
        lemma_rows_len_zero(rows, rows);
    } else {
        lemma_rows_len_total(n - 1, rows);
        lemma_rows_len_sum_step(n - 1, rows, rows);
        lemma_fundamental_div_mod(n - 1, rows);
    }
}

proof fn lemma_rows_len_zero(rows: int, k: int)
    requires
        0 <= k,
    ensures
        rows_len_sum(0, rows, k) == 0,
    decreases k,
{
    if k > 0 {
        lemma_rows_len_zero(rows, k - 1);
    }
}

/// Rows for `n` items in `h` lines.
pub fn grid_row_count(n: usize, h: u16) -> (rows: usize)
    requires
        1 <= n,
        1 <= h,
    ensures
        rows == grid_rows(n as int, h as int),
        1 <= rows <= h,
        rows <= n,
{
    let mut r: usize = 1;
    let mut done = false;
    while !done
        invariant
            1 <= r <= h,
            r <= n,
            rows_from(r as int, n as int, h as int) == grid_rows(n as int, h as int),
            done ==> (r >= h || r * r >= n),
        decreases h - r + (if done { 0int } else { 1int }),
    {
        if r >= h as usize {
            done = true;
        } else {
            assert(r * r < 0x1_0000_0000) by (nonlinear_arith)
                requires
                    r < 65536,
            ;
            if r * r >= n {
                done = true;
            } else {
                assert(r < n) by (nonlinear_arith)
                    requires
                        1 <= r,
                        r * r < n,
                ;
                r = r + 1;
            }
        }
    }
    r
}

/// Some entry of `sizes` has index `idx`.
pub open spec fn has_index(sizes: Seq<(usize, u64)>, idx: usize) -> bool {
    exists|p: int| 0 <= p < sizes.len() && sizes[p].0 == idx
}

/// The order in which the layouts take the items is determined by the sizes
/// alone: ties are broken by position, so there is exactly one rank order.
pub proof fn lemma_rank_order_unique(s: Seq<(usize, u64)>, o1: Seq<usize>, o2: Seq<usize>)
    requires
        is_rank_order(s, o1),
        is_rank_order(s, o2),
    ensures
        o1 == o2,
{
    lemma_rank_order_covers(s, o1);
    lemma_rank_order_covers(s, o2);
    assert forall|i: int| 0 <= i < o1.len() implies o1[i] == o2[i] by {
        lemma_rank_order_prefix_agrees(s, o1, o2, i);
    }
    assert(o1 =~= o2);
}

proof fn lemma_rank_order_prefix_agrees(s: Seq<(usize, u64)>, o1: Seq<usize>, o2: Seq<usize>, i: int)
    requires
        is_rank_order(s, o1),
        is_rank_order(s, o2),
        0 <= i < o1.len(),
        forall|p: int| 0 <= p < s.len() ==> #[trigger] lists_position(o1, p),
        forall|p: int| 0 <= p < s.len() ==> #[trigger] lists_position(o2, p),
    ensures
        forall|k: int| 0 <= k <= i ==> o1[k] == o2[k],
    decreases i,
{
    if i > 0 {
        lemma_rank_order_prefix_agrees(s, o1, o2, i - 1);
    }
    let a = o1[i] as int;
    let b = o2[i] as int;
    if a != b {
        assert(lists_position(o2, a));
        let j = choose|j: int| 0 <= j < o2.len() && o2[j] == a;
        if j < i {
            assert(o1[j] == o2[j]);
            assert(comes_before(s, o1[j] as int, o1[i] as int));
        }
        assert(j > i);
        assert(comes_before(s, b, a));
        assert(lists_position(o1, b));
        let j2 = choose|j2: int| 0 <= j2 < o1.len() && o1[j2] == b;
        if j2 < i {
            assert(o1[j2] == o2[j2]);
            assert(comes_before(s, o2[j2] as int, o2[i] as int));
        }
        assert(j2 > i);
        assert(comes_before(s, a, b));
    }
}

/// Some block carries index `idx`.
pub open spec fn has_block(bs: Seq<BlockRect>, idx: usize) -> bool {
    exists|k: int| 0 <= k < bs.len() && bs[k].index == idx
}

/// Every block carries the index of some entry of `sizes`.
pub open spec fn indices_from(bs: Seq<BlockRect>, sizes: Seq<(usize, u64)>) -> bool {
    forall|k: int| 0 <= k < bs.len() ==> has_index(sizes, #[trigger] bs[k].index)
}

/// Sum of the weights of the first `k` entries of `s`.
pub open spec fn weight_sum(s: Seq<(usize, u64)>, k: int) -> int
    decreases k,
{
    if k <= 0 {
        0
    } else {
        weight_sum(s, k - 1) + weight(s[k - 1].1)
    }
}

/// Sum of the weights of the ranks `j`, `j + rows`, ... of `o`.
pub open spec fn band_weight(s: Seq<(usize, u64)>, o: Seq<usize>, rows: int, j: int) -> int
    decreases o.len() - j,
{
    if rows <= 0 || j < 0 || j >= o.len() {
        0
    } else {
        weight(s[o[j] as int].1) + (if j + rows < o.len() { band_weight(s, o, rows, j + rows) } else { 0 })
    }
}

/// Height of band `r`: its share of the total weight, at least one line,
/// leaving one line for each later band; the last band takes what is left.
pub open spec fn band_height(band: int, total: int, height: int, rem_h: int, rows: int, r: int) -> int {
    if r == rows - 1 {
        rem_h
    } else {
        let h0 = share_value(band, total, height);
        let h1 = if h0 == 0 { 1 } else { h0 };
        let max_h = rem_h - (rows - r - 1);
        if h1 > max_h { max_h } else { h1 }
    }
}

/// Width of a grid item: its share of its band's weight, at least one
/// column, leaving one column for each later item of the band; the last item
/// takes the rest of the band.
pub open spec fn grid_item_width(wgt: int, band: int, width: int, room: int, left_after: int) -> int {
    if left_after == 0 {
        room
    } else {
        let w0 = share_value(wgt, band, width);
        let w = if w0 == 0 { 1 } else { w0 };
        let cap = if room > left_after { room - left_after } else { 0 };
        if w > cap { cap } else { w }
    }
}

/// The blocks of band `r` from its `t`-th item (rank `r + t * rows`) on,
/// `used` columns in: full-width, `h` lines high at line `y`, each block
/// starting where the one before ends.
pub open spec fn grid_band(
    s: Seq<(usize, u64)>,
    o: Seq<usize>,
    rows: int,
    r: int,
    area: Rect,
    y: int,
    h: int,
    band: int,
    cnt: int,
    t: int,
    used: int,
) -> Seq<BlockRect>
    decreases cnt - t,
{
    if t < 0 || t >= cnt {
        Seq::empty()
    } else {
        let j = r + t * rows;
        let w = grid_item_width(weight(s[o[j] as int].1), band, area.width as int, area.width - used, cnt - 1 - t);
        seq![BlockRect { index: s[o[j] as int].0, rect: Rect { x: (area.x + used) as u16, y: y as u16, width: w as u16, height: h as u16 } }]
            + grid_band(s, o, rows, r, area, y, h, band, cnt, t + 1, used + w)
    }
}

/// The bands from band `r` on, starting at line `y` with `rem_h` lines left.
pub open spec fn grid_bands(
    s: Seq<(usize, u64)>,
    o: Seq<usize>,
    rows: int,
    total: int,
    area: Rect,
    r: int,
    y: int,
    rem_h: int,
) -> Seq<BlockRect>
    decreases rows - r,
{
    if r < 0 || r >= rows {
        Seq::empty()
    } else {
        let band = band_weight(s, o, rows, r);
        let h = band_height(band, total, area.height as int, rem_h, rows, r);
        let cnt = (s.len() - 1 - r) / rows + 1;
        grid_band(s, o, rows, r, area, y, h, band, cnt, 0, 0) + grid_bands(s, o, rows, total, area, r + 1, y + h, rem_h - h)
    }
}

/// The grid layout of `sizes` in `area`: `grid_rows` full-width bands
/// stacked from the top, the item of rank `k` in band `k % rows`.
pub open spec fn grid(sizes: Seq<(usize, u64)>, area: Rect) -> Seq<BlockRect> {
    if sizes.len() == 0 || area.width == 0 || area.height == 0 {
        Seq::empty()
    } else {
        grid_bands(
            sizes,
            crate::squarify::rank_order_of(sizes),
            grid_rows(sizes.len() as int, area.height as int),
            weight_sum(sizes, sizes.len() as int),
            area,
            0,
            area.y as int,
            area.height as int,
        )
    }
}

/// Sum of the weights of the ranks `r`, `r + rows`, ... below `n`.
fn row_weight(sizes: &[(usize, u64)], order: &Vec<usize>, r: usize, rows: usize) -> (sum: u128)
    requires
        is_rank_order(sizes@, order@),
        r < rows,
        r < sizes@.len(),
    ensures
        0 < sum,
        sum == band_weight(sizes@, order@, rows as int, r as int),
{
    let n = order.len();
    let mut sum: u128 = 0;
    let mut j: usize = r;
    let mut t: usize = 0;
    while j < n
        invariant
            n == order@.len() == sizes@.len(),
            r <= j <= n,
            r < rows,
            t <= j,
            sum <= t * 0xFFFF_FFFF_FFFF_FFFFu128,
            j > r ==> sum > 0,
            is_rank_order(sizes@, order@),
            sum + band_weight(sizes@, order@, rows as int, j as int) == band_weight(sizes@, order@, rows as int, r as int),
        decreases n - j,
    {
        assert(sum + 0xFFFF_FFFF_FFFF_FFFFu128 <= (t + 1) * 0xFFFF_FFFF_FFFF_FFFFu128 <= 0xFFFF_FFFF_FFFF_FFFF_FFFF_FFFF_FFFF_FFFFu128) by (nonlinear_arith)
            requires
                sum <= t * 0xFFFF_FFFF_FFFF_FFFFu128,
                t < 0x1_0000_0000_0000_0000int,
        ;
        sum = sum + weight_of(sizes[order[j]].1) as u128;
        t = t + 1;
        if n - j <= rows {
            assert(band_weight(sizes@, order@, rows as int, j + rows) == 0);
            j = n;
        } else {
            j = j + rows;
        }
    }
    sum
}

/// `n` distinct values below `n` are all of them.
pub proof fn lemma_distinct_below_covers(s: Seq<int>, n: int)
    requires
        s.len() == n,
        forall|i: int| 0 <= i < s.len() ==> 0 <= #[trigger] s[i] < n,
        forall|i: int, j: int| 0 <= i < j < s.len() ==> #[trigger] s[i] != #[trigger] s[j],
    ensures
        forall|p: int| 0 <= p < n ==> #[trigger] s.contains(p),
{
    assert(s.no_duplicates());
    s.unique_seq_to_set();
    lemma_int_range(0, n);
    assert(s.to_set().subset_of(set_int_range(0, n)));
    lemma_subset_equality(s.to_set(), set_int_range(0, n));
    assert forall|p: int| 0 <= p < n implies #[trigger] s.contains(p) by {
        assert(set_int_range(0, n).contains(p));
        assert(s.to_set().contains(p));
    }
}

/// Position `p` occurs in `order`.
pub open spec fn lists_position(order: Seq<usize>, p: int) -> bool {
    exists|j: int| 0 <= j < order.len() && order[j] == p
}

/// A rank order lists every position.
pub proof fn lemma_rank_order_covers(s: Seq<(usize, u64)>, order: Seq<usize>)
    requires
        is_rank_order(s, order),
    ensures
        forall|p: int| 0 <= p < s.len() ==> #[trigger] lists_position(order, p),
{
    let o = order.map_values(|x: usize| x as int);
    assert forall|i: int, j: int| 0 <= i < j < o.len() implies #[trigger] o[i] != #[trigger] o[j] by {
        assert(comes_before(s, order[i] as int, order[j] as int));
    }
    lemma_distinct_below_covers(o, s.len() as int);
    assert forall|p: int| 0 <= p < s.len() implies #[trigger] lists_position(order, p) by {
        assert(o.contains(p));
        let j = choose|j: int| 0 <= j < o.len() && o[j] == p;
        assert(order[j] == p);
    }
}

/// Grid layout: the items, heaviest first, are dealt round-robin into
/// `grid_rows(n, height)` rows. A row is as tall as its share of the total
/// weight (at least one line, leaving one line for each later row; the last
/// row takes what is left) and an item as wide as its share of its row's
/// weight (at least one column, leaving one column for each later item of
/// the row; the last item takes what is left).
///
/// The blocks always cover `area` exactly, every row at least one line high;
/// when no row holds more items than `area` has columns, each block is also
/// at least one column wide.
pub fn grid_layout(sizes: &[(usize, u64)], area: Rect) -> (out: Vec<BlockRect>)
    requires
        area.wf(),
    ensures
        out@ == grid(sizes@, area),
        sizes@.len() == 0 || area.width == 0 || area.height == 0 ==> out@.len() == 0,
        sizes@.len() > 0 && area.width > 0 && area.height > 0 ==> {
            &&& out@.len() == sizes@.len()
            &&& tiles(out@, area)
            &&& indices_from(out@, sizes@)
            &&& forall|p: int| 0 <= p < sizes@.len() ==> #[trigger] has_block(out@, sizes@[p].0)
            &&& forall|k: int| 0 <= k < out@.len() ==> #[trigger] out@[k].rect.height >= 1
            &&& sizes@.len() <= grid_rows(sizes@.len() as int, area.height as int) * area.width
                ==> forall|k: int| 0 <= k < out@.len() ==> #[trigger] out@[k].rect.width >= 1
        },
{
    let n = sizes.len();
    if n == 0 || area.width == 0 || area.height == 0 {
        return Vec::new();
    }
    let order = rank_order(sizes);
    let mut total: u128 = 0;
    let mut i: usize = 0;
    while i < n
        invariant
            n == sizes@.len(),
            i <= n,
            total <= i * 0xFFFF_FFFF_FFFF_FFFFu128,
            i > 0 ==> total > 0,
            total == weight_sum(sizes@, i as int),
        decreases n - i,
    {
        assert(total + 0xFFFF_FFFF_FFFF_FFFFu128 <= (i + 1) * 0xFFFF_FFFF_FFFF_FFFFu128 <= 0xFFFF_FFFF_FFFF_FFFF_FFFF_FFFF_FFFF_FFFFu128) by (nonlinear_arith)
            requires
                total <= i * 0xFFFF_FFFF_FFFF_FFFFu128,
                i < 0x1_0000_0000_0000_0000int,
        ;
        total = total + weight_of(sizes[i].1) as u128;
        i = i + 1;
    }
    let rows = grid_row_count(n, area.height);
    proof {
        assert(is_rank_order(sizes@, order@));
        lemma_rank_order_unique(sizes@, order@, crate::squarify::rank_order_of(sizes@));
    }
    let ghost goal = grid(sizes@, area);
    let ghost wide_enough = n <= rows * area.width;
    let mut out: Vec<BlockRect> = Vec::new();
    let mut y: u16 = area.y;
    let mut rem_h: u16 = area.height;
    let mut r: usize = 0;
    let ghost mut ranks: Seq<int> = Seq::empty();
    proof {
        if wide_enough {
            lemma_fundamental_div_mod(n - 1, rows as int);
            assert((n - 1) / (rows as int) < area.width) by (nonlinear_arith)
                requires
                    n - 1 == rows * ((n - 1) / (rows as int)) + (n - 1) % (rows as int),
                    0 <= (n - 1) % (rows as int),
                    n <= rows * area.width,
                    rows >= 1,
            ;
        }
    }
    while r < rows
        invariant
            n == sizes@.len(),
            1 <= rows <= area.height,
            rows <= n,
            0 < total,
            is_rank_order(sizes@, order@),
            area.wf(),
            area.width > 0,
            wide_enough == (n <= rows * area.width),
            wide_enough ==> (n - 1) / (rows as int) < area.width,
            r <= rows,
            y + rem_h == area.y + area.height,
            area.y <= y,
            r < rows ==> rem_h >= rows - r,
            r == rows ==> rem_h == 0,
            out@.len() == rows_len_sum(n as int, rows as int, r as int),
            all_inside(out@, area),
            pairwise_disjoint(out@),
            forall|k: int| 0 <= k < out@.len() ==> (#[trigger] out@[k]).rect.y + out@[k].rect.height <= y,
            forall|k: int| 0 <= k < out@.len() ==> (#[trigger] out@[k]).rect.height >= 1,
            wide_enough ==> forall|k: int| 0 <= k < out@.len() ==> (#[trigger] out@[k]).rect.width >= 1,
            total_area(out@) == area.width * (y - area.y),
            indices_from(out@, sizes@),
            ranks.len() == out@.len(),
            forall|k: int| 0 <= k < ranks.len() ==> 0 <= #[trigger] ranks[k] < n && out@[k].index == sizes@[order@[ranks[k]] as int].0,
            forall|k: int| 0 <= k < ranks.len() ==> #[trigger] ranks[k] % (rows as int) < r,
            forall|a: int, b: int| 0 <= a < b < ranks.len() ==> #[trigger] ranks[a] != #[trigger] ranks[b],
            total == weight_sum(sizes@, n as int),
            out@ + grid_bands(sizes@, order@, rows as int, total as int, area, r as int, y as int, rem_h as int) == goal,
        decreases rows - r,
    {
        let row_sum = row_weight(sizes, &order, r, rows);
        let mut h = share(row_sum, total, area.height);
        if h == 0 {
            h = 1;
        }
        let max_h = rem_h - (rows - r - 1) as u16;
        if h > max_h {
            h = max_h;
        }
        if r == rows - 1 {
            h = rem_h;
        }
        let cnt = (n - 1 - r) / rows + 1;
        proof {
            lemma_div_is_ordered((n - 1 - r) as int, (n - 1) as int, rows as int);
            lemma_fundamental_div_mod((n - 1 - r) as int, rows as int);
            assert(r + (cnt - 1) * rows < n) by (nonlinear_arith)
                requires
                    cnt - 1 == (n - 1 - r) / (rows as int),
                    (n - 1 - r) == rows * ((n - 1 - r) / (rows as int)) + (n - 1 - r) % (rows as int),
                    0 <= (n - 1 - r) % (rows as int),
            ;
        }
        let ghost base = out@.len();
        let mut x: u16 = area.x;
        let mut used: u16 = 0;
        let mut t: usize = 0;
        let mut j: usize = r;
        let ghost after = grid_bands(sizes@, order@, rows as int, total as int, area, r + 1, (y + h) as int, (rem_h - h) as int);
        proof {
            assert(h == band_height(row_sum as int, total as int, area.height as int, rem_h as int, rows as int, r as int));
            assert(grid_bands(sizes@, order@, rows as int, total as int, area, r as int, y as int, rem_h as int)
                == grid_band(sizes@, order@, rows as int, r as int, area, y as int, h as int, row_sum as int, cnt as int, 0, 0) + after);
            assert(out@ + (grid_band(sizes@, order@, rows as int, r as int, area, y as int, h as int, row_sum as int, cnt as int, 0, 0) + after)
                =~= out@ + grid_band(sizes@, order@, rows as int, r as int, area, y as int, h as int, row_sum as int, cnt as int, 0, 0) + after);
        }
        while t < cnt
            invariant
                out@ + grid_band(sizes@, order@, rows as int, r as int, area, y as int, h as int, row_sum as int, cnt as int, t as int, used as int) + after == goal,
                n == sizes@.len(),
                is_rank_order(sizes@, order@),
                1 <= rows <= n,
                r < rows,
                cnt == row_len(n as int, rows as int, r as int),
                r + (cnt - 1) * rows < n,
                wide_enough ==> cnt <= area.width,
                t <= cnt,
                t < cnt ==> j == r + t * rows,
                0 < row_sum,
                area.wf(),
                area.width > 0,
                x == area.x + used,
                area.y <= y,
                used <= area.width,
                wide_enough ==> area.width - used >= cnt - t,
                t < cnt ==> used < area.width || !wide_enough,
                t == cnt ==> used == area.width,
                1 <= h <= rem_h,
                y + rem_h == area.y + area.height,
                out@.len() == base + t,
                all_inside(out@, area),
                pairwise_disjoint(out@),
                forall|k: int| 0 <= k < base ==> (#[trigger] out@[k]).rect.y + out@[k].rect.height <= y,
                forall|k: int|
                    base <= k < out@.len() ==> (#[trigger] out@[k]).rect.y == y && out@[k].rect.height == h
                        && out@[k].rect.x + out@[k].rect.width <= x,
                forall|k: int| 0 <= k < out@.len() ==> (#[trigger] out@[k]).rect.height >= 1,
                wide_enough ==> forall|k: int| 0 <= k < out@.len() ==> (#[trigger] out@[k]).rect.width >= 1,
                total_area(out@) == area.width * (y - area.y) + h * used,
                indices_from(out@, sizes@),
                ranks.len() == out@.len(),
                forall|k: int| 0 <= k < ranks.len() ==> 0 <= #[trigger] ranks[k] < n && out@[k].index == sizes@[order@[ranks[k]] as int].0,
                forall|k: int| 0 <= k < base ==> #[trigger] ranks[k] % (rows as int) < r,
                forall|k: int| base <= k < ranks.len() ==> #[trigger] ranks[k] == r + (k - base) * rows,
                forall|a: int, b: int| 0 <= a < b < ranks.len() ==> #[trigger] ranks[a] != #[trigger] ranks[b],
            decreases cnt - t,
        {
            proof {
                assert(j < n) by (nonlinear_arith)
                    requires
                        j == r + t * rows,
                        t <= cnt - 1,
                        r + (cnt - 1) * rows < n,
                        rows >= 1,
                ;
            }
            let p = order[j];
            let wgt = weight_of(sizes[p].1);
            let left_after = cnt - 1 - t;
            let mut w = share(wgt as u128, row_sum, area.width);
            if w == 0 {
                w = 1;
            }
            let room: usize = (area.width - used) as usize;
            let cap: u16 = if room > left_after {
                (room - left_after) as u16
            } else {
                0
            };
            if w > cap {
                w = cap;
            }
            if t == cnt - 1 {
                w = area.width - used;
            }
            let b = BlockRect { index: sizes[p].0, rect: Rect { x, y, width: w, height: h } };
            proof {
                assert(w == grid_item_width(wgt as int, row_sum as int, area.width as int, (area.width - used) as int, (cnt - 1 - t) as int));
                let g = grid_band(sizes@, order@, rows as int, r as int, area, y as int, h as int, row_sum as int, cnt as int, t as int, used as int);
                let g2 = grid_band(sizes@, order@, rows as int, r as int, area, y as int, h as int, row_sum as int, cnt as int, t + 1, used + w);
                assert(g == seq![b] + g2);
                assert(out@.push(b) + g2 + after =~= out@ + g + after);
            }
            proof {
                lemma_total_area_push(out@, b);
                assert(h * (used + w) == h * used + h * w) by (nonlinear_arith);
                assert(b.rect.area() == h * w) by (nonlinear_arith)
                    requires
                        b.rect.width == w,
                        b.rect.height == h,
                ;
                assert forall|a: int, c: int|
                    0 <= a < c < out@.len() + 1 implies #[trigger] disjoint(out@.push(b)[a].rect, out@.push(b)[c].rect) by {
                    if c == out@.len() {
                        assert(out@.push(b)[a] == out@[a]);
                    } else {
                        assert(out@.push(b)[a] == out@[a] && out@.push(b)[c] == out@[c]);
                    }
                }
                assert forall|k: int| 0 <= k < out@.len() + 1 implies has_index(sizes@, #[trigger] out@.push(b)[k].index) by {
                    if k == out@.len() {
                        assert(out@.push(b)[k].index == sizes@[p as int].0);
                    } else {
                        assert(out@.push(b)[k] == out@[k]);
                    }
                }
            }
            proof {
                lemma_fundamental_div_mod_converse(j as int, rows as int, t as int, r as int);
                assert forall|a: int| 0 <= a < ranks.len() implies #[trigger] ranks[a] != j by {
                    if a >= base {
                        assert(r + (a - base) * rows < r + t * rows) by (nonlinear_arith)
                            requires
                                a - base < t,
                                rows >= 1,
                        ;
                    } else {
                        assert(ranks[a] % (rows as int) < r);
                    }
                }
                let ghost old_ranks = ranks;
                ranks = ranks.push(j as int);
                assert forall|a: int, c: int| 0 <= a < c < ranks.len() implies #[trigger] ranks[a] != #[trigger] ranks[c] by {
                    if c < old_ranks.len() {
                        assert(ranks[a] == old_ranks[a] && ranks[c] == old_ranks[c]);
                    } else {
                        assert(ranks[a] == old_ranks[a]);
                    }
                }
                assert forall|k: int| base <= k < ranks.len() implies #[trigger] ranks[k] == r + (k - base) * rows by {
                    if k < old_ranks.len() {
                        assert(ranks[k] == old_ranks[k]);
                    }
                }
                assert forall|k: int| 0 <= k < base implies #[trigger] ranks[k] % (rows as int) < r by {
                    assert(ranks[k] == old_ranks[k]);
                }
                assert forall|k: int| 0 <= k < ranks.len() implies 0 <= #[trigger] ranks[k] < n && out@.push(b)[k].index == sizes@[order@[ranks[k]] as int].0 by {
                    if k < old_ranks.len() {
                        assert(ranks[k] == old_ranks[k]);
                        assert(out@.push(b)[k] == out@[k]);
                    }
                }
            }
            out.push(b);
            x = x + w;
            used = used + w;
            t = t + 1;
            if t < cnt {
                assert(j + rows <= r + (cnt - 1) * rows && j + rows == r + t * rows) by (nonlinear_arith)
                    requires
                        j == r + (t - 1) * rows,
                        t <= cnt - 1,
                ;
                j = j + rows;
            }
        }
        proof {
            assert forall|k: int| 0 <= k < ranks.len() implies #[trigger] ranks[k] % (rows as int) < r + 1 by {
                if k >= base {
                    assert(0 <= k - base);
                    lemma_fundamental_div_mod_converse(ranks[k], rows as int, k - base, r as int);
                }
            }
            assert(area.width * (y - area.y) + h * area.width == area.width * (y + h - area.y))
                by (nonlinear_arith);
            assert(grid_band(sizes@, order@, rows as int, r as int, area, y as int, h as int, row_sum as int, cnt as int, t as int, used as int) =~= Seq::<BlockRect>::empty());
            assert(out@ + Seq::<BlockRect>::empty() =~= out@);
        }
        y = y + h;
        rem_h = rem_h - h;
        r = r + 1;
    }
    proof {
        lemma_rows_len_total(n as int, rows as int);
        assert(out@ + Seq::<BlockRect>::empty() =~= out@);
        lemma_distinct_below_covers(ranks, n as int);
        lemma_rank_order_covers(sizes@, order@);
        assert forall|p: int| 0 <= p < sizes@.len() implies #[trigger] has_block(out@, sizes@[p].0) by {
            assert(lists_position(order@, p));
            let j = choose|j: int| 0 <= j < order@.len() && order@[j] == p;
            assert(ranks.contains(j));
            let k = choose|k: int| 0 <= k < ranks.len() && ranks[k] == j;
            assert(out@[k].index == sizes@[order@[ranks[k]] as int].0);
        }
    }
    out
}

} // verus!
