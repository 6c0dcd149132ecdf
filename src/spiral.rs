//! An inward clockwise spiral over a `w` by `h` grid: from (0, 0) down the
//! left edge, across the bottom, up the right edge and back along the top,
//! then the same on the ring one cell further in.
use vstd::prelude::*;

verus! {

/// The smaller of two integers.
pub open spec fn min_int(a: int, b: int) -> int {
    if a < b {
        a
    } else {
        b
    }
}

/// Index of the first cell of ring `l`: the cells of the outer rings.
pub open spec fn ring_start(w: int, h: int, l: int) -> int {
    w * h - (w - 2 * l) * (h - 2 * l)
}

/// The innermost ring.
pub open spec fn max_level(w: int, h: int) -> int {
    (min_int(w, h) - 1) / 2
}

/// Index `i` lies on ring `l`.
pub open spec fn is_level(w: int, h: int, i: int, l: int) -> bool {
    &&& 0 <= l <= max_level(w, h)
    &&& ring_start(w, h, l) <= i
    &&& (l == max_level(w, h) || i < ring_start(w, h, l + 1))
}

/// The ring that index `i` lies on.
pub open spec fn level_of(w: int, h: int, i: int) -> int {
    choose|l: int| is_level(w, h, i, l)
}

/// Cell number `r` of ring `l`, counted from its top-left corner.
pub open spec fn ring_coord(w: int, h: int, l: int, r: int) -> (int, int) {
    let a = w - 2 * l;
    let b = h - 2 * l;
    if a == 1 {
        (l, l + r)
    } else if b == 1 {
        (l + r, l)
    } else if r < b - 1 {
        (l, l + r)
    } else if r < (b - 1) + (a - 1) {
        (l + (r - (b - 1)), l + b - 1)
    } else if r < 2 * (b - 1) + (a - 1) {
        (l + a - 1, l + b - 1 - (r - (b - 1) - (a - 1)))
    } else {
        (l + a - 1 - (r - 2 * (b - 1) - (a - 1)), l)
    }
}

/// The cell that the spiral visits at step `i`.
pub open spec fn spiral_at(w: int, h: int, i: int) -> (int, int) {
    let l = level_of(w, h, i);
    ring_coord(w, h, l, i - ring_start(w, h, l))
}

/// The ring of a cell: its distance to the nearest border.
pub open spec fn ring_of_cell(w: int, h: int, x: int, y: int) -> int {
    min_int(min_int(x, y), min_int(w - 1 - x, h - 1 - y))
}

/// Position of a cell on ring `l`.
pub open spec fn ring_offset(w: int, h: int, l: int, x: int, y: int) -> int {
    let a = w - 2 * l;
    let b = h - 2 * l;
    if a == 1 {
        y - l
    } else if b == 1 {
        x - l
    } else if x == l && y < l + b - 1 {
        y - l
    } else if y == l + b - 1 && x < l + a - 1 {
        (b - 1) + (x - l)
    } else if x == l + a - 1 && y > l {
        (b - 1) + (a - 1) + (l + b - 1 - y)
    } else {
        2 * (b - 1) + (a - 1) + (l + a - 1 - x)
    }
}

/// The step at which the spiral visits a cell.
pub open spec fn spiral_index(w: int, h: int, x: int, y: int) -> int {
    let l = ring_of_cell(w, h, x, y);
    ring_start(w, h, l) + ring_offset(w, h, l, x, y)
}

/// Number of cells on ring `l`.
pub open spec fn ring_cells(w: int, h: int, l: int) -> int {
    let a = w - 2 * l;
    let b = h - 2 * l;
    if a == 1 || b == 1 {
        a * b
    } else {
        2 * (a - 1) + 2 * (b - 1)
    }
}

/// Each ring is a non-empty rectangle outline; rings before the last are
/// at least three cells wide, and the last one closes the grid.
proof fn lemma_ring_sizes(w: int, h: int, l: int)
    requires
        w >= 1,
        h >= 1,
        0 <= l <= max_level(w, h),
    ensures
        w - 2 * l >= 1,
        h - 2 * l >= 1,
        l < max_level(w, h) ==> w - 2 * l >= 3 && h - 2 * l >= 3,
        l < max_level(w, h) ==> ring_start(w, h, l + 1) == ring_start(w, h, l) + ring_cells(w, h, l),
        l == max_level(w, h) ==> ring_start(w, h, l) + ring_cells(w, h, l) == w * h,
        ring_start(w, h, l) + ring_cells(w, h, l) <= w * h,
        ring_start(w, h, l) >= 0,
{
    let a = w - 2 * l;
    let b = h - 2 * l;
    assert(w * h - a * b == ring_start(w, h, l));
    assert(a * b >= 1) by (nonlinear_arith)
        requires a >= 1, b >= 1;
    assert(w * h >= a * b) by (nonlinear_arith)
        requires w >= a, h >= b, a >= 1, b >= 1;
    if l < max_level(w, h) {
        assert(ring_start(w, h, l + 1) == w * h - (a - 2) * (b - 2)) by (nonlinear_arith)
            requires a == w - 2 * l, b == h - 2 * l;
        assert((a - 2) * (b - 2) == a * b - 2 * a - 2 * b + 4) by (nonlinear_arith);
        assert((a - 2) * (b - 2) >= 1) by (nonlinear_arith)
            requires a >= 3, b >= 3;
    } else {
        assert(a <= 2 || b <= 2);
        if a == 2 {
            assert(a * b == 2 * b);
        } else if b == 2 {
            assert(a * b == 2 * a) by (nonlinear_arith)
                requires b == 2;
        }
    }
}

/// Inner rings start later.
proof fn lemma_ring_start_mono(w: int, h: int, l1: int, l2: int)
    requires
        w >= 1,
        h >= 1,
        0 <= l1 <= l2 <= max_level(w, h),
    ensures
        ring_start(w, h, l1) <= ring_start(w, h, l2),
{
    let (a1, b1, a2, b2) = (w - 2 * l1, h - 2 * l1, w - 2 * l2, h - 2 * l2);
    lemma_ring_sizes(w, h, l2);
    assert(a2 * b2 <= a1 * b1) by (nonlinear_arith)
        requires a1 >= a2 >= 1, b1 >= b2 >= 1;
}

/// An index lies on one ring only.
proof fn lemma_level_unique(w: int, h: int, i: int, l: int)
    requires
        w >= 1,
        h >= 1,
        is_level(w, h, i, l),
    ensures
        level_of(w, h, i) == l,
{
    let l2 = level_of(w, h, i);
    assert(is_level(w, h, i, l2));
    if l2 < l {
        lemma_ring_start_mono(w, h, l2 + 1, l);
    } else if l < l2 {
        lemma_ring_start_mono(w, h, l + 1, l2);
    }
}

/// Every index past the start of ring `l` lies on some ring.
proof fn lemma_level_exists(w: int, h: int, i: int, l: int)
    requires
        w >= 1,
        h >= 1,
        0 <= l <= max_level(w, h),
        ring_start(w, h, l) <= i,
    ensures
        is_level(w, h, i, level_of(w, h, i)),
    decreases max_level(w, h) - l,
{
    if l < max_level(w, h) && ring_start(w, h, l + 1) <= i {
        lemma_level_exists(w, h, i, l + 1);
    } else {
        assert(is_level(w, h, i, l));
    }
}

/// The spiral is a bijection between the steps `0 .. w * h` and the cells
/// of the grid: each step visits a cell inside the grid, `spiral_index` is
/// its step, and each cell is visited at the step `spiral_index` gives.
pub proof fn lemma_spiral_bijection(w: int, h: int)
    requires
        w >= 1,
        h >= 1,
    ensures
        forall|i: int|
            0 <= i < w * h ==> {
                let c = #[trigger] spiral_at(w, h, i);
                0 <= c.0 < w && 0 <= c.1 < h && spiral_index(w, h, c.0, c.1) == i
            },
        forall|x: int, y: int|
            0 <= x < w && 0 <= y < h ==> {
                let i = #[trigger] spiral_index(w, h, x, y);
                0 <= i < w * h && spiral_at(w, h, i) == (x, y)
            },
{
    assert forall|i: int| 0 <= i < w * h implies {
        let c = #[trigger] spiral_at(w, h, i);
        0 <= c.0 < w && 0 <= c.1 < h && spiral_index(w, h, c.0, c.1) == i
    } by {
        lemma_visit_in_grid(w, h, i);
    }
    assert forall|x: int, y: int| 0 <= x < w && 0 <= y < h implies {
        let i = #[trigger] spiral_index(w, h, x, y);
        0 <= i < w * h && spiral_at(w, h, i) == (x, y)
    } by {
        lemma_cell_visited(w, h, x, y);
    }
}

/// Step `i` visits a cell of the grid whose index is `i`.
proof fn lemma_visit_in_grid(w: int, h: int, i: int)
    requires
        w >= 1,
        h >= 1,
        0 <= i < w * h,
    ensures
        ({
            let c = spiral_at(w, h, i);
            0 <= c.0 < w && 0 <= c.1 < h && spiral_index(w, h, c.0, c.1) == i
        }),
{
    assert(ring_start(w, h, 0) == 0);
    lemma_level_exists(w, h, i, 0);
    let l = level_of(w, h, i);
    lemma_ring_sizes(w, h, l);
    let r = i - ring_start(w, h, l);
    assert(0 <= r < ring_cells(w, h, l));
    let a = w - 2 * l;
    let b = h - 2 * l;
    if a == 1 {
        assert(r < b) by (nonlinear_arith)
            requires r < a * b, a == 1;
    } else if b == 1 {
        assert(r < a) by (nonlinear_arith)
            requires r < a * b, b == 1;
    }
    let c = ring_coord(w, h, l, r);
    assert(ring_of_cell(w, h, c.0, c.1) == l);
}

/// A cell is visited at the step that its index gives.
proof fn lemma_cell_visited(w: int, h: int, x: int, y: int)
    requires
        w >= 1,
        h >= 1,
        0 <= x < w,
        0 <= y < h,
    ensures
        ({
            let i = spiral_index(w, h, x, y);
            0 <= i < w * h && spiral_at(w, h, i) == (x, y)
        }),
{
    let l = ring_of_cell(w, h, x, y);
    assert(0 <= l <= max_level(w, h));
    lemma_ring_sizes(w, h, l);
    let a = w - 2 * l;
    let b = h - 2 * l;
    let r = ring_offset(w, h, l, x, y);
    if a == 1 {
        assert(a * b == b);
    } else if b == 1 {
        assert(a * b == a);
    }
    assert(0 <= r < ring_cells(w, h, l));
    let i = ring_start(w, h, l) + r;
    assert(is_level(w, h, i, l));
    lemma_level_unique(w, h, i, l);
    assert(ring_coord(w, h, l, r) == (x, y));
}

/// Largest `s` with `s * s <= d`.
fn isqrt(d: u128) -> (s: u128)
    requires
        d < 0x4_0000_0000_0000_0000,
    ensures
        s * s <= d < (s + 1) * (s + 1),
{
    let mut lo: u128 = 0;
    let mut hi: u128 = 0x4_0000_0000;
    assert(hi * hi == 0x10_0000_0000_0000_0000);
    while hi - lo > 1
        invariant
            lo < hi <= 0x4_0000_0000,
            lo * lo <= d < hi * hi,
        decreases hi - lo,
    {
        let mid = lo + (hi - lo) / 2;
        assert(mid * mid <= 0x4_0000_0000 * 0x4_0000_0000) by (nonlinear_arith)
            requires mid < 0x4_0000_0000;
        if mid * mid <= d {
            lo = mid;
        } else {
            hi = mid;
        }
    }
    lo
}

/// Index of the first cell of ring `l`, as computed.
fn ring_start_of(w: u64, h: u64, l: u64) -> (r: u128)
    requires
        w >= 1,
        h >= 1,
        w < 0x1_0000_0000,
        h < 0x1_0000_0000,
        l <= max_level(w as int, h as int),
    ensures
        r == ring_start(w as int, h as int, l as int),
{
    proof {
        lemma_ring_sizes(w as int, h as int, l as int);
        assert((w - 2 * l) * (h - 2 * l) <= w * h) by (nonlinear_arith)
            requires w - 2 * l >= 1, h - 2 * l >= 1, w >= 1, h >= 1, l >= 0;
        assert(w * h < 0x1_0000_0000_0000_0000) by (nonlinear_arith)
            requires w < 0x1_0000_0000, h < 0x1_0000_0000;
    }
    let a = (w - 2 * l) as u128;
    let b = (h - 2 * l) as u128;
    (w as u128) * (h as u128) - a * b
}

/// The cell that an inward clockwise spiral over a `width` by `height` grid
/// visits at step `i`, or `None` where `i` is past the last cell.
pub fn spiral_coord(width: u32, height: u32, i: u64) -> (r: Option<(u32, u32)>)
    ensures
        i >= width * height ==> r is None,
        i < width * height ==> r == Some(
            (
                spiral_at(width as int, height as int, i as int).0 as u32,
                spiral_at(width as int, height as int, i as int).1 as u32,
            ),
        ),
        i < width * height ==> 0 <= spiral_at(width as int, height as int, i as int).0 < width
            && 0 <= spiral_at(width as int, height as int, i as int).1 < height,
{
    let w = width as u64;
    let h = height as u64;
    assert((w as u128) * (h as u128) < 0x1_0000_0000_0000_0000) by (nonlinear_arith)
        requires w < 0x1_0000_0000, h < 0x1_0000_0000;
    if w == 0 || h == 0 || (i as u128) >= (w as u128) * (h as u128) {
        proof {
            if w == 0 || h == 0 {
                assert(width * height == 0) by (nonlinear_arith)
                    requires w == 0 || h == 0, w == width, h == height;
            }
        }
        return None;
    }
    let ghost (wi, hi, ii) = (w as int, h as int, i as int);
    let m = if w < h { w } else { h };
    let lmax = (m - 1) / 2;
    // The level solves 4l^2 - 2(w + h)l + i >= 0; take the smaller root.
    let s = (w as u128) + (h as u128);
    assert(4 * i < s * s) by (nonlinear_arith)
        requires i < w * h, s == w + h;
    assert(s * s < 0x4_0000_0000_0000_0000) by (nonlinear_arith)
        requires s < 0x2_0000_0000;
    let root = isqrt(s * s - 4 * (i as u128));
    assert(root <= s) by (nonlinear_arith)
        requires root * root <= s * s - 4 * i, i >= 0, s >= 0;
    let guess = ((s - root) / 4) as u64;
    let mut l: u64 = if guess < lmax { guess } else { lmax };
    while l > 0 && ring_start_of(w, h, l) > i as u128
        invariant
            wi == w, hi == h, ii == i,
            w >= 1, h >= 1, w < 0x1_0000_0000, h < 0x1_0000_0000,
            lmax == max_level(wi, hi),
            l <= lmax,
        decreases l,
    {
        l = l - 1;
    }
    while l < lmax && ring_start_of(w, h, l + 1) <= i as u128
        invariant
            wi == w, hi == h, ii == i,
            w >= 1, h >= 1, w < 0x1_0000_0000, h < 0x1_0000_0000,
            lmax == max_level(wi, hi),
            l <= lmax,
            ring_start(wi, hi, l as int) <= ii,
        decreases lmax - l,
    {
        l = l + 1;
    }
    proof {
        assert(is_level(wi, hi, ii, l as int));
        lemma_level_unique(wi, hi, ii, l as int);
        lemma_visit_in_grid(wi, hi, ii);
        lemma_ring_sizes(wi, hi, l as int);
    }
    let r = (i as u128 - ring_start_of(w, h, l)) as u64;
    let a = w - 2 * l;
    let b = h - 2 * l;
    let (x, y) = if a == 1 {
        (l, l + r)
    } else if b == 1 {
        (l + r, l)
    } else if r < b - 1 {
        (l, l + r)
    } else if r < (b - 1) + (a - 1) {
        (l + (r - (b - 1)), l + b - 1)
    } else if r < 2 * (b - 1) + (a - 1) {
        (l + a - 1, l + b - 1 - (r - (b - 1) - (a - 1)))
    } else {
        (l + a - 1 - (r - 2 * (b - 1) - (a - 1)), l)
    };
    Some((x as u32, y as u32))
}

} // verus!
