use vstd::prelude::*;
use crate::raster::{Raster, MAX_AREA};
use crate::bound::Bound;

verus! {

/// Sum of channel `k` over columns `[x0, x1)` of row `y`.
pub open spec fn row_sum(r: &Raster, y: int, x0: int, x1: int, k: int) -> int
    decreases x1 - x0,
{
    if x1 <= x0 {
        0
    } else {
        row_sum(r, y, x0, x1 - 1, k) + r.px(x1 - 1, y, k)
    }
}

/// Sum of channel `k` over the rows `[reg.y_min, y1)` of `reg`.
pub open spec fn rows_sum(r: &Raster, reg: Bound, y1: int, k: int) -> int
    decreases y1 - reg.y_min,
{
    if y1 <= reg.y_min {
        0
    } else {
        rows_sum(r, reg, y1 - 1, k) + row_sum(r, y1 - 1, reg.x_min as int, reg.x_max as int, k)
    }
}

/// Sum of channel `k` over the whole of `reg`.
pub open spec fn channel_total(r: &Raster, reg: Bound, k: int) -> int {
    rows_sum(r, reg, reg.y_max as int, k)
}

/// Truncated mean of channel `k` over `reg`.
pub open spec fn mean_of(r: &Raster, reg: Bound, k: int) -> int {
    channel_total(r, reg, k) / reg.area()
}

/// Sum of `(px - m)^2` for channel `k` over columns `[x0, x1)` of row `y`.
pub open spec fn row_dev(r: &Raster, y: int, x0: int, x1: int, k: int, m: int) -> int
    decreases x1 - x0,
{
    if x1 <= x0 {
        0
    } else {
        row_dev(r, y, x0, x1 - 1, k, m) + (r.px(x1 - 1, y, k) - m) * (r.px(x1 - 1, y, k) - m)
    }
}

/// Sum of `(px - m)^2` for channel `k` over the rows `[reg.y_min, y1)` of `reg`.
pub open spec fn rows_dev(r: &Raster, reg: Bound, y1: int, k: int, m: int) -> int
    decreases y1 - reg.y_min,
{
    if y1 <= reg.y_min {
        0
    } else {
        rows_dev(r, reg, y1 - 1, k, m) + row_dev(
            r,
            y1 - 1,
            reg.x_min as int,
            reg.x_max as int,
            k,
            m,
        )
    }
}

/// Squared deviation of channel `k` from its truncated mean, summed over `reg`.
pub open spec fn channel_dev(r: &Raster, reg: Bound, k: int) -> int {
    rows_dev(r, reg, reg.y_max as int, k, mean_of(r, reg, k))
}

/// The variance score of `reg`: squared deviations from the per-channel
/// truncated mean, summed over every pixel and every channel, not normalised.
pub open spec fn variance_of(r: &Raster, reg: Bound) -> int {
    channel_dev(r, reg, 0) + channel_dev(r, reg, 1) + channel_dev(r, reg, 2) + channel_dev(r, reg, 3)
}

/// Largest variance score of a region of area `a`.
pub open spec fn variance_bound(a: int) -> int {
    4 * 65025 * a
}

/// A region lying inside a well-formed raster has at most `MAX_AREA` pixels.
pub proof fn lemma_region_area(r: &Raster, reg: Bound)
    requires
        r.wf(),
        reg.within(r.width as int, r.height as int),
    ensures
        1 <= reg.area() <= r.area() <= MAX_AREA,
        reg.width() <= reg.area(),
{
    let w = reg.width();
    let h = reg.height();
    let rw = r.width as int;
    let rh = r.height as int;
    assert(1 <= w * h <= rw * rh && w <= w * h) by (nonlinear_arith)
        requires
            1 <= w <= rw,
            1 <= h <= rh,
    ;
}

proof fn lemma_mean_bound(s: int, a: int)
    requires
        0 <= s <= 255 * a,
        a >= 1,
    ensures
        s / a <= 255,
{
    assert(s / a <= 255) by (nonlinear_arith)
        requires
            0 <= s <= 255 * a,
            a >= 1,
    ;
}

fn channel_sum(r: &Raster, reg: &Bound, k: usize) -> (s: u64)
    requires
        r.wf(),
        reg.within(r.width as int, r.height as int),
        k < 4,
    ensures
        s == channel_total(r, *reg, k as int),
        s <= 255 * reg.area(),
{
    proof {
        lemma_region_area(r, *reg);
    }
    let w = reg.x_max - reg.x_min;
    let mut s: u64 = 0;
    let mut y = reg.y_min;
    while y < reg.y_max
        invariant
            r.wf(),
            reg.within(r.width as int, r.height as int),
            k < 4,
            w == reg.width(),
            reg.area() <= MAX_AREA,
            reg.width() <= reg.area(),
            reg.y_min <= y <= reg.y_max,
            s == rows_sum(r, *reg, y as int, k as int),
            s <= 255 * (y - reg.y_min) * w,
        decreases reg.y_max - y,
    {
        let mut row: u64 = 0;
        let mut x = reg.x_min;
        while x < reg.x_max
            invariant
                r.wf(),
                reg.within(r.width as int, r.height as int),
                k < 4,
                y < reg.y_max,
                reg.width() <= MAX_AREA,
                reg.x_min <= x <= reg.x_max,
                row == row_sum(r, y as int, reg.x_min as int, x as int, k as int),
                row <= 255 * (x - reg.x_min),
            decreases reg.x_max - x,
        {
            let v = r.get(x, y, k);
            row = row + v as u64;
            x = x + 1;
        }
        proof {
            let d = (y - reg.y_min) as int;
            assert(255 * d * w + 255 * w == 255 * (d + 1) * w) by (nonlinear_arith);
            assert(255 * (d + 1) * w <= 255 * reg.area()) by (nonlinear_arith)
                requires
                    d + 1 <= reg.height(),
                    reg.area() == w * reg.height(),
                    w >= 0,
            ;
        }
        s = s + row;
        y = y + 1;
    }
    proof {
        assert(255 * (y - reg.y_min) * w == 255 * reg.area()) by (nonlinear_arith)
            requires
                y - reg.y_min == reg.height(),
                reg.area() == w * reg.height(),
        ;
    }
    s
}

/// Per-channel truncated mean colour of `reg`.
pub fn compute_mean(r: &Raster, reg: &Bound) -> (m: [u64; 4])
    requires
        r.wf(),
        reg.within(r.width as int, r.height as int),
    ensures
        forall|k: int| 0 <= k < 4 ==> m@[k] == mean_of(r, *reg, k),
        forall|k: int| 0 <= k < 4 ==> m@[k] <= 255,
{
    proof {
        lemma_region_area(r, *reg);
    }
    let area: u64 = (reg.x_max - reg.x_min) as u64 * (reg.y_max - reg.y_min) as u64;
    let s0 = channel_sum(r, reg, 0);
    let s1 = channel_sum(r, reg, 1);
    let s2 = channel_sum(r, reg, 2);
    let s3 = channel_sum(r, reg, 3);
    proof {
        lemma_mean_bound(s0 as int, area as int);
        lemma_mean_bound(s1 as int, area as int);
        lemma_mean_bound(s2 as int, area as int);
        lemma_mean_bound(s3 as int, area as int);
    }
    let m = [s0 / area, s1 / area, s2 / area, s3 / area];
    assert(forall|k: int| 0 <= k < 4 ==> m@[k] == mean_of(r, *reg, k)) by {
        assert(m@[0] == s0 / area && m@[1] == s1 / area && m@[2] == s2 / area && m@[3] == s3
            / area);
    }
    m
}

fn channel_deviation(r: &Raster, reg: &Bound, k: usize, m: u64) -> (s: u64)
    requires
        r.wf(),
        reg.within(r.width as int, r.height as int),
        k < 4,
        m <= 255,
    ensures
        s == rows_dev(r, *reg, reg.y_max as int, k as int, m as int),
        s <= 65025 * reg.area(),
{
    proof {
        lemma_region_area(r, *reg);
    }
    let w = reg.x_max - reg.x_min;
    let mut s: u64 = 0;
    let mut y = reg.y_min;
    while y < reg.y_max
        invariant
            r.wf(),
            reg.within(r.width as int, r.height as int),
            k < 4,
            m <= 255,
            w == reg.width(),
            reg.area() <= MAX_AREA,
            reg.width() <= reg.area(),
            reg.y_min <= y <= reg.y_max,
            s == rows_dev(r, *reg, y as int, k as int, m as int),
            s <= 65025 * (y - reg.y_min) * w,
        decreases reg.y_max - y,
    {
        let mut row: u64 = 0;
        let mut x = reg.x_min;
        while x < reg.x_max
            invariant
                r.wf(),
                reg.within(r.width as int, r.height as int),
                k < 4,
                m <= 255,
                y < reg.y_max,
                reg.width() <= MAX_AREA,
                reg.x_min <= x <= reg.x_max,
                row == row_dev(r, y as int, reg.x_min as int, x as int, k as int, m as int),
                row <= 65025 * (x - reg.x_min),
            decreases reg.x_max - x,
        {
            let v = r.get(x, y, k) as u64;
            let d: u64 = if v >= m {
                v - m
            } else {
                m - v
            };
            proof {
                let e = v as int - m as int;
                assert(d * d == e * e && d * d <= 65025) by (nonlinear_arith)
                    requires
                        d == e || d == -e,
                        0 <= d <= 255,
                ;
            }
            row = row + d * d;
            x = x + 1;
        }
        proof {
            let dy = (y - reg.y_min) as int;
            assert(65025 * dy * w + 65025 * w == 65025 * (dy + 1) * w) by (nonlinear_arith);
            assert(65025 * (dy + 1) * w <= 65025 * reg.area()) by (nonlinear_arith)
                requires
                    dy + 1 <= reg.height(),
                    reg.area() == w * reg.height(),
                    w >= 0,
            ;
        }
        s = s + row;
        y = y + 1;
    }
    proof {
        assert(65025 * (y - reg.y_min) * w == 65025 * reg.area()) by (nonlinear_arith)
            requires
                y - reg.y_min == reg.height(),
                reg.area() == w * reg.height(),
        ;
    }
    s
}

/// The variance score of `reg`.
pub fn compute_variance(r: &Raster, reg: &Bound) -> (v: u64)
    requires
        r.wf(),
        reg.within(r.width as int, r.height as int),
    ensures
        v == variance_of(r, *reg),
        v <= variance_bound(reg.area()),
{
    proof {
        lemma_region_area(r, *reg);
    }
    let m = compute_mean(r, reg);
    let d0 = channel_deviation(r, reg, 0, m[0]);
    let d1 = channel_deviation(r, reg, 1, m[1]);
    let d2 = channel_deviation(r, reg, 2, m[2]);
    let d3 = channel_deviation(r, reg, 3, m[3]);
    proof {
        let a = reg.area();
        assert(d0 + d1 + d2 + d3 <= 4 * 65025 * a) by (nonlinear_arith)
            requires
                d0 <= 65025 * a,
                d1 <= 65025 * a,
                d2 <= 65025 * a,
                d3 <= 65025 * a,
        ;
    }
    d0 + d1 + d2 + d3
}

} // verus!

verus! {

/// A single pixel has variance score zero: its mean is the pixel itself.
pub proof fn lemma_pixel_variance_zero(r: &Raster, reg: Bound)
    requires
        reg.width() == 1,
        reg.height() == 1,
    ensures
        variance_of(r, reg) == 0,
{
    let x0 = reg.x_min as int;
    let y0 = reg.y_min as int;
    assert forall|k: int| 0 <= k < 4 implies #[trigger] channel_dev(r, reg, k) == 0 by {
        assert(row_sum(r, y0, x0, x0, k) == 0);
        assert(row_sum(r, y0, x0, x0 + 1, k) == r.px(x0, y0, k));
        assert(rows_sum(r, reg, y0, k) == 0);
        assert(rows_sum(r, reg, y0 + 1, k) == r.px(x0, y0, k));
        assert(reg.area() == 1);
        let m = mean_of(r, reg, k);
        assert(m == r.px(x0, y0, k));
        assert(row_dev(r, y0, x0, x0, k, m) == 0);
        assert(row_dev(r, y0, x0, x0 + 1, k, m) == 0);
        assert(rows_dev(r, reg, y0, k, m) == 0);
        assert(rows_dev(r, reg, y0 + 1, k, m) == 0);
    }
    assert(channel_dev(r, reg, 0) == 0 && channel_dev(r, reg, 1) == 0 && channel_dev(r, reg, 2) == 0
        && channel_dev(r, reg, 3) == 0);
}

} // verus!

verus! {

/// Cutting a row at column `xm` splits its sum of squared deviations.
proof fn lemma_row_dev_split(r: &Raster, y: int, x0: int, xm: int, x1: int, k: int, m: int)
    requires
        x0 <= xm <= x1,
    ensures
        row_dev(r, y, x0, x1, k, m) == row_dev(r, y, x0, xm, k, m) + row_dev(r, y, xm, x1, k, m),
    decreases x1 - xm,
{
    if x1 > xm {
        lemma_row_dev_split(r, y, x0, xm, x1 - 1, k, m);
    }
}

/// Cutting a region at column `xm` splits, row by row, its sum of squared deviations.
proof fn lemma_rows_dev_split_x(r: &Raster, reg: Bound, xm: usize, y1: int, k: int, m: int)
    requires
        reg.x_min <= xm <= reg.x_max,
    ensures
        rows_dev(r, reg, y1, k, m) == rows_dev(r, Bound { x_max: xm, ..reg }, y1, k, m) + rows_dev(
            r,
            Bound { x_min: xm, ..reg },
            y1,
            k,
            m,
        ),
    decreases y1 - reg.y_min,
{
    if y1 > reg.y_min {
        lemma_rows_dev_split_x(r, reg, xm, y1 - 1, k, m);
        lemma_row_dev_split(r, y1 - 1, reg.x_min as int, xm as int, reg.x_max as int, k, m);
    }
}

/// Cutting a region at row `ym` splits its sum of squared deviations.
proof fn lemma_rows_dev_split_y(r: &Raster, reg: Bound, ym: usize, y1: int, k: int, m: int)
    requires
        reg.y_min <= ym <= y1,
    ensures
        rows_dev(r, reg, y1, k, m) == rows_dev(r, Bound { y_max: ym, ..reg }, ym as int, k, m)
            + rows_dev(r, Bound { y_min: ym, ..reg }, y1, k, m),
    decreases y1 - ym,
{
    if y1 > ym {
        lemma_rows_dev_split_y(r, reg, ym, y1 - 1, k, m);
    } else {
        lemma_rows_dev_same_rows(r, reg, Bound { y_max: ym, ..reg }, ym as int, k, m);
    }
}

/// The sum over the rows `[y_min, y1)` depends only on `y_min` and the columns.
proof fn lemma_rows_dev_same_rows(r: &Raster, a: Bound, b: Bound, y1: int, k: int, m: int)
    requires
        a.x_min == b.x_min,
        a.x_max == b.x_max,
        a.y_min == b.y_min,
    ensures
        rows_dev(r, a, y1, k, m) == rows_dev(r, b, y1, k, m),
    decreases y1 - a.y_min,
{
    if y1 > a.y_min {
        lemma_rows_dev_same_rows(r, a, b, y1 - 1, k, m);
    }
}

/// Squared deviations of channel `k` from one fixed level `m`, summed over a
/// region, equal the same sums over its two halves: a split partitions the
/// parent's score term by term when every pixel is measured against the
/// parent's mean. (Each half's own score measures against its own truncated
/// mean instead, and the sum of the halves' scores can then exceed the parent's.)
pub proof fn lemma_split_partitions_deviation(r: &Raster, reg: Bound, k: int, m: int)
    requires
        reg.wf(),
    ensures
        reg.can_split_x() ==> rows_dev(r, reg, reg.y_max as int, k, m) == rows_dev(
            r,
            reg.halves_x().0,
            reg.y_max as int,
            k,
            m,
        ) + rows_dev(r, reg.halves_x().1, reg.y_max as int, k, m),
        reg.can_split_y() ==> rows_dev(r, reg, reg.y_max as int, k, m) == rows_dev(
            r,
            reg.halves_y().0,
            reg.halves_y().0.y_max as int,
            k,
            m,
        ) + rows_dev(r, reg.halves_y().1, reg.y_max as int, k, m),
{
    if reg.can_split_x() {
        lemma_rows_dev_split_x(r, reg, reg.mid_x() as usize, reg.y_max as int, k, m);
    }
    if reg.can_split_y() {
        lemma_rows_dev_split_y(r, reg, reg.mid_y() as usize, reg.y_max as int, k, m);
    }
}

} // verus!

verus! {

/// Sum of squares of channel `k` over columns `[x0, x1)` of row `y`.
pub open spec fn row_sq(r: &Raster, y: int, x0: int, x1: int, k: int) -> int
    decreases x1 - x0,
{
    if x1 <= x0 {
        0
    } else {
        row_sq(r, y, x0, x1 - 1, k) + r.px(x1 - 1, y, k) * r.px(x1 - 1, y, k)
    }
}

/// Sum of squares of channel `k` over the rows `[reg.y_min, y1)` of `reg`.
pub open spec fn rows_sq(r: &Raster, reg: Bound, y1: int, k: int) -> int
    decreases y1 - reg.y_min,
{
    if y1 <= reg.y_min {
        0
    } else {
        rows_sq(r, reg, y1 - 1, k) + row_sq(r, y1 - 1, reg.x_min as int, reg.x_max as int, k)
    }
}

proof fn lemma_row_dev_expand(r: &Raster, y: int, x0: int, x1: int, k: int, m: int)
    requires
        x0 <= x1,
    ensures
        row_dev(r, y, x0, x1, k, m) == row_sq(r, y, x0, x1, k) - 2 * m * row_sum(r, y, x0, x1, k)
            + (x1 - x0) * (m * m),
    decreases x1 - x0,
{
    if x1 > x0 {
        lemma_row_dev_expand(r, y, x0, x1 - 1, k, m);
        let p = r.px(x1 - 1, y, k);
        let n = x1 - 1 - x0;
        let s0 = row_sum(r, y, x0, x1 - 1, k);
        let q0 = row_sq(r, y, x0, x1 - 1, k);
        let d0 = row_dev(r, y, x0, x1 - 1, k, m);
        assert(d0 + (p - m) * (p - m) == (q0 + p * p) - 2 * m * (s0 + p) + (n + 1) * (m * m))
            by (nonlinear_arith)
            requires
                d0 == q0 - 2 * m * s0 + n * (m * m),
        ;
    } else {
        assert((x1 - x0) * (m * m) == 0) by (nonlinear_arith)
            requires
                x1 == x0,
        ;
    }
}

proof fn lemma_rows_dev_expand(r: &Raster, reg: Bound, y1: int, k: int, m: int)
    requires
        reg.wf(),
        reg.y_min <= y1,
    ensures
        rows_dev(r, reg, y1, k, m) == rows_sq(r, reg, y1, k) - 2 * m * rows_sum(r, reg, y1, k) + (
        y1 - reg.y_min) * reg.width() * (m * m),
    decreases y1 - reg.y_min,
{
    if y1 > reg.y_min {
        lemma_rows_dev_expand(r, reg, y1 - 1, k, m);
        lemma_row_dev_expand(r, y1 - 1, reg.x_min as int, reg.x_max as int, k, m);
        let n = y1 - 1 - reg.y_min;
        let w = reg.width();
        let s0 = rows_sum(r, reg, y1 - 1, k);
        let s1 = row_sum(r, y1 - 1, reg.x_min as int, reg.x_max as int, k);
        let q0 = rows_sq(r, reg, y1 - 1, k);
        let q1 = row_sq(r, y1 - 1, reg.x_min as int, reg.x_max as int, k);
        let d0 = rows_dev(r, reg, y1 - 1, k, m);
        let d1 = row_dev(r, y1 - 1, reg.x_min as int, reg.x_max as int, k, m);
        assert(d0 + d1 == (q0 + q1) - 2 * m * (s0 + s1) + (n + 1) * w * (m * m))
            by (nonlinear_arith)
            requires
                d0 == q0 - 2 * m * s0 + n * w * (m * m),
                d1 == q1 - 2 * m * s1 + w * (m * m),
        ;
    } else {
        let h = y1 - reg.y_min;
        assert(h * reg.width() * (m * m) == 0) by (nonlinear_arith)
            requires
                h == 0,
        ;
    }
}

/// Moving the level from `f` to `c` changes `q - 2 * level * s + n * level^2`
/// by `(c - f) * (n * (c - f) - 2 * rem)` when `s == n * f + rem`.
proof fn lemma_level_difference(n: int, s: int, q: int, c: int, f: int, rem: int)
    requires
        s == n * f + rem,
    ensures
        (q - 2 * c * s + n * (c * c)) - (q - 2 * f * s + n * (f * f)) == (c - f) * (n * (c - f) - 2
            * rem),
{
    let d = c - f;
    assert(2 * c * s - 2 * f * s == 2 * d * s) by (nonlinear_arith)
        requires
            d == c - f,
    ;
    assert(n * (c * c) - n * (f * f) == n * d * (2 * f + d)) by (nonlinear_arith)
        requires
            d == c - f,
    ;
    assert(2 * d * s == 2 * d * n * f + 2 * d * rem) by (nonlinear_arith)
        requires
            s == n * f + rem,
    ;
    assert(n * d * (2 * f + d) == 2 * d * n * f + n * d * d) by (nonlinear_arith);
    assert(d * (n * d - 2 * rem) == n * d * d - 2 * d * rem) by (nonlinear_arith);
}

/// With `n` values of sum `s` and sum of squares `q`, the squared deviations
/// from the truncated mean exceed those from any integer level `c` by less
/// than `n`, and not at all when the mean is exact.
proof fn lemma_truncated_mean_near_best(n: int, s: int, q: int, c: int)
    requires
        n >= 1,
        s >= 0,
    ensures
        q - 2 * (s / n) * s + n * ((s / n) * (s / n)) <= q - 2 * c * s + n * (c * c) + n,
        s % n == 0 ==> q - 2 * (s / n) * s + n * ((s / n) * (s / n)) <= q - 2 * c * s + n * (c
            * c),
{
    let f = s / n;
    let rem = s % n;
    let d = c - f;
    vstd::arithmetic::div_mod::lemma_fundamental_div_mod(s, n);
    assert(0 <= rem < n);
    lemma_level_difference(n, s, q, c, f, rem);
    if rem == 0 {
        assert(d * (n * d - 2 * rem) >= 0) by (nonlinear_arith)
            requires
                rem == 0,
                n >= 1,
        {
            assert(d * d >= 0);
            assert(d * (n * d) == n * (d * d));
        }
    }
    assert(d * (n * d - 2 * rem) >= -n) by (nonlinear_arith)
        requires
            n >= 1,
            0 <= rem < n,
    {
        if d >= 1 {
            assert(d * (n * d - 2 * rem) >= n * d * (d - 2)) by (nonlinear_arith)
                requires
                    d >= 1,
                    rem < n,
            ;
            assert(n * d * (d - 2) >= -n) by (nonlinear_arith)
                requires
                    n >= 1,
            {
                assert((d - 1) * (d - 1) >= 0);
                assert(d * (d - 2) == (d - 1) * (d - 1) - 1);
                assert(n * d * (d - 2) == n * (d * (d - 2)));
            }
        } else {
            assert(d * (n * d - 2 * rem) >= 0) by (nonlinear_arith)
                requires
                    d <= 0,
                    n >= 1,
                    rem >= 0,
            ;
        }
    }
}

/// A half's score for channel `k` exceeds its squared deviations from any
/// level `c` by less than its area.
proof fn lemma_channel_dev_near_best(r: &Raster, reg: Bound, k: int, c: int)
    requires
        r.wf(),
        reg.within(r.width as int, r.height as int),
        0 <= k < 4,
    ensures
        channel_dev(r, reg, k) <= rows_dev(r, reg, reg.y_max as int, k, c) + reg.area(),
        channel_total(r, reg, k) % reg.area() == 0 ==> channel_dev(r, reg, k) <= rows_dev(
            r,
            reg,
            reg.y_max as int,
            k,
            c,
        ),
{
    lemma_region_area(r, reg);
    let n = reg.area();
    let s = channel_total(r, reg, k);
    let q = rows_sq(r, reg, reg.y_max as int, k);
    lemma_rows_sum_nonneg(r, reg, reg.y_max as int, k);
    lemma_rows_dev_expand(r, reg, reg.y_max as int, k, c);
    lemma_rows_dev_expand(r, reg, reg.y_max as int, k, s / n);
    lemma_truncated_mean_near_best(n, s, q, c);
    let h = reg.y_max - reg.y_min;
    let w = reg.width();
    let f = s / n;
    assert(h * w * (c * c) == n * (c * c) && h * w * (f * f) == n * (f * f)) by (nonlinear_arith)
        requires
            n == w * h,
    ;
}

proof fn lemma_row_sum_nonneg(r: &Raster, y: int, x0: int, x1: int, k: int)
    ensures
        row_sum(r, y, x0, x1, k) >= 0,
    decreases x1 - x0,
{
    if x1 > x0 {
        lemma_row_sum_nonneg(r, y, x0, x1 - 1, k);
    }
}

proof fn lemma_rows_sum_nonneg(r: &Raster, reg: Bound, y1: int, k: int)
    ensures
        rows_sum(r, reg, y1, k) >= 0,
    decreases y1 - reg.y_min,
{
    if y1 > reg.y_min {
        lemma_rows_sum_nonneg(r, reg, y1 - 1, k);
        lemma_row_sum_nonneg(r, y1 - 1, reg.x_min as int, reg.x_max as int, k);
    }
}

/// Splitting a region raises the total variance score by less than four
/// times the region's area: the two halves' scores sum to at most the
/// parent's score plus `4 * area`. (Without that margin the bound fails,
/// because every score measures against a truncated mean.)
pub proof fn lemma_split_variance_bound(r: &Raster, reg: Bound)
    requires
        r.wf(),
        reg.within(r.width as int, r.height as int),
    ensures
        reg.can_split_x() ==> variance_of(r, reg.halves_x().0) + variance_of(r, reg.halves_x().1)
            <= variance_of(r, reg) + 4 * reg.area(),
        reg.can_split_y() ==> variance_of(r, reg.halves_y().0) + variance_of(r, reg.halves_y().1)
            <= variance_of(r, reg) + 4 * reg.area(),
{
    crate::bound::lemma_halves(reg);
    if reg.can_split_x() {
        let (a, b) = reg.halves_x();
        lemma_split_halves(r, reg, a, b);
    }
    if reg.can_split_y() {
        let (a, b) = reg.halves_y();
        lemma_split_halves(r, reg, a, b);
    }
}

proof fn lemma_split_halves(r: &Raster, reg: Bound, a: Bound, b: Bound)
    requires
        r.wf(),
        reg.within(r.width as int, r.height as int),
        a.wf(),
        b.wf(),
        a.area() + b.area() == reg.area(),
        (reg.can_split_x() && (a, b) == reg.halves_x()) || (reg.can_split_y() && (a, b)
            == reg.halves_y()),
    ensures
        variance_of(r, a) + variance_of(r, b) <= variance_of(r, reg) + 4 * reg.area(),
{
    assert forall|k: int| 0 <= k < 4 implies #[trigger] channel_dev(r, a, k) + channel_dev(r, b, k)
        <= channel_dev(r, reg, k) + reg.area() by {
        let m = mean_of(r, reg, k);
        lemma_channel_dev_near_best(r, a, k, m);
        lemma_channel_dev_near_best(r, b, k, m);
        lemma_split_partitions_deviation(r, reg, k, m);
    }
    assert(channel_dev(r, a, 0) + channel_dev(r, b, 0) <= channel_dev(r, reg, 0) + reg.area());
    assert(channel_dev(r, a, 1) + channel_dev(r, b, 1) <= channel_dev(r, reg, 1) + reg.area());
    assert(channel_dev(r, a, 2) + channel_dev(r, b, 2) <= channel_dev(r, reg, 2) + reg.area());
    assert(channel_dev(r, a, 3) + channel_dev(r, b, 3) <= channel_dev(r, reg, 3) + reg.area());
}

} // verus!

verus! {

/// The per-channel means of `reg` are exact: every channel total is a
/// multiple of the area.
pub open spec fn exact_means(r: &Raster, reg: Bound) -> bool {
    forall|k: int| 0 <= k < 4 ==> #[trigger] channel_total(r, reg, k) % reg.area() == 0
}

/// Where both halves have exact means, splitting never raises the variance
/// score: the halves' scores sum to at most the parent's.
pub proof fn lemma_split_variance_exact_means(r: &Raster, reg: Bound)
    requires
        r.wf(),
        reg.within(r.width as int, r.height as int),
    ensures
        reg.can_split_x() && exact_means(r, reg.halves_x().0) && exact_means(r, reg.halves_x().1)
            ==> variance_of(r, reg.halves_x().0) + variance_of(r, reg.halves_x().1)
            <= variance_of(r, reg),
        reg.can_split_y() && exact_means(r, reg.halves_y().0) && exact_means(r, reg.halves_y().1)
            ==> variance_of(r, reg.halves_y().0) + variance_of(r, reg.halves_y().1)
            <= variance_of(r, reg),
{
    crate::bound::lemma_halves(reg);
    if reg.can_split_x() && exact_means(r, reg.halves_x().0) && exact_means(r, reg.halves_x().1) {
        let (a, b) = reg.halves_x();
        lemma_split_halves_exact(r, reg, a, b);
    }
    if reg.can_split_y() && exact_means(r, reg.halves_y().0) && exact_means(r, reg.halves_y().1) {
        let (a, b) = reg.halves_y();
        lemma_split_halves_exact(r, reg, a, b);
    }
}

proof fn lemma_split_halves_exact(r: &Raster, reg: Bound, a: Bound, b: Bound)
    requires
        r.wf(),
        reg.within(r.width as int, r.height as int),
        a.wf(),
        b.wf(),
        exact_means(r, a),
        exact_means(r, b),
        (reg.can_split_x() && (a, b) == reg.halves_x()) || (reg.can_split_y() && (a, b)
            == reg.halves_y()),
    ensures
        variance_of(r, a) + variance_of(r, b) <= variance_of(r, reg),
{
    assert forall|k: int| 0 <= k < 4 implies #[trigger] channel_dev(r, a, k) + channel_dev(r, b, k)
        <= channel_dev(r, reg, k) by {
        let m = mean_of(r, reg, k);
        assert(channel_total(r, a, k) % a.area() == 0);
        assert(channel_total(r, b, k) % b.area() == 0);
        lemma_channel_dev_near_best(r, a, k, m);
        lemma_channel_dev_near_best(r, b, k, m);
        lemma_split_partitions_deviation(r, reg, k, m);
    }
    assert(channel_dev(r, a, 0) + channel_dev(r, b, 0) <= channel_dev(r, reg, 0));
    assert(channel_dev(r, a, 1) + channel_dev(r, b, 1) <= channel_dev(r, reg, 1));
    assert(channel_dev(r, a, 2) + channel_dev(r, b, 2) <= channel_dev(r, reg, 2));
    assert(channel_dev(r, a, 3) + channel_dev(r, b, 3) <= channel_dev(r, reg, 3));
}

} // verus!
