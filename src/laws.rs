//! Properties of drawing and accumulation, stated over the buffer model.
use vstd::prelude::*;
use crate::arith::lemma_div_exact;
use crate::flatten::{dev_sq, in_box, isqrt_spec, quad_coord, quad_polyline, sections, MAX_COORD};
use crate::geometry::Point;
use crate::raster::{
    add_segment, add_segments, bitmap_of, cell_in_row, coverage_byte, fsub, prefix_sum, row_bot,
    row_cell, row_top, rows_sum, seg_delta, x_at, FULL_AREA,
};

verus! {

/// What the segments `segs` deposit together at index `i`.
pub open spec fn total_delta(w: int, segs: Seq<(Point, Point)>, i: int) -> int
    decreases segs.len(),
{
    if segs.len() == 0 {
        0
    } else {
        total_delta(w, segs.drop_last(), i) + seg_delta(w, segs.last().0, segs.last().1, i)
    }
}

/// The same segments, traversed backwards: last first, each from its end to its start.
pub open spec fn reversed(segs: Seq<(Point, Point)>) -> Seq<(Point, Point)> {
    Seq::new(segs.len(), |k: int| (segs[segs.len() - 1 - k].1, segs[segs.len() - 1 - k].0))
}

/// Every cell of `d` is zero, as in a fresh rasterizer.
pub open spec fn all_zero(d: Seq<int>) -> bool {
    forall|i: int| 0 <= i < d.len() ==> #[trigger] d[i] == 0
}

/// Drawing segments adds what they deposit together to each cell.
pub proof fn lemma_add_segments_total(d: Seq<int>, w: int, segs: Seq<(Point, Point)>)
    ensures
        add_segments(d, w, segs).len() == d.len(),
        forall|i: int|
            0 <= i < d.len() ==> #[trigger] add_segments(d, w, segs)[i] == d[i] + total_delta(
                w,
                segs,
                i,
            ),
    decreases segs.len(),
{
    if segs.len() > 0 {
        lemma_add_segments_total(d, w, segs.drop_last());
    }
}

proof fn lemma_total_delta_concat(w: int, a: Seq<(Point, Point)>, b: Seq<(Point, Point)>, i: int)
    ensures
        total_delta(w, a + b, i) == total_delta(w, a, i) + total_delta(w, b, i),
    decreases b.len(),
{
    if b.len() == 0 {
        assert(a + b =~= a);
    } else {
        assert((a + b).drop_last() =~= a + b.drop_last());
        lemma_total_delta_concat(w, a, b.drop_last(), i);
    }
}

/// A segment drawn from its end to its start deposits the negation of what it
/// deposits drawn forwards.
pub proof fn law_segment_reversal(w: int, p0: Point, p1: Point, i: int)
    ensures
        seg_delta(w, p1, p0, i) == -seg_delta(w, p0, p1, i),
{
}

proof fn lemma_total_delta_reversed(w: int, segs: Seq<(Point, Point)>, i: int)
    ensures
        total_delta(w, reversed(segs), i) == -total_delta(w, segs, i),
    decreases segs.len(),
{
    if segs.len() > 0 {
        let l = segs.last();
        assert(reversed(segs) =~= seq![(l.1, l.0)] + reversed(segs.drop_last()));
        lemma_total_delta_reversed(w, segs.drop_last(), i);
        lemma_total_delta_concat(w, seq![(l.1, l.0)], reversed(segs.drop_last()), i);
        assert(seq![(l.1, l.0)].drop_last() =~= Seq::<(Point, Point)>::empty());
        assert(total_delta(w, seq![(l.1, l.0)].drop_last(), i) == 0);
        assert(total_delta(w, seq![(l.1, l.0)], i) == seg_delta(w, l.1, l.0, i));
        law_segment_reversal(w, l.0, l.1, i);
        assert(total_delta(w, segs, i) == total_delta(w, segs.drop_last(), i) + seg_delta(
            w,
            l.0,
            l.1,
            i,
        ));
    }
}

proof fn lemma_prefix_sum_scaled(d: Seq<int>, e: Seq<int>, k: int, n: int)
    requires
        0 <= n <= d.len(),
        e.len() == d.len(),
        forall|i: int| 0 <= i < d.len() ==> #[trigger] e[i] == k * d[i],
    ensures
        prefix_sum(e, n) == k * prefix_sum(d, n),
    decreases n,
{
    if n > 0 {
        lemma_prefix_sum_scaled(d, e, k, n - 1);
        assert(k * prefix_sum(d, n - 1) + k * d[n - 1] == k * (prefix_sum(d, n - 1) + d[n - 1]))
            by (nonlinear_arith);
    }
}

/// A straight segment with both ends at the same height leaves every cell as it was.
pub proof fn law_horizontal_segment(d: Seq<int>, w: int, p0: Point, p1: Point)
    requires
        p0.y == p1.y,
    ensures
        add_segment(d, w, p0, p1) == d,
{
    assert(add_segment(d, w, p0, p1) =~= d);
}

/// A segment that stays within one pixel row and one pixel column deposits into
/// that pixel and its right neighbour only, and the two deposits add up to its
/// height times a full pixel width, signed by its vertical direction (in area
/// units, `2 * SUBPIXELS` per sub-pixel of height).
pub proof fn law_single_pixel_conservation(w: int, p0: Point, p1: Point, i: int)
    requires
        w >= 0,
        0 <= p0.x,
        0 <= p1.x,
        0 <= p0.y,
        0 <= p1.y,
        p0.y != p1.y,
        (if p0.y < p1.y { p0.y as int } else { p1.y as int }) / fsub() * fsub() + fsub() >= (if p0.y
            < p1.y {
            p1.y as int
        } else {
            p0.y as int
        }),
        (if p0.x < p1.x { p0.x as int } else { p1.x as int }) / fsub() * fsub() + fsub() >= (if p0.x
            < p1.x {
            p1.x as int
        } else {
            p0.x as int
        }),
    ensures
        ({
            let r = (if p0.y < p1.y { p0.y as int } else { p1.y as int }) / fsub();
            let c = (if p0.x < p1.x { p0.x as int } else { p1.x as int }) / fsub();
            let cell = r * w + c;
            &&& seg_delta(w, p0, p1, cell) + seg_delta(w, p0, p1, cell + 1) == 2 * fsub() * (p1.y
                - p0.y)
            &&& (i != cell && i != cell + 1 ==> seg_delta(w, p0, p1, i) == 0)
        }),
{
    let (a, b) = if p0.y < p1.y {
        (p0, p1)
    } else {
        (p1, p0)
    };
    let r = (a.y as int) / fsub();
    vstd::arithmetic::div_mod::lemma_fundamental_div_mod(a.y as int, fsub());
    assert(r * fsub() <= a.y);
    assert((b.y as int + fsub() - 1) / fsub() == r + 1) by {
        vstd::arithmetic::div_mod::lemma_fundamental_div_mod(b.y as int + fsub() - 1, fsub());
    }
    assert(row_top(a, b, r) == a.y);
    assert(row_bot(a, b, r) == b.y);
    let dy = b.y - a.y as int;
    assert(((b.x - a.x) * (a.y - a.y)) / (b.y - a.y) == 0 && ((a.x - b.x) * (a.y - a.y)) / (b.y
        - a.y) == 0) by (nonlinear_arith)
        requires
            b.y > a.y,
    ;
    assert(x_at(a, b, a.y as int) == a.x);
    assert(x_at(a, b, b.y as int) == b.x) by {
        if b.x >= a.x {
            lemma_div_exact(b.x - a.x, dy);
        } else {
            lemma_div_exact(a.x - b.x, dy);
        }
    }
    let xl = if a.x <= b.x {
        a.x as int
    } else {
        b.x as int
    };
    let xr = if a.x <= b.x {
        b.x as int
    } else {
        a.x as int
    };
    let c = xl / fsub();
    let cell = r * w + c;
    let m = xl + xr - 2 * c * fsub();
    assert(xl == if p0.x < p1.x {
        p0.x as int
    } else {
        p1.x as int
    });
    assert(xr == if p0.x < p1.x {
        p1.x as int
    } else {
        p0.x as int
    });
    assert((c + 1) * fsub() == c * fsub() + fsub()) by (nonlinear_arith);
    assert(xr <= (c + 1) * fsub());
    assert(row_cell(xl, xr, dy, c) == dy * (2 * fsub() - m));
    assert(row_cell(xl, xr, dy, c + 1) == dy * m);
    assert(forall|j: int|
        #[trigger] cell_in_row(w, a, b, r, j) == row_cell(xl, xr, dy, j - r * w));
    assert(rows_sum(w, a, b, r, i) == 0);
    assert(rows_sum(w, a, b, r + 1, i) == cell_in_row(w, a, b, r, i));
    assert(rows_sum(w, a, b, r, cell) == 0);
    assert(rows_sum(w, a, b, r + 1, cell) == cell_in_row(w, a, b, r, cell));
    assert(rows_sum(w, a, b, r, cell + 1) == 0);
    assert(rows_sum(w, a, b, r + 1, cell + 1) == cell_in_row(w, a, b, r, cell + 1));
    assert(row_cell(xl, xr, dy, c) + row_cell(xl, xr, dy, c + 1) == 2 * fsub() * dy) by {
        assert(dy * (2 * fsub() - m) + dy * m == 2 * fsub() * dy) by (nonlinear_arith);
    }
}

/// A quadratic curve whose control point is the midpoint of its chord is
/// flattened into the single straight segment from its start to its end.
pub proof fn law_flat_quad_is_one_segment(p0: Point, c: Point, p1: Point)
    requires
        in_box(p0, MAX_COORD as int, MAX_COORD as int),
        in_box(c, MAX_COORD as int, MAX_COORD as int),
        in_box(p1, MAX_COORD as int, MAX_COORD as int),
        2 * c.x == p0.x + p1.x,
        2 * c.y == p0.y + p1.y,
    ensures
        quad_polyline(p0, c, p1) == seq![p0, p1],
{
    assert(dev_sq(p0, c, p1) == 0) by (nonlinear_arith)
        requires
            2 * c.x == p0.x + p1.x,
            2 * c.y == p0.y + p1.y,
    ;
    assert(isqrt_spec(0) == 0);
    assert(isqrt_spec((3 * 0int) as nat) == 0);
    assert(sections(0) == 1);
    let q = quad_polyline(p0, c, p1);
    assert forall|a: int, cc: int, b: int|
        #![trigger quad_coord(a, cc, b, 0, 1)]
        #![trigger quad_coord(a, cc, b, 1, 1)]
        quad_coord(a, cc, b, 0, 1) == a && quad_coord(a, cc, b, 1, 1) == b by {
        assert((1 - 0) * (1 - 0) * a + 2 * 0 * (1 - 0) * cc + 0 * 0 * b == a * 1) by (
        nonlinear_arith);
        assert((1 - 1) * (1 - 1) * a + 2 * 1 * (1 - 1) * cc + 1 * 1 * b == b * 1) by (
        nonlinear_arith);
        lemma_div_exact(a, 1);
        lemma_div_exact(b, 1);
    }
    assert(quad_coord(p0.x as int, c.x as int, p1.x as int, 0, 1) == p0.x);
    assert(quad_coord(p0.y as int, c.y as int, p1.y as int, 0, 1) == p0.y);
    assert(quad_coord(p0.x as int, c.x as int, p1.x as int, 1, 1) == p1.x);
    assert(quad_coord(p0.y as int, c.y as int, p1.y as int, 1, 1) == p1.y);
    assert(q.len() == 2);
    assert(q[0] == p0);
    assert(q[1] == p1);
    assert(q =~= seq![p0, p1]);
}

/// Drawing a contour backwards from an empty buffer negates every delta, and the
/// rendered coverage is the same as drawing it forwards.
pub proof fn law_reversed_contour(d: Seq<int>, w: int, h: int, segs: Seq<(Point, Point)>)
    requires
        all_zero(d),
        0 <= w,
        0 <= h,
        w * h <= d.len(),
    ensures
        forall|i: int|
            0 <= i < d.len() ==> #[trigger] add_segments(d, w, reversed(segs))[i] == -add_segments(
                d,
                w,
                segs,
            )[i],
        bitmap_of(add_segments(d, w, reversed(segs)), w, h) == bitmap_of(
            add_segments(d, w, segs),
            w,
            h,
        ),
{
    let fwd = add_segments(d, w, segs);
    let bwd = add_segments(d, w, reversed(segs));
    lemma_add_segments_total(d, w, segs);
    lemma_add_segments_total(d, w, reversed(segs));
    assert forall|i: int| 0 <= i < d.len() implies #[trigger] bwd[i] == -1 * fwd[i] by {
        lemma_total_delta_reversed(w, segs, i);
    }
    assert forall|n: int| 0 <= n <= d.len() implies #[trigger] prefix_sum(bwd, n) == -1
        * prefix_sum(fwd, n) by {
        lemma_prefix_sum_scaled(fwd, bwd, -1, n);
    }
    assert(bitmap_of(bwd, w, h) =~= bitmap_of(fwd, w, h)) by {
        assert forall|i: int| 0 <= i < w * h implies #[trigger] bitmap_of(bwd, w, h)[i] == bitmap_of(
            fwd,
            w,
            h,
        )[i] by {
            assert(prefix_sum(bwd, i + 1) == -1 * prefix_sum(fwd, i + 1));
        }
    }
}

proof fn lemma_coverage_doubled(s: int)
    ensures
        coverage_byte(2 * s) >= coverage_byte(s),
        coverage_byte(s) == 255 ==> coverage_byte(2 * s) == 255,
        0 <= coverage_byte(s) <= 255,
{
    let v = if s < 0 {
        -s
    } else {
        s
    };
    let c1 = if v > FULL_AREA {
        FULL_AREA as int
    } else {
        v
    };
    let c2 = if 2 * v > FULL_AREA {
        FULL_AREA as int
    } else {
        2 * v
    };
    assert(c1 <= c2);
    vstd::arithmetic::div_mod::lemma_div_is_ordered(c1 * 255, c2 * 255, FULL_AREA as int);
    crate::arith::lemma_div_within(c1 * 255, FULL_AREA as int, 255);
    crate::arith::lemma_div_within(c2 * 255, FULL_AREA as int, 255);
}

/// Drawing the same segments twice from an empty buffer doubles every delta; no
/// pixel gets lighter, and a fully covered pixel stays fully covered.
pub proof fn law_draw_twice(d: Seq<int>, w: int, h: int, segs: Seq<(Point, Point)>)
    requires
        all_zero(d),
        0 <= w,
        0 <= h,
        w * h <= d.len(),
    ensures
        forall|i: int|
            0 <= i < d.len() ==> #[trigger] add_segments(add_segments(d, w, segs), w, segs)[i] == 2
                * add_segments(d, w, segs)[i],
        forall|i: int|
            0 <= i < w * h ==> #[trigger] bitmap_of(
                add_segments(add_segments(d, w, segs), w, segs),
                w,
                h,
            )[i] >= bitmap_of(add_segments(d, w, segs), w, h)[i],
        forall|i: int|
            0 <= i < w * h && bitmap_of(add_segments(d, w, segs), w, h)[i] == 255 ==> #[trigger] bitmap_of(
                add_segments(add_segments(d, w, segs), w, segs),
                w,
                h,
            )[i] == 255,
{
    let once = add_segments(d, w, segs);
    let twice = add_segments(once, w, segs);
    lemma_add_segments_total(d, w, segs);
    lemma_add_segments_total(once, w, segs);
    assert forall|i: int| 0 <= i < d.len() implies #[trigger] twice[i] == 2 * once[i] by {}
    assert forall|i: int| 0 <= i < w * h implies #[trigger] bitmap_of(twice, w, h)[i] >= bitmap_of(
        once,
        w,
        h,
    )[i] && (bitmap_of(once, w, h)[i] == 255 ==> bitmap_of(twice, w, h)[i] == 255) by {
        lemma_prefix_sum_scaled(once, twice, 2, i + 1);
        lemma_coverage_doubled(prefix_sum(once, i + 1));
    }
}

/// The point at pixel corner `(x, y)`.
pub open spec fn pixel_point(x: int, y: int) -> Point {
    Point { x: (x * fsub()) as i64, y: (y * fsub()) as i64 }
}

/// The closed contour of the pixel-aligned rectangle with corners `(x0, y0)` and
/// `(x1, y1)`: down its left side, along the bottom, up its right side, back along the top.
pub open spec fn rect_contour(x0: int, y0: int, x1: int, y1: int) -> Seq<(Point, Point)> {
    seq![
        (pixel_point(x0, y0), pixel_point(x0, y1)),
        (pixel_point(x0, y1), pixel_point(x1, y1)),
        (pixel_point(x1, y1), pixel_point(x1, y0)),
        (pixel_point(x1, y0), pixel_point(x0, y0)),
    ]
}

/// How many rows `k` in `[lo, hi)` put column `x` at index `i`.
spec fn hits(w: int, x: int, lo: int, hi: int, i: int) -> int
    decreases hi - lo,
{
    if hi <= lo {
        0
    } else {
        hits(w, x, lo, hi - 1, i) + (if i == (hi - 1) * w + x {
            1int
        } else {
            0int
        })
    }
}

/// How many rows `k` in `[lo, hi)` put column `x` before index `n`.
spec fn below(w: int, x: int, lo: int, hi: int, n: int) -> int
    decreases hi - lo,
{
    if hi <= lo {
        0
    } else {
        below(w, x, lo, hi - 1, n) + (if (hi - 1) * w + x < n {
            1int
        } else {
            0int
        })
    }
}

proof fn lemma_vertical_rows(w: int, x: int, y0: int, y1: int, r: int, i: int)
    requires
        1 <= w,
        0 <= x <= 65536,
        0 <= y0 < y1 <= 65536,
        y0 <= r <= y1,
    ensures
        rows_sum(w, pixel_point(x, y0), pixel_point(x, y1), r, i) == FULL_AREA * hits(
            w,
            x,
            y0,
            r,
            i,
        ),
    decreases r - y0,
{
    let a = pixel_point(x, y0);
    let b = pixel_point(x, y1);
    lemma_div_exact(y0, fsub());
    assert(a.y as int == y0 * fsub());
    assert(b.y as int == y1 * fsub());
    assert(a.x as int == x * fsub() && b.x as int == x * fsub());
    assert((a.y as int) / fsub() == y0);
    if r > y0 {
        lemma_vertical_rows(w, x, y0, y1, r - 1, i);
        let k = r - 1;
        assert(row_top(a, b, k) == k * fsub());
        assert(row_bot(a, b, k) == k * fsub() + fsub());
        assert forall|t: int| #[trigger] x_at(a, b, t) == x * fsub() by {
            assert((b.x - a.x) * (t - a.y) == 0) by (nonlinear_arith)
                requires
                    b.x == a.x,
            ;
        }
        lemma_div_exact(x, fsub());
        let xx = x * fsub();
        assert(xx / fsub() == x);
        assert(row_cell(xx, xx, fsub(), i - k * w) == if i - k * w == x {
            FULL_AREA as int
        } else {
            0
        });
        assert(cell_in_row(w, a, b, k, i) == row_cell(xx, xx, fsub(), i - k * w));
    }
}

proof fn lemma_edge_deltas(w: int, x0: int, y0: int, x1: int, y1: int, i: int)
    requires
        1 <= w,
        0 <= x0 <= 65536,
        0 <= x1 <= 65536,
        0 <= y0 < y1 <= 65536,
    ensures
        seg_delta(w, pixel_point(x0, y0), pixel_point(x0, y1), i) == FULL_AREA * hits(
            w,
            x0,
            y0,
            y1,
            i,
        ),
        seg_delta(w, pixel_point(x0, y1), pixel_point(x1, y1), i) == 0,
        seg_delta(w, pixel_point(x1, y1), pixel_point(x1, y0), i) == -FULL_AREA * hits(
            w,
            x1,
            y0,
            y1,
            i,
        ),
        seg_delta(w, pixel_point(x1, y0), pixel_point(x0, y0), i) == 0,
{
    lemma_vertical_rows(w, x0, y0, y1, y1, i);
    lemma_vertical_rows(w, x1, y0, y1, y1, i);
    assert((y1 * fsub() + fsub() - 1) / fsub() == y1) by {
        vstd::arithmetic::div_mod::lemma_div_multiples_vanish_fancy(y1, fsub() - 1, fsub());
        assert(fsub() * y1 + (fsub() - 1) == y1 * fsub() + fsub() - 1) by (nonlinear_arith);
    }
    assert(0 <= y0 * fsub() < y1 * fsub() <= 0x100_0000) by (nonlinear_arith)
        requires
            0 <= y0 < y1 <= 65536,
            fsub() == 256,
    ;
    assert(pixel_point(x0, y1).y as int == y1 * fsub());
    assert(pixel_point(x1, y1).y as int == y1 * fsub());
    assert(pixel_point(x0, y0).y as int == y0 * fsub());
    assert(pixel_point(x1, y0).y as int == y0 * fsub());
    assert(y0 * fsub() < y1 * fsub());
}

proof fn lemma_below_step(w: int, x: int, lo: int, hi: int, n: int)
    ensures
        below(w, x, lo, hi, n + 1) == below(w, x, lo, hi, n) + hits(w, x, lo, hi, n),
    decreases hi - lo,
{
    if hi > lo {
        lemma_below_step(w, x, lo, hi - 1, n);
    }
}

proof fn lemma_below_zero(w: int, x: int, lo: int, hi: int)
    requires
        1 <= w,
        0 <= x,
        0 <= lo,
    ensures
        below(w, x, lo, hi, 0) == 0,
    decreases hi - lo,
{
    if hi > lo {
        lemma_below_zero(w, x, lo, hi - 1);
        assert((hi - 1) * w >= 0) by (nonlinear_arith)
            requires
                hi - 1 >= 0,
                w >= 1,
        ;
    }
}

/// `below` at the index just after pixel `(r, c)`: the rows above `r`, and row `r`
/// itself when the column lies at or left of `c`.
proof fn lemma_below_at(w: int, x: int, lo: int, hi: int, r: int, c: int)
    requires
        1 <= w,
        0 <= x <= w,
        0 <= c < w,
        0 <= lo <= hi,
        0 <= r,
    ensures
        below(w, x, lo, hi, r * w + c + 1) == (if hi < r {
            hi
        } else {
            r
        }) - lo + (if lo <= r < hi && x <= c {
            1int
        } else {
            0int
        }) + (if r < lo {
            lo - r
        } else {
            0
        }),
    decreases hi - lo,
{
    if hi > lo {
        lemma_below_at(w, x, lo, hi - 1, r, c);
        let k = hi - 1;
        if k < r {
            assert((k + 1) * w <= r * w) by (nonlinear_arith)
                requires
                    k + 1 <= r,
                    w >= 1,
            ;
            assert(k * w + w == (k + 1) * w) by (nonlinear_arith);
        } else if k > r {
            assert((r + 1) * w <= k * w) by (nonlinear_arith)
                requires
                    r + 1 <= k,
                    w >= 1,
            ;
            assert(r * w + w == (r + 1) * w) by (nonlinear_arith);
        }
    }
}

proof fn lemma_rect_prefix(d: Seq<int>, w: int, x0: int, x1: int, y0: int, y1: int, n: int)
    requires
        1 <= w,
        0 <= x0,
        0 <= x1,
        0 <= y0,
        0 <= n <= d.len(),
        forall|i: int|
            0 <= i < d.len() ==> #[trigger] d[i] == FULL_AREA * hits(w, x0, y0, y1, i) - FULL_AREA
                * hits(w, x1, y0, y1, i),
    ensures
        prefix_sum(d, n) == FULL_AREA * below(w, x0, y0, y1, n) - FULL_AREA * below(
            w,
            x1,
            y0,
            y1,
            n,
        ),
    decreases n,
{
    if n == 0 {
        lemma_below_zero(w, x0, y0, y1);
        lemma_below_zero(w, x1, y0, y1);
    } else {
        lemma_rect_prefix(d, w, x0, x1, y0, y1, n - 1);
        lemma_below_step(w, x0, y0, y1, n - 1);
        lemma_below_step(w, x1, y0, y1, n - 1);
    }
}

/// A pixel-aligned rectangle drawn as a closed contour into an empty buffer, in
/// either direction, renders fully covered (255) exactly on the pixels inside it
/// and uncovered (0) everywhere else.
pub proof fn law_filled_rectangle(
    d: Seq<int>,
    w: int,
    h: int,
    x0: int,
    y0: int,
    x1: int,
    y1: int,
    r: int,
    c: int,
)
    requires
        all_zero(d),
        1 <= w <= 65536,
        0 <= h <= 65536,
        w * h <= d.len(),
        0 <= x0 < x1 <= w,
        0 <= y0 < y1 <= h,
        0 <= r < h,
        0 <= c < w,
    ensures
        bitmap_of(add_segments(d, w, rect_contour(x0, y0, x1, y1)), w, h)[r * w + c] == (if y0 <= r
            < y1 && x0 <= c < x1 {
            255int
        } else {
            0int
        }),
        bitmap_of(add_segments(d, w, reversed(rect_contour(x0, y0, x1, y1))), w, h)[r * w + c] == (
        if y0 <= r < y1 && x0 <= c < x1 {
            255int
        } else {
            0int
        }),
{
    let segs = rect_contour(x0, y0, x1, y1);
    let e = add_segments(d, w, segs);
    lemma_add_segments_total(d, w, segs);
    assert forall|i: int| 0 <= i < d.len() implies #[trigger] e[i] == FULL_AREA * hits(
        w,
        x0,
        y0,
        y1,
        i,
    ) - FULL_AREA * hits(w, x1, y0, y1, i) by {
        lemma_edge_deltas(w, x0, y0, x1, y1, i);
        let s3 = segs.drop_last();
        let s2 = s3.drop_last();
        let s1 = s2.drop_last();
        assert(s1.drop_last() =~= Seq::<(Point, Point)>::empty());
        assert(s1.len() == 1 && s1.last() == segs[0]);
        assert(s2.last() == segs[1] && s3.last() == segs[2] && segs.last() == segs[3]);
        assert(total_delta(w, s1.drop_last(), i) == 0);
        assert(total_delta(w, s1, i) == seg_delta(w, segs[0].0, segs[0].1, i));
        assert(total_delta(w, s2, i) == total_delta(w, s1, i) + seg_delta(w, segs[1].0, segs[1].1, i));
        assert(total_delta(w, s3, i) == total_delta(w, s2, i) + seg_delta(w, segs[2].0, segs[2].1, i));
        assert(total_delta(w, segs, i) == total_delta(w, s3, i) + seg_delta(
            w,
            segs[3].0,
            segs[3].1,
            i,
        ));
    }
    assert(r * w + c < w * h) by (nonlinear_arith)
        requires
            0 <= r < h,
            0 <= c < w,
    ;
    let n = r * w + c + 1;
    lemma_rect_prefix(e, w, x0, x1, y0, y1, n);
    lemma_below_at(w, x0, y0, y1, r, c);
    lemma_below_at(w, x1, y0, y1, r, c);
    let s = prefix_sum(e, n);
    assert(bitmap_of(e, w, h)[r * w + c] == coverage_byte(s));
    if y0 <= r < y1 && x0 <= c < x1 {
        assert(s == FULL_AREA);
    } else {
        assert(s == 0);
    }
    law_reversed_contour(d, w, h, segs);
}

} // verus!
