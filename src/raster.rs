//! The signed-area accumulation buffer and its projection to a coverage bitmap.
//!
//! Areas are counted in half sub-pixel squares, so a full pixel holds `FULL_AREA`
//! and every deposit of a straight segment is an exact integer.
use vstd::prelude::*;
use crate::arith::{lemma_div_within, lemma_div_exact};
use crate::flatten::{
    cubic_polyline, flatten_cubic, flatten_quad, lemma_cubic_in_box, lemma_quad_in_box,
    quad_polyline, sections, dev_sq, MAX_COORD,
};
use crate::geometry::{PathOp, PathSegments, Point, SUBPIXELS};

verus! {

/// Largest width or height, in pixels, that a rasterizer accepts.
pub const MAX_DIM: usize = 65536;

/// Extra cells after the last row; deposits right of the last column land there.
pub const PADDING: usize = 8;

/// Area of one full pixel, in half sub-pixel squares.
pub const FULL_AREA: i64 = 131072;

/// Bound on the magnitude that the delta cells may reach.
pub const LOAD_LIMIT: u64 = 0x4000_0000_0000_0000;

/// Why a draw call was refused; the buffer is left as it was.
#[derive(Clone, Copy, Debug, PartialEq, Eq, Structural)]
pub enum RasterError {
    /// A coordinate lies outside `[0, bound]`; `bound` is the violated limit.
    OutOfBounds { coordinate: i64, bound: i64 },
    /// The delta cells could exceed their range.
    Overflow,
}

/// `SUBPIXELS` as a mathematical integer.
pub open spec fn fsub() -> int {
    SUBPIXELS as int
}

/// The bounds check of one point against a `w` by `h` pixel canvas.
pub open spec fn check_point(p: Point, w: int, h: int) -> Result<(), RasterError> {
    if p.x < 0 {
        Err(RasterError::OutOfBounds { coordinate: p.x, bound: 0 })
    } else if p.x > w * fsub() {
        Err(RasterError::OutOfBounds { coordinate: p.x, bound: (w * fsub()) as i64 })
    } else if p.y < 0 {
        Err(RasterError::OutOfBounds { coordinate: p.y, bound: 0 })
    } else if p.y > h * fsub() {
        Err(RasterError::OutOfBounds { coordinate: p.y, bound: (h * fsub()) as i64 })
    } else {
        Ok(())
    }
}

/// `p` lies on the closed `w` by `h` pixel canvas.
pub open spec fn in_canvas(p: Point, w: int, h: int) -> bool {
    0 <= p.x <= w * fsub() && 0 <= p.y <= h * fsub()
}

/// The x coordinate of the segment `a`-`b` (with `a.y < b.y`) at height `y`,
/// rounded toward `a.x`.
pub open spec fn x_at(a: Point, b: Point, y: int) -> int {
    if b.x >= a.x {
        a.x + ((b.x - a.x) * (y - a.y)) / (b.y - a.y)
    } else {
        a.x - ((a.x - b.x) * (y - a.y)) / (b.y - a.y)
    }
}

/// Area under the linear ramp that rises by `dy` between `xl` and `xr`, from `xl` to `e`.
pub open spec fn ramp(xl: int, xr: int, dy: int, e: int) -> int {
    ((e - xl) * (e - xl) * dy) / (xr - xl)
}

/// What one row piece of a segment, spanning `[xl, xr]` with height `dy`, deposits
/// into column `c` (before the direction sign).
pub open spec fn row_cell(xl: int, xr: int, dy: int, c: int) -> int {
    let c0 = xl / fsub();
    if xr <= (c0 + 1) * fsub() {
        let m = xl + xr - 2 * c0 * fsub();
        if c == c0 {
            dy * (2 * fsub() - m)
        } else if c == c0 + 1 {
            dy * m
        } else {
            0
        }
    } else {
        let c1 = xr / fsub();
        if c == c0 {
            ramp(xl, xr, dy, (c0 + 1) * fsub())
        } else if c0 < c < c1 {
            ramp(xl, xr, dy, (c + 1) * fsub()) - ramp(xl, xr, dy, c * fsub())
        } else if c == c1 {
            2 * fsub() * dy - ramp(xl, xr, dy, c1 * fsub())
        } else {
            0
        }
    }
}

/// Where the upward segment `a`-`b` enters pixel row `r`.
pub open spec fn row_top(a: Point, b: Point, r: int) -> int {
    if r * fsub() > a.y {
        r * fsub()
    } else {
        a.y as int
    }
}

/// Where the upward segment `a`-`b` leaves pixel row `r`.
pub open spec fn row_bot(a: Point, b: Point, r: int) -> int {
    if r * fsub() + fsub() < b.y {
        r * fsub() + fsub()
    } else {
        b.y as int
    }
}

/// The smaller of `x` and `y`.
pub open spec fn min_int(x: int, y: int) -> int {
    if x <= y {
        x
    } else {
        y
    }
}

/// The larger of `x` and `y`.
pub open spec fn max_int(x: int, y: int) -> int {
    if x <= y {
        y
    } else {
        x
    }
}

/// What row `r` of the upward segment `a`-`b` deposits at buffer index `i`
/// (before the direction sign).
pub open spec fn cell_in_row(w: int, a: Point, b: Point, r: int, i: int) -> int {
    let xs = x_at(a, b, row_top(a, b, r));
    let xe = x_at(a, b, row_bot(a, b, r));
    row_cell(min_int(xs, xe), max_int(xs, xe), row_bot(a, b, r) - row_top(a, b, r), i - r * w)
}

/// Sum of the deposits at index `i` of the rows of `a`-`b` below row `r`.
pub open spec fn rows_sum(w: int, a: Point, b: Point, r: int, i: int) -> int
    decreases r - (a.y as int) / fsub(),
{
    if r <= (a.y as int) / fsub() {
        0
    } else {
        rows_sum(w, a, b, r - 1, i) + cell_in_row(w, a, b, r - 1, i)
    }
}

/// What the straight segment `p0`-`p1` deposits at buffer index `i` of a buffer
/// with rows of `w` cells: the rows it spans, signed by its vertical direction.
pub open spec fn seg_delta(w: int, p0: Point, p1: Point, i: int) -> int {
    if p0.y == p1.y {
        0
    } else if p0.y < p1.y {
        rows_sum(w, p0, p1, (p1.y as int + fsub() - 1) / fsub(), i)
    } else {
        -rows_sum(w, p1, p0, (p0.y as int + fsub() - 1) / fsub(), i)
    }
}

/// The buffer `d` after the segment `p0`-`p1` is drawn into it.
pub open spec fn add_segment(d: Seq<int>, w: int, p0: Point, p1: Point) -> Seq<int> {
    Seq::new(d.len(), |i: int| d[i] + seg_delta(w, p0, p1, i))
}

/// How much drawing `p0`-`p1` may move any one cell: a bound that the rasterizer
/// charges against `LOAD_LIMIT`.
pub open spec fn seg_load(w: int, p0: Point, p1: Point) -> int {
    2 * (w + 1) * fsub() * (if p0.y <= p1.y { p1.y - p0.y } else { p0.y - p1.y })
}

/// Sum of the first `n` cells.
pub open spec fn prefix_sum(d: Seq<int>, n: int) -> int
    decreases n,
{
    if n <= 0 {
        0
    } else {
        prefix_sum(d, n - 1) + d[n - 1]
    }
}

/// The byte for a running sum: its magnitude, clamped to a full pixel, scaled to
/// `0..=255` and truncated.
pub open spec fn coverage_byte(s: int) -> int {
    let v = if s < 0 {
        -s
    } else {
        s
    };
    let c = if v > FULL_AREA {
        FULL_AREA as int
    } else {
        v
    };
    (c * 255) / (FULL_AREA as int)
}

/// The bitmap for the buffer `d` of a `w` by `h` canvas.
pub open spec fn bitmap_of(d: Seq<int>, w: int, h: int) -> Seq<int> {
    Seq::new((w * h) as nat, |i: int| coverage_byte(prefix_sum(d, i + 1)))
}

/// The ramp area grows with its right end and never exceeds the whole ramp.
proof fn lemma_ramp_bounds(xl: int, xr: int, dy: int, e1: int, e2: int)
    requires
        xl <= e1 <= e2 <= xr,
        xl < xr,
        dy >= 0,
    ensures
        0 <= ramp(xl, xr, dy, e1) <= ramp(xl, xr, dy, e2) <= (xr - xl) * dy,
{
    let s = xr - xl;
    assert(0 <= (e1 - xl) * (e1 - xl) * dy <= (e2 - xl) * (e2 - xl) * dy) by (nonlinear_arith)
        requires
            xl <= e1 <= e2,
            dy >= 0,
    ;
    assert((e2 - xl) * (e2 - xl) * dy <= ((xr - xl) * dy) * s) by (nonlinear_arith)
        requires
            xl <= e2 <= xr,
            s == xr - xl,
            dy >= 0,
    ;
    vstd::arithmetic::div_mod::lemma_div_is_ordered(0, (e1 - xl) * (e1 - xl) * dy, s);
    vstd::arithmetic::div_mod::lemma_div_is_ordered(
        (e1 - xl) * (e1 - xl) * dy,
        (e2 - xl) * (e2 - xl) * dy,
        s,
    );
    vstd::arithmetic::div_mod::lemma_div_is_ordered(
        (e2 - xl) * (e2 - xl) * dy,
        ((xr - xl) * dy) * s,
        s,
    );
    lemma_div_exact((xr - xl) * dy, s);
}

/// `ramp(xl, xr, dy, e)` for a ramp within the canvas.
fn ramp_at(xl: i64, xr: i64, dy: i64, e: i64) -> (r: i64)
    requires
        0 <= xl <= e <= xr <= 0x100_0000,
        xl < xr,
        0 < dy <= SUBPIXELS,
    ensures
        r == ramp(xl as int, xr as int, dy as int, e as int),
        0 <= r <= (xr - xl) * dy,
{
    proof {
        assert((e - xl) * (e - xl) * dy <= 0x100_0000 * 0x100_0000 * 256) by (nonlinear_arith)
            requires
                0 <= e - xl <= 0x100_0000,
                0 < dy <= 256,
        ;
        assert(0 <= (e - xl) * (e - xl) <= 0x100_0000 * 0x100_0000) by (nonlinear_arith)
            requires
                0 <= e - xl <= 0x100_0000,
        ;
        lemma_ramp_bounds(xl as int, xr as int, dy as int, e as int, e as int);
    }
    let d = e - xl;
    let sq = d * d;
    sq * dy / (xr - xl)
}

proof fn lemma_signed(dir: int, v: int)
    requires
        dir == 1 || dir == -1,
    ensures
        dir == 1 ==> dir * v == v,
        dir == -1 ==> dir * v == -v,
{
}

/// Adds `v` to cell `i`.
fn add_at(buf: &mut Vec<i64>, i: usize, v: i64)
    requires
        i < old(buf)@.len(),
        i64::MIN <= old(buf)@[i as int] + v <= i64::MAX,
    ensures
        final(buf)@ == old(buf)@.update(i as int, (old(buf)@[i as int] + v) as i64),
{
    let cur = buf[i];
    buf.set(i, cur + v);
}

/// Deposits one row piece of a segment, spanning `[xl, xr]` with height `dy`, into
/// the cells from `start` on, with the sign `dir`.
fn deposit_row(
    buf: &mut Vec<i64>,
    start: usize,
    xl: i64,
    xr: i64,
    dy: i64,
    dir: i64,
    Ghost(cap): Ghost<int>,
)
    requires
        0 <= xl <= xr <= 0x100_0000,
        0 < dy <= SUBPIXELS,
        dir == 1 || dir == -1,
        start + (xr as int) / fsub() + 2 <= old(buf)@.len(),
        0 <= cap,
        cap + 2 * (xr - xl + fsub()) * dy <= i64::MAX,
        forall|j: int| 0 <= j < old(buf)@.len() ==> -cap <= #[trigger] old(buf)@[j] <= cap,
    ensures
        final(buf)@.len() == old(buf)@.len(),
        forall|j: int|
            0 <= j < old(buf)@.len() ==> #[trigger] final(buf)@[j] == old(buf)@[j] + dir * row_cell(
                xl as int,
                xr as int,
                dy as int,
                j - start,
            ),
        forall|j: int|
            0 <= j < old(buf)@.len() ==> -(cap + 2 * (xr - xl + fsub()) * dy) <= #[trigger] final(buf)@[j] <= cap + 2 * (xr - xl + fsub()) * dy,
{
    let n = buf.len();
    let ghost b0 = buf@;
    let ghost bound = cap + 2 * (xr - xl + fsub()) * dy;
    proof {
        assert(0 <= (xr - xl) * dy <= 2 * (xr - xl + fsub()) * dy) by (nonlinear_arith)
            requires
                xl <= xr,
                dy > 0,
        ;
    }
    let c0 = xl / SUBPIXELS;
    proof {
        vstd::arithmetic::div_mod::lemma_div_is_ordered(xl as int, xr as int, fsub());
    }
    if xr <= (c0 + 1) * SUBPIXELS {
        let m = xl + xr - 2 * c0 * SUBPIXELS;
        assert(0 <= m <= 2 * SUBPIXELS);
        proof {
            assert(dy * (2 * SUBPIXELS - m) + dy * m == 2 * SUBPIXELS * dy) by (nonlinear_arith);
            assert(0 <= dy * m <= dy * (2 * SUBPIXELS)) by (nonlinear_arith)
                requires
                    0 <= m <= 2 * SUBPIXELS,
                    dy > 0,
            ;
            assert(2 * SUBPIXELS * dy <= 2 * (xr - xl + fsub()) * dy) by (nonlinear_arith)
                requires
                    xl <= xr,
                    dy > 0,
            ;
        }
        proof {
            lemma_signed(dir as int, dy * (2 * SUBPIXELS - m));
            lemma_signed(dir as int, dy * m);
        }
        let i0 = start + c0 as usize;
        add_at(buf, i0, dir * (dy * (2 * SUBPIXELS - m)));
        add_at(buf, i0 + 1, dir * (dy * m));
        proof {
            assert forall|j: int| 0 <= j < b0.len() implies #[trigger] buf@[j] == b0[j] + dir
                * row_cell(xl as int, xr as int, dy as int, j - start) by {
                if j == i0 {
                } else if j == i0 + 1 {
                } else {
                    assert(row_cell(xl as int, xr as int, dy as int, j - start) == 0);
                }
            }
        }
    } else {
        let c1 = xr / SUBPIXELS;
        let ghost s = xr - xl;
        let mut edge = (c0 + 1) * SUBPIXELS;
        let mut upto = ramp_at(xl, xr, dy, edge);
        proof {
            lemma_signed(dir as int, upto as int);
        }
        assert(buf@[start + c0] == b0[start + c0]);
        add_at(buf, start + c0 as usize, dir * upto);
        proof {
            assert forall|j: int| 0 <= j < b0.len() implies #[trigger] buf@[j] == b0[j] + (if j
                - start < c0 + 1 {
                dir * row_cell(xl as int, xr as int, dy as int, j - start)
            } else {
                0
            }) by {
                if j == start + c0 {
                    assert(row_cell(xl as int, xr as int, dy as int, j - start) == upto);
                } else if j - start < c0 {
                    assert(row_cell(xl as int, xr as int, dy as int, j - start) == 0);
                }
            }
        }
        let mut c = c0 + 1;
        while c < c1
            invariant
                0 <= xl <= xr <= 0x100_0000,
                0 < dy <= SUBPIXELS,
                dir == 1 || dir == -1,
                c0 == xl / SUBPIXELS,
                c1 == xr / SUBPIXELS,
                xr > (c0 + 1) * SUBPIXELS,
                c0 < c <= c1,
                edge == c * SUBPIXELS,
                upto == ramp(xl as int, xr as int, dy as int, edge as int),
                0 <= upto <= (xr - xl) * dy,
                start + c1 + 2 <= b0.len(),
                buf@.len() == b0.len(),
                n == b0.len(),
                bound == cap + 2 * (xr - xl + fsub()) * dy,
                bound <= i64::MAX,
                (xr - xl) * dy <= 2 * (xr - xl + fsub()) * dy,
                forall|j: int| 0 <= j < b0.len() ==> -cap <= #[trigger] b0[j] <= cap,
                forall|j: int|
                    0 <= j < b0.len() ==> #[trigger] buf@[j] == b0[j] + (if j - start < c {
                        dir * row_cell(xl as int, xr as int, dy as int, j - start)
                    } else {
                        0
                    }),
                forall|j: int|
                    0 <= j < b0.len() ==> -(cap + upto) <= #[trigger] buf@[j] <= cap + upto,
            decreases c1 - c,
        {
            let next = edge + SUBPIXELS;
            proof {
                assert(next <= xr);
                lemma_ramp_bounds(xl as int, xr as int, dy as int, edge as int, next as int);
            }
            let total = ramp_at(xl, xr, dy, next);
            let ghost bprev = buf@;
            assert(buf@[start + c] == b0[start + c]);
            proof {
                lemma_signed(dir as int, total - upto);
            }
            add_at(buf, start + c as usize, dir * (total - upto));
            proof {
                assert forall|j: int| 0 <= j < b0.len() implies #[trigger] buf@[j] == b0[j] + (if j
                    - start < c + 1 {
                    dir * row_cell(xl as int, xr as int, dy as int, j - start)
                } else {
                    0
                }) by {
                    if j == start + c {
                        assert(bprev[j] == b0[j]);
                        assert(row_cell(xl as int, xr as int, dy as int, j - start) == total - upto);
                    } else {
                        assert(bprev[j] == buf@[j]);
                    }
                }
                assert forall|j: int| 0 <= j < b0.len() implies -(cap + total) <= #[trigger] buf@[j]
                    <= cap + total by {
                    if j == start + c {
                        assert(bprev[j] == b0[j]);
                    } else {
                        assert(bprev[j] == buf@[j]);
                    }
                }
            }
            upto = total;
            edge = next;
            c = c + 1;
        }
        proof {
            assert(2 * SUBPIXELS * dy + 2 * upto <= 2 * (xr - xl + fsub()) * dy) by (nonlinear_arith)
                requires
                    upto <= (xr - xl) * dy,
            ;
        }
        let ghost bprev = buf@;
        assert(buf@[start + c1] == b0[start + c1]);
        proof {
            lemma_signed(dir as int, 2 * SUBPIXELS * dy - upto);
        }
        add_at(buf, start + c1 as usize, dir * (2 * SUBPIXELS * dy - upto));
        proof {
            assert forall|j: int| 0 <= j < b0.len() implies #[trigger] buf@[j] == b0[j] + dir
                * row_cell(xl as int, xr as int, dy as int, j - start) by {
                if j == start + c1 {
                    assert(bprev[j] == b0[j]);
                } else {
                    assert(bprev[j] == buf@[j]);
                    if j - start > c1 {
                        assert(row_cell(xl as int, xr as int, dy as int, j - start) == 0);
                    }
                }
            }
        }
    }
}

/// The result of drawing `p0`-`p1` on a `w` by `h` canvas whose cells carry `load`.
pub open spec fn line_status(w: int, h: int, load: int, p0: Point, p1: Point) -> Result<
    (),
    RasterError,
> {
    if check_point(p0, w, h).is_err() {
        check_point(p0, w, h)
    } else if check_point(p1, w, h).is_err() {
        check_point(p1, w, h)
    } else if load + seg_load(w, p0, p1) > LOAD_LIMIT {
        Err(RasterError::Overflow)
    } else {
        Ok(())
    }
}

/// Vertical progress of the upward segment `a`-`b` at the top of row `r`.
spec fn progress(a: Point, b: Point, r: int) -> int {
    min_int(max_int(r * fsub(), a.y as int), b.y as int) - a.y
}

/// The bounds check of `p` on a `w` by `h` canvas.
fn check_in_canvas(p: Point, w: usize, h: usize) -> (r: Result<(), RasterError>)
    requires
        w <= MAX_DIM,
        h <= MAX_DIM,
    ensures
        r == check_point(p, w as int, h as int),
{
    let wf = w as i64 * SUBPIXELS;
    let hf = h as i64 * SUBPIXELS;
    if p.x < 0 {
        Err(RasterError::OutOfBounds { coordinate: p.x, bound: 0 })
    } else if p.x > wf {
        Err(RasterError::OutOfBounds { coordinate: p.x, bound: wf })
    } else if p.y < 0 {
        Err(RasterError::OutOfBounds { coordinate: p.y, bound: 0 })
    } else if p.y > hf {
        Err(RasterError::OutOfBounds { coordinate: p.y, bound: hf })
    } else {
        Ok(())
    }
}

/// `x_at(a, b, y)` for points within the canvas.
fn x_at_exec(a: Point, b: Point, y: i64) -> (r: i64)
    requires
        0 <= a.x <= 0x100_0000,
        0 <= b.x <= 0x100_0000,
        0 <= a.y <= y <= b.y <= 0x100_0000,
        a.y < b.y,
    ensures
        r == x_at(a, b, y as int),
        min_int(a.x as int, b.x as int) <= r <= max_int(a.x as int, b.x as int),
{
    let dy = b.y - a.y;
    let t = y - a.y;
    if b.x >= a.x {
        let dx = b.x - a.x;
        proof {
            assert(0 <= dx * t <= dx * dy <= 0x100_0000 * 0x100_0000) by (nonlinear_arith)
                requires
                    0 <= dx <= 0x100_0000,
                    0 <= t <= dy <= 0x100_0000,
            ;
            lemma_div_within(dx * t, dy as int, dx as int);
        }
        a.x + (dx * t) / dy
    } else {
        let dx = a.x - b.x;
        proof {
            assert(0 <= dx * t <= dx * dy <= 0x100_0000 * 0x100_0000) by (nonlinear_arith)
                requires
                    0 <= dx <= 0x100_0000,
                    0 <= t <= dy <= 0x100_0000,
            ;
            lemma_div_within(dx * t, dy as int, dx as int);
        }
        a.x - (dx * t) / dy
    }
}

/// Deposits the upward segment `a`-`b`, row by row, with the sign `dir`.
fn deposit_segment(
    buf: &mut Vec<i64>,
    w: usize,
    h: usize,
    a: Point,
    b: Point,
    dir: i64,
    Ghost(cap): Ghost<int>,
)
    requires
        w <= MAX_DIM,
        h <= MAX_DIM,
        old(buf)@.len() == w * h + PADDING,
        w * h + PADDING <= usize::MAX,
        in_canvas(a, w as int, h as int),
        in_canvas(b, w as int, h as int),
        a.y < b.y,
        dir == 1 || dir == -1,
        0 <= cap,
        cap + seg_load(w as int, a, b) <= i64::MAX,
        forall|j: int| 0 <= j < old(buf)@.len() ==> -cap <= #[trigger] old(buf)@[j] <= cap,
    ensures
        final(buf)@.len() == old(buf)@.len(),
        forall|j: int|
            0 <= j < old(buf)@.len() ==> #[trigger] final(buf)@[j] == old(buf)@[j] + dir * rows_sum(
                w as int,
                a,
                b,
                (b.y as int + fsub() - 1) / fsub(),
                j,
            ),
        forall|j: int|
            0 <= j < old(buf)@.len() ==> -(cap + seg_load(w as int, a, b)) <= #[trigger] final(buf)@[j]
                <= cap + seg_load(w as int, a, b),
{
    let ghost b0 = buf@;
    let ghost k = 2 * (w + 1) * fsub();
    let r_end = ((b.y + SUBPIXELS - 1) / SUBPIXELS) as usize;
    let mut r = (a.y / SUBPIXELS) as usize;
    proof {
        assert(w * fsub() <= 0x100_0000);
        assert(h * fsub() <= 0x100_0000);
        assert(seg_load(w as int, a, b) == k * (b.y - a.y));
        vstd::arithmetic::div_mod::lemma_fundamental_div_mod(a.y as int, fsub());
        vstd::arithmetic::div_mod::lemma_fundamental_div_mod(b.y as int + fsub() - 1, fsub());
        assert(r * fsub() <= a.y);
        assert(r_end * fsub() >= b.y);
        assert(r_end <= h);
    }
    while r < r_end
        invariant
            w <= MAX_DIM,
            h <= MAX_DIM,
            b0.len() == w * h + PADDING,
            w * h + PADDING <= usize::MAX,
            buf@.len() == b0.len(),
            in_canvas(a, w as int, h as int),
            in_canvas(b, w as int, h as int),
            a.y < b.y,
            dir == 1 || dir == -1,
            0 <= cap,
            k == 2 * (w + 1) * fsub(),
            cap + k * (b.y - a.y) <= i64::MAX,
            r_end == (b.y as int + fsub() - 1) / fsub(),
            r_end * fsub() >= b.y,
            r_end <= h,
            (a.y as int) / fsub() <= r <= r_end,
            r * fsub() <= max_int(a.y as int, r * fsub()),
            forall|j: int| 0 <= j < b0.len() ==> -cap <= #[trigger] b0[j] <= cap,
            forall|j: int|
                0 <= j < b0.len() ==> #[trigger] buf@[j] == b0[j] + dir * rows_sum(
                    w as int,
                    a,
                    b,
                    r as int,
                    j,
                ),
            forall|j: int|
                0 <= j < b0.len() ==> -(cap + k * progress(a, b, r as int)) <= #[trigger] buf@[j]
                    <= cap + k * progress(a, b, r as int),
        decreases r_end - r,
    {
        let rf = r as i64 * SUBPIXELS;
        let top = if rf > a.y {
            rf
        } else {
            a.y
        };
        let bot = if rf + SUBPIXELS < b.y {
            rf + SUBPIXELS
        } else {
            b.y
        };
        proof {
            vstd::arithmetic::div_mod::lemma_fundamental_div_mod(a.y as int, fsub());
            vstd::arithmetic::div_mod::lemma_fundamental_div_mod(b.y as int + fsub() - 1, fsub());
        }
        assert(top < bot);
        let dy = bot - top;
        let xs = x_at_exec(a, b, top);
        let xe = x_at_exec(a, b, bot);
        let xl = if xs <= xe {
            xs
        } else {
            xe
        };
        let xr = if xs <= xe {
            xe
        } else {
            xs
        };
        proof {
            assert(r + 1 <= h);
            assert(r * w + w <= h * w) by (nonlinear_arith)
                requires
                    r + 1 <= h,
                    w >= 0,
            ;
            assert(h * w == w * h) by (nonlinear_arith);
            vstd::arithmetic::div_mod::lemma_div_is_ordered(xr as int, w * fsub(), fsub());
            lemma_div_exact(w as int, fsub());
            assert(progress(a, b, r + 1) == progress(a, b, r as int) + dy);
            assert(k * progress(a, b, r + 1) == k * progress(a, b, r as int) + k * dy) by (
            nonlinear_arith)
                requires
                    progress(a, b, r + 1) == progress(a, b, r as int) + dy,
            ;
            assert(k * progress(a, b, r + 1) <= k * (b.y - a.y)) by (nonlinear_arith)
                requires
                    progress(a, b, r + 1) <= b.y - a.y,
                    k >= 0,
            ;
            assert(0 <= k * progress(a, b, r as int)) by (nonlinear_arith)
                requires
                    progress(a, b, r as int) >= 0,
                    k >= 0,
            ;
            assert(2 * (xr - xl + fsub()) * dy <= k * dy) by (nonlinear_arith)
                requires
                    xr - xl <= w * fsub(),
                    k == 2 * (w + 1) * fsub(),
                    dy > 0,
            ;
        }
        let start = r * w;
        let ghost bprev = buf@;
        deposit_row(buf, start, xl, xr, dy, dir, Ghost(cap + k * progress(a, b, r as int)));
        proof {
            assert forall|j: int| 0 <= j < b0.len() implies #[trigger] buf@[j] == b0[j] + dir
                * rows_sum(w as int, a, b, r + 1, j) by {
                assert(cell_in_row(w as int, a, b, r as int, j) == row_cell(
                    xl as int,
                    xr as int,
                    dy as int,
                    j - start,
                ));
                lemma_signed(dir as int, rows_sum(w as int, a, b, r as int, j));
                lemma_signed(dir as int, cell_in_row(w as int, a, b, r as int, j));
                lemma_signed(dir as int, rows_sum(w as int, a, b, r + 1, j));
                assert(bprev[j] == b0[j] + dir * rows_sum(w as int, a, b, r as int, j));
            }
        }
        r = r + 1;
    }
    proof {
        assert(progress(a, b, r as int) == b.y - a.y);
    }
}

/// The consecutive pieces of a polyline.
pub open spec fn pieces(pts: Seq<Point>) -> Seq<(Point, Point)> {
    Seq::new(
        if pts.len() >= 1 {
            (pts.len() - 1) as nat
        } else {
            0
        },
        |i: int| (pts[i], pts[i + 1]),
    )
}

/// The buffer `d` after the segments `segs` are drawn into it, in order.
pub open spec fn add_segments(d: Seq<int>, w: int, segs: Seq<(Point, Point)>) -> Seq<int>
    decreases segs.len(),
{
    if segs.len() == 0 {
        d
    } else {
        add_segment(add_segments(d, w, segs.drop_last()), w, segs.last().0, segs.last().1)
    }
}

/// The load that drawing `segs` charges.
pub open spec fn segments_load(w: int, segs: Seq<(Point, Point)>) -> int
    decreases segs.len(),
{
    if segs.len() == 0 {
        0
    } else {
        segments_load(w, segs.drop_last()) + seg_load(w, segs.last().0, segs.last().1)
    }
}

/// The bounds check of the points `ps`, in order: the first failure, if any.
pub open spec fn check_points(ps: Seq<Point>, w: int, h: int) -> Result<(), RasterError>
    decreases ps.len(),
{
    if ps.len() == 0 {
        Ok(())
    } else if check_points(ps.drop_last(), w, h) is Err {
        check_points(ps.drop_last(), w, h)
    } else {
        check_point(ps.last(), w, h)
    }
}

/// The result of drawing the segments `segs` given by the points `ps`.
pub open spec fn draw_status(
    w: int,
    h: int,
    load: int,
    ps: Seq<Point>,
    segs: Seq<(Point, Point)>,
) -> Result<(), RasterError> {
    if check_points(ps, w, h) is Err {
        check_points(ps, w, h)
    } else if load + segments_load(w, segs) > LOAD_LIMIT {
        Err(RasterError::Overflow)
    } else {
        Ok(())
    }
}

/// The points that the operation `op` names.
pub open spec fn op_points(op: PathOp) -> Seq<Point> {
    match op {
        PathOp::Move(p) => seq![p],
        PathOp::Line(p) => seq![p],
        PathOp::QuadBez(c, p) => seq![c, p],
        PathOp::CubBez(c0, c1, p) => seq![c0, c1, p],
    }
}

/// The points that the first `n` operations name, in order.
pub open spec fn path_points(ops: Seq<PathOp>, n: int) -> Seq<Point>
    decreases n,
{
    if n <= 0 {
        seq![]
    } else {
        path_points(ops, n - 1) + op_points(ops[n - 1])
    }
}

/// The point at which operation `op` leaves the current point.
pub open spec fn end_point(op: PathOp) -> Point {
    match op {
        PathOp::Move(p) => p,
        PathOp::Line(p) => p,
        PathOp::QuadBez(_, p) => p,
        PathOp::CubBez(_, _, p) => p,
    }
}

/// The current point before operation `i`: the end of the one before it; before
/// the first, its own point if it is a `Move`, else the origin.
pub open spec fn current_before(ops: Seq<PathOp>, i: int) -> Point {
    if i > 0 {
        end_point(ops[i - 1])
    } else if ops.len() > 0 && ops[0] is Move {
        end_point(ops[0])
    } else {
        Point { x: 0, y: 0 }
    }
}

/// The straight segments that operation `i` draws.
pub open spec fn op_segments(ops: Seq<PathOp>, i: int) -> Seq<(Point, Point)> {
    let cur = current_before(ops, i);
    match ops[i] {
        PathOp::Move(_) => seq![],
        PathOp::Line(p) => seq![(cur, p)],
        PathOp::QuadBez(c, p) => pieces(quad_polyline(cur, c, p)),
        PathOp::CubBez(c0, c1, p) => pieces(cubic_polyline(cur, c0, c1, p)),
    }
}

/// The straight segments that the first `n` operations draw, in order.
pub open spec fn path_segments(ops: Seq<PathOp>, n: int) -> Seq<(Point, Point)>
    decreases n,
{
    if n <= 0 {
        seq![]
    } else {
        path_segments(ops, n - 1) + op_segments(ops, n - 1)
    }
}

/// Both ends of every segment of `segs` lie on the canvas.
pub open spec fn segs_in_canvas(segs: Seq<(Point, Point)>, w: int, h: int) -> bool {
    forall|k: int|
        0 <= k < segs.len() ==> in_canvas(#[trigger] segs[k].0, w, h) && in_canvas(segs[k].1, w, h)
}

/// The load that drawing `p0`-`p1` charges, for points on the canvas.
fn load_of(w: usize, p0: Point, p1: Point) -> (r: u64)
    requires
        w <= MAX_DIM,
        0 <= p0.y <= 0x100_0000,
        0 <= p1.y <= 0x100_0000,
    ensures
        r == seg_load(w as int, p0, p1),
        r <= 0x4_0000_0000_0000,
{
    let dy_abs: u64 = if p0.y <= p1.y {
        (p1.y - p0.y) as u64
    } else {
        (p0.y - p1.y) as u64
    };
    proof {
        assert(2 * (w + 1) * 256 * dy_abs <= 2 * 65537 * 256 * 0x100_0000) by (nonlinear_arith)
            requires
                w <= 65536,
                dy_abs <= 0x100_0000,
        ;
        assert(0 <= 2 * (w + 1) * 256 * dy_abs) by (nonlinear_arith)
            requires
                dy_abs >= 0,
        ;
    }
    2 * (w as u64 + 1) * (SUBPIXELS as u64) * dy_abs
}

proof fn lemma_seg_load_nonneg(w: int, p0: Point, p1: Point)
    requires
        w >= 0,
    ensures
        seg_load(w, p0, p1) >= 0,
{
    let d = if p0.y <= p1.y {
        p1.y - p0.y
    } else {
        p0.y - p1.y
    };
    assert(2 * (w + 1) * fsub() * d >= 0) by (nonlinear_arith)
        requires
            w >= 0,
            d >= 0,
    ;
}

/// A prefix of a segment list charges no more than the whole list.
proof fn lemma_segments_load_prefix(w: int, segs: Seq<(Point, Point)>, i: int)
    requires
        w >= 0,
        0 <= i <= segs.len(),
    ensures
        segments_load(w, segs.subrange(0, i)) <= segments_load(w, segs),
    decreases segs.len(),
{
    if i < segs.len() {
        assert(segs.drop_last().subrange(0, i) =~= segs.subrange(0, i));
        lemma_segments_load_prefix(w, segs.drop_last(), i);
        lemma_seg_load_nonneg(w, segs.last().0, segs.last().1);
    } else {
        assert(segs.subrange(0, i) =~= segs);
    }
}

/// Checking `a + b` when `a` passes is checking `b`.
proof fn lemma_check_points_append(a: Seq<Point>, b: Seq<Point>, w: int, h: int)
    requires
        check_points(a, w, h) is Ok,
    ensures
        check_points(a + b, w, h) == check_points(b, w, h),
    decreases b.len(),
{
    if b.len() == 0 {
        assert(a + b =~= a);
    } else {
        assert((a + b).drop_last() =~= a + b.drop_last());
        lemma_check_points_append(a, b.drop_last(), w, h);
    }
}

/// A failed check of `a` is also the result for `a + b`.
proof fn lemma_check_points_err(a: Seq<Point>, b: Seq<Point>, w: int, h: int)
    requires
        check_points(a, w, h) is Err,
    ensures
        check_points(a + b, w, h) == check_points(a, w, h),
    decreases b.len(),
{
    if b.len() == 0 {
        assert(a + b =~= a);
    } else {
        assert((a + b).drop_last() =~= a + b.drop_last());
        lemma_check_points_err(a, b.drop_last(), w, h);
    }
}

/// The bounds check of the points `ps`, in order.
fn check_all(ps: &Vec<Point>, w: usize, h: usize) -> (r: Result<(), RasterError>)
    requires
        w <= MAX_DIM,
        h <= MAX_DIM,
    ensures
        r == check_points(ps@, w as int, h as int),
{
    let mut i: usize = 0;
    while i < ps.len()
        invariant
            w <= MAX_DIM,
            h <= MAX_DIM,
            i <= ps@.len(),
            check_points(ps@.subrange(0, i as int), w as int, h as int) is Ok,
        decreases ps@.len() - i,
    {
        let c = check_in_canvas(ps[i], w, h);
        proof {
            assert(ps@.subrange(0, i + 1).drop_last() =~= ps@.subrange(0, i as int));
        }
        if c.is_err() {
            proof {
                assert(ps@ =~= ps@.subrange(0, i + 1) + ps@.subrange(i + 1, ps@.len() as int));
                lemma_check_points_err(
                    ps@.subrange(0, i + 1),
                    ps@.subrange(i + 1, ps@.len() as int),
                    w as int,
                    h as int,
                );
            }
            return c;
        }
        i = i + 1;
    }
    proof {
        assert(ps@.subrange(0, i as int) =~= ps@);
    }
    Ok(())
}

/// Appends the consecutive pieces of the polyline `pts` to `segs`.
fn append_pieces(segs: &mut Vec<(Point, Point)>, pts: &Vec<Point>)
    ensures
        final(segs)@ == old(segs)@ + pieces(pts@),
{
    let ghost s0 = segs@;
    if pts.len() == 0 {
        proof {
            assert(segs@ =~= s0 + pieces(pts@));
        }
        return ;
    }
    let mut k: usize = 0;
    while k < pts.len() - 1
        invariant
            pts@.len() >= 1,
            k + 1 <= pts@.len(),
            segs@ =~= s0 + pieces(pts@).subrange(0, k as int),
        decreases pts@.len() - k,
    {
        segs.push((pts[k], pts[k + 1]));
        k = k + 1;
    }
    proof {
        assert(pieces(pts@).subrange(0, k as int) =~= pieces(pts@));
    }
}

/// Points that pass the check lie on the canvas.
proof fn lemma_check_points_ok(ps: Seq<Point>, w: int, h: int)
    requires
        check_points(ps, w, h) is Ok,
    ensures
        forall|k: int| 0 <= k < ps.len() ==> in_canvas(#[trigger] ps[k], w, h),
    decreases ps.len(),
{
    if ps.len() > 0 {
        lemma_check_points_ok(ps.drop_last(), w, h);
        assert forall|k: int| 0 <= k < ps.len() implies in_canvas(#[trigger] ps[k], w, h) by {
            if k < ps.len() - 1 {
                assert(ps[k] == ps.drop_last()[k]);
            }
        }
    }
}

/// The points of the first `m` operations start the points of the first `n`.
proof fn lemma_path_points_prefix(ops: Seq<PathOp>, m: int, n: int)
    requires
        0 <= m <= n,
    ensures
        path_points(ops, m).len() <= path_points(ops, n).len(),
        path_points(ops, n).subrange(0, path_points(ops, m).len() as int) == path_points(ops, m),
    decreases n,
{
    if m < n {
        lemma_path_points_prefix(ops, m, n - 1);
        assert(path_points(ops, n).subrange(0, path_points(ops, m).len() as int) =~= path_points(
            ops,
            n - 1,
        ).subrange(0, path_points(ops, m).len() as int));
    } else {
        assert(path_points(ops, n).subrange(0, path_points(ops, m).len() as int) =~= path_points(
            ops,
            m,
        ));
    }
}

/// The points that `op` names.
fn op_points_vec(op: PathOp) -> (r: Vec<Point>)
    ensures
        r@ == op_points(op),
{
    let mut v: Vec<Point> = Vec::new();
    match op {
        PathOp::Move(p) => {
            v.push(p);
        },
        PathOp::Line(p) => {
            v.push(p);
        },
        PathOp::QuadBez(c, p) => {
            v.push(c);
            v.push(p);
        },
        PathOp::CubBez(c0, c1, p) => {
            v.push(c0);
            v.push(c1);
            v.push(p);
        },
    }
    proof {
        assert(v@ =~= op_points(op));
    }
    v
}

/// Appends the pieces of the quadratic curve to `segs`; they lie on the canvas.
fn append_quad(segs: &mut Vec<(Point, Point)>, p0: Point, c: Point, p1: Point, w: usize, h: usize)
    requires
        w <= MAX_DIM,
        h <= MAX_DIM,
        in_canvas(p0, w as int, h as int),
        in_canvas(c, w as int, h as int),
        in_canvas(p1, w as int, h as int),
        segs_in_canvas(old(segs)@, w as int, h as int),
    ensures
        final(segs)@ == old(segs)@ + pieces(quad_polyline(p0, c, p1)),
        segs_in_canvas(final(segs)@, w as int, h as int),
{
    let ghost xm = w * fsub();
    let ghost ym = h * fsub();
    proof {
        assert(xm <= MAX_COORD && ym <= MAX_COORD) by (nonlinear_arith)
            requires
                xm == w * fsub(),
                ym == h * fsub(),
                w <= 65536,
                h <= 65536,
                fsub() == 256,
        ;
    }
    let pts = flatten_quad(p0, c, p1);
    let ghost n = sections(dev_sq(p0, c, p1));
    proof {
        assert(n >= 1);
        assert forall|k: int| 0 <= k < pts@.len() implies in_canvas(
            #[trigger] pts@[k],
            w as int,
            h as int,
        ) by {
            lemma_quad_in_box(p0, c, p1, k, n, xm, ym);
        }
    }
    let ghost s0 = segs@;
    append_pieces(segs, &pts);
    proof {
        assert forall|k: int| 0 <= k < segs@.len() implies in_canvas(
            #[trigger] segs@[k].0,
            w as int,
            h as int,
        ) && in_canvas(segs@[k].1, w as int, h as int) by {
            if k >= s0.len() {
                let j = k - s0.len();
                assert(segs@[k] == pieces(pts@)[j]);
                assert(in_canvas(pts@[j], w as int, h as int));
                assert(in_canvas(pts@[j + 1], w as int, h as int));
            } else {
                assert(segs@[k] == s0[k]);
            }
        }
    }
}

/// Appends the pieces of the cubic curve to `segs`; they lie on the canvas.
fn append_cubic(
    segs: &mut Vec<(Point, Point)>,
    p0: Point,
    c0: Point,
    c1: Point,
    p1: Point,
    w: usize,
    h: usize,
)
    requires
        w <= MAX_DIM,
        h <= MAX_DIM,
        in_canvas(p0, w as int, h as int),
        in_canvas(c0, w as int, h as int),
        in_canvas(c1, w as int, h as int),
        in_canvas(p1, w as int, h as int),
        segs_in_canvas(old(segs)@, w as int, h as int),
    ensures
        final(segs)@ == old(segs)@ + pieces(cubic_polyline(p0, c0, c1, p1)),
        segs_in_canvas(final(segs)@, w as int, h as int),
{
    let ghost xm = w * fsub();
    let ghost ym = h * fsub();
    proof {
        assert(xm <= MAX_COORD && ym <= MAX_COORD) by (nonlinear_arith)
            requires
                xm == w * fsub(),
                ym == h * fsub(),
                w <= 65536,
                h <= 65536,
                fsub() == 256,
        ;
    }
    let pts = flatten_cubic(p0, c0, c1, p1);
    let ghost n0 = sections(dev_sq(p0, c0, c1));
    let ghost n1 = sections(dev_sq(c0, c1, p1));
    proof {
        assert(n0 >= 1 && n1 >= 1);
        assert forall|k: int| 0 <= k < pts@.len() implies in_canvas(
            #[trigger] pts@[k],
            w as int,
            h as int,
        ) by {
            if k <= n0 {
                lemma_cubic_in_box(p0, c0, c1, p1, k, n0, xm, ym);
            } else {
                lemma_cubic_in_box(p0, c0, c1, p1, n1 + (k - n0), n1, xm, ym);
            }
        }
    }
    let ghost s0 = segs@;
    append_pieces(segs, &pts);
    proof {
        assert forall|k: int| 0 <= k < segs@.len() implies in_canvas(
            #[trigger] segs@[k].0,
            w as int,
            h as int,
        ) && in_canvas(segs@[k].1, w as int, h as int) by {
            if k >= s0.len() {
                let j = k - s0.len();
                assert(segs@[k] == pieces(pts@)[j]);
                assert(in_canvas(pts@[j], w as int, h as int));
                assert(in_canvas(pts@[j + 1], w as int, h as int));
            } else {
                assert(segs@[k] == s0[k]);
            }
        }
    }
}

/// The rasterizer: a fixed-size canvas and its buffer of signed area deltas.
pub struct Rster {
    width: usize,
    height: usize,
    buf: Vec<i64>,
    load: u64,
}

impl Rster {
    /// Canvas width in pixels.
    pub closed spec fn spec_width(&self) -> int {
        self.width as int
    }

    /// Canvas height in pixels.
    pub closed spec fn spec_height(&self) -> int {
        self.height as int
    }

    /// The delta buffer: `width * height + PADDING` cells, row-major.
    pub closed spec fn deltas(&self) -> Seq<int> {
        Seq::new(self.buf@.len(), |i: int| self.buf@[i] as int)
    }

    /// Sum of the loads of the segments drawn so far; no cell exceeds it in magnitude.
    pub closed spec fn spec_load(&self) -> int {
        self.load as int
    }

    /// The buffer has its fixed size and no cell exceeds the load in magnitude.
    pub closed spec fn wf(&self) -> bool {
        &&& self.width <= MAX_DIM
        &&& self.height <= MAX_DIM
        &&& self.buf@.len() == self.width * self.height + PADDING
        &&& self.width * self.height + PADDING <= usize::MAX
        &&& self.load <= LOAD_LIMIT
        &&& forall|i: int|
            0 <= i < self.buf@.len() ==> -(self.load as int) <= #[trigger] self.buf@[i]
                <= self.load
    }

    /// A rasterizer for a `width` by `height` pixel canvas with an all-zero buffer.
    pub fn new(width: usize, height: usize) -> (r: Rster)
        requires
            width <= MAX_DIM,
            height <= MAX_DIM,
            width * height + PADDING <= usize::MAX,
        ensures
            r.wf(),
            r.spec_width() == width,
            r.spec_height() == height,
            r.spec_load() == 0,
            r.deltas() == Seq::new((width * height + PADDING) as nat, |i: int| 0int),
    {
        let n = width * height + PADDING;
        let mut buf: Vec<i64> = Vec::new();
        let mut i: usize = 0;
        while i < n
            invariant
                i <= n,
                buf@.len() == i,
                forall|j: int| 0 <= j < i ==> buf@[j] == 0,
            decreases n - i,
        {
            buf.push(0);
            i = i + 1;
        }
        let r = Rster { width, height, buf, load: 0 };
        proof {
            assert(r.deltas() =~= Seq::new((width * height + PADDING) as nat, |i: int| 0int));
        }
        r
    }

    /// Canvas width in pixels.
    pub fn width(&self) -> (r: usize)
        ensures
            r == self.spec_width(),
    {
        self.width
    }

    /// Canvas height in pixels.
    pub fn height(&self) -> (r: usize)
        ensures
            r == self.spec_height(),
    {
        self.height
    }

    /// The delta cell at index `i`, if there is one.
    pub fn delta_at(&self, i: usize) -> (r: Option<i64>)
        ensures
            i < self.deltas().len() ==> r == Some(self.deltas()[i as int] as i64),
            i >= self.deltas().len() ==> r.is_none(),
    {
        if i < self.buf.len() {
            Some(self.buf[i])
        } else {
            None
        }
    }

    /// Deposits the signed area of the straight segment `p0`-`p1`. Horizontal
    /// segments deposit nothing. On an error nothing changes.
    pub fn draw_line(&mut self, p0: Point, p1: Point) -> (r: Result<(), RasterError>)
        requires
            old(self).wf(),
        ensures
            final(self).wf(),
            final(self).spec_width() == old(self).spec_width(),
            final(self).spec_height() == old(self).spec_height(),
            r == line_status(
                old(self).spec_width(),
                old(self).spec_height(),
                old(self).spec_load(),
                p0,
                p1,
            ),
            r is Ok ==> final(self).deltas() == add_segment(
                old(self).deltas(),
                old(self).spec_width(),
                p0,
                p1,
            ),
            r is Ok ==> final(self).spec_load() == old(self).spec_load() + seg_load(
                old(self).spec_width(),
                p0,
                p1,
            ),
            r is Err ==> *final(self) == *old(self),
    {
        let w = self.width;
        let h = self.height;
        let c0 = check_in_canvas(p0, w, h);
        if c0.is_err() {
            return c0;
        }
        let c1 = check_in_canvas(p1, w, h);
        if c1.is_err() {
            return c1;
        }
        if p0.y == p1.y {
            proof {
                assert(self.deltas() =~= add_segment(old(self).deltas(), w as int, p0, p1));
            }
            return Ok(());
        }
        proof {
            assert(h * fsub() <= 0x100_0000) by (nonlinear_arith)
                requires
                    h <= 65536,
                    fsub() == 256,
            ;
        }
        let load_here = load_of(w, p0, p1);
        if self.load + load_here > LOAD_LIMIT {
            return Err(RasterError::Overflow);
        }
        let ghost d0 = self.deltas();
        if p0.y < p1.y {
            deposit_segment(&mut self.buf, w, h, p0, p1, 1, Ghost(self.load as int));
        } else {
            deposit_segment(&mut self.buf, w, h, p1, p0, -1, Ghost(self.load as int));
        }
        self.load = self.load + load_here;
        proof {
            assert forall|j: int| 0 <= j < self.buf@.len() implies -(self.load as int)
                <= #[trigger] self.buf@[j] <= self.load by {}
            assert(self.deltas() =~= add_segment(d0, w as int, p0, p1));
        }
        Ok(())
    }

    /// The coverage bitmap: one running sum over the cells in row-major order,
    /// its magnitude clamped to a full pixel and scaled to a byte.
    pub fn accumulate(&self) -> (r: Vec<u8>)
        requires
            self.wf(),
        ensures
            r@.len() == self.spec_width() * self.spec_height(),
            forall|i: int|
                0 <= i < r@.len() ==> r@[i] as int == #[trigger] bitmap_of(
                    self.deltas(),
                    self.spec_width(),
                    self.spec_height(),
                )[i],
    {
        let n = self.width * self.height;
        proof {
            assert(n <= 0x1_0000_0000) by (nonlinear_arith)
                requires
                    n == self.width * self.height,
                    self.width <= 65536,
                    self.height <= 65536,
            ;
        }
        let mut out: Vec<u8> = Vec::new();
        let mut acc: i128 = 0;
        let mut i: usize = 0;
        while i < n
            invariant
                self.wf(),
                n == self.width * self.height,
                n <= 0x1_0000_0000,
                i <= n,
                out@.len() == i,
                acc == prefix_sum(self.deltas(), i as int),
                -(i * self.load) <= acc <= i * self.load,
                forall|k: int|
                    0 <= k < i ==> out@[k] as int == #[trigger] bitmap_of(
                        self.deltas(),
                        self.spec_width(),
                        self.spec_height(),
                    )[k],
            decreases n - i,
        {
            proof {
                assert((i + 1) * self.load == i * self.load + self.load) by (nonlinear_arith);
                assert((i + 1) * self.load <= 0x1_0000_0000 * 0x4000_0000_0000_0000) by (
                nonlinear_arith)
                    requires
                        i + 1 <= 0x1_0000_0000,
                        self.load <= 0x4000_0000_0000_0000,
                ;
            }
            acc = acc + self.buf[i] as i128;
            let v: i128 = if acc < 0 {
                -acc
            } else {
                acc
            };
            let c: i128 = if v > FULL_AREA as i128 {
                FULL_AREA as i128
            } else {
                v
            };
            proof {
                lemma_div_within(c * 255, FULL_AREA as int, 255);
            }
            out.push((c * 255 / (FULL_AREA as i128)) as u8);
            i = i + 1;
        }
        out
    }

    /// Draws the segments `segs` in order, all or none: when their load does not
    /// fit, nothing changes.
    fn draw_segments(&mut self, segs: &Vec<(Point, Point)>) -> (r: Result<(), RasterError>)
        requires
            old(self).wf(),
            segs_in_canvas(segs@, old(self).spec_width(), old(self).spec_height()),
        ensures
            final(self).wf(),
            final(self).spec_width() == old(self).spec_width(),
            final(self).spec_height() == old(self).spec_height(),
            old(self).spec_load() + segments_load(old(self).spec_width(), segs@) > LOAD_LIMIT ==> r
                == Err::<(), RasterError>(RasterError::Overflow) && *final(self) == *old(self),
            old(self).spec_load() + segments_load(old(self).spec_width(), segs@) <= LOAD_LIMIT ==> r
                == Ok::<(), RasterError>(()) && final(self).deltas() == add_segments(
                old(self).deltas(),
                old(self).spec_width(),
                segs@,
            ) && final(self).spec_load() == old(self).spec_load() + segments_load(
                old(self).spec_width(),
                segs@,
            ),
    {
        let w = self.width;
        let ghost wi = w as int;
        let mut total: u64 = 0;
        let mut i: usize = 0;
        while i < segs.len()
            invariant
                self.wf(),
                w == self.width,
                wi == w as int,
                i <= segs@.len(),
                segs_in_canvas(segs@, self.spec_width(), self.spec_height()),
                total == segments_load(wi, segs@.subrange(0, i as int)),
                self.load + total <= LOAD_LIMIT,
            decreases segs@.len() - i,
        {
            let (a, b) = segs[i];
            assert(in_canvas(segs@[i as int].0, self.spec_width(), self.spec_height()));
            assert(in_canvas(segs@[i as int].1, self.spec_width(), self.spec_height()));
            assert(a == segs@[i as int].0 && b == segs@[i as int].1);
            assert(self.spec_height() * fsub() <= 0x100_0000) by (nonlinear_arith)
                requires
                    self.spec_height() <= 65536,
                    fsub() == 256,
            ;
            assert(0 <= a.y <= 0x100_0000 && 0 <= b.y <= 0x100_0000);
            let l = load_of(w, a, b);
            proof {
                assert(segs@.subrange(0, i + 1).drop_last() =~= segs@.subrange(0, i as int));
            }
            if self.load + total + l > LOAD_LIMIT {
                proof {
                    lemma_segments_load_prefix(wi, segs@, i + 1);
                }
                return Err(RasterError::Overflow);
            }
            total = total + l;
            i = i + 1;
        }
        proof {
            assert(segs@.subrange(0, i as int) =~= segs@);
        }
        let ghost d0 = self.deltas();
        let ghost load0 = self.load as int;
        let mut i: usize = 0;
        while i < segs.len()
            invariant
                self.wf(),
                w == self.width,
                wi == w as int,
                self.spec_height() == old(self).spec_height(),
                i <= segs@.len(),
                segs_in_canvas(segs@, self.spec_width(), self.spec_height()),
                load0 + segments_load(wi, segs@) <= LOAD_LIMIT,
                self.load == load0 + segments_load(wi, segs@.subrange(0, i as int)),
                self.deltas() == add_segments(d0, wi, segs@.subrange(0, i as int)),
            decreases segs@.len() - i,
        {
            let (a, b) = segs[i];
            assert(in_canvas(segs@[i as int].0, self.spec_width(), self.spec_height()));
            assert(in_canvas(segs@[i as int].1, self.spec_width(), self.spec_height()));
            proof {
                assert(segs@.subrange(0, i + 1).drop_last() =~= segs@.subrange(0, i as int));
                lemma_segments_load_prefix(wi, segs@, i + 1);
            }
            let r = self.draw_line(a, b);
            assert(r is Ok);
            i = i + 1;
        }
        proof {
            assert(segs@.subrange(0, i as int) =~= segs@);
        }
        Ok(())
    }

    /// Draws the quadratic curve from `p0` through the control point `c0` to `p1`
    /// as the straight pieces of its flattened polyline. On an error nothing changes.
    pub fn draw_quad_bez(&mut self, p0: Point, c0: Point, p1: Point) -> (r: Result<(), RasterError>)
        requires
            old(self).wf(),
        ensures
            final(self).wf(),
            final(self).spec_width() == old(self).spec_width(),
            final(self).spec_height() == old(self).spec_height(),
            r == draw_status(
                old(self).spec_width(),
                old(self).spec_height(),
                old(self).spec_load(),
                seq![p0, c0, p1],
                pieces(quad_polyline(p0, c0, p1)),
            ),
            r is Ok ==> final(self).deltas() == add_segments(
                old(self).deltas(),
                old(self).spec_width(),
                pieces(quad_polyline(p0, c0, p1)),
            ),
            r is Ok ==> final(self).spec_load() == old(self).spec_load() + segments_load(
                old(self).spec_width(),
                pieces(quad_polyline(p0, c0, p1)),
            ),
            r is Err ==> *final(self) == *old(self),
    {
        let w = self.width;
        let h = self.height;
        let mut ps: Vec<Point> = Vec::new();
        ps.push(p0);
        ps.push(c0);
        ps.push(p1);
        proof {
            assert(ps@ =~= seq![p0, c0, p1]);
        }
        let c = check_all(&ps, w, h);
        if c.is_err() {
            return c;
        }
        proof {
            lemma_check_points_ok(ps@, w as int, h as int);
            assert(ps@[0] == p0 && ps@[1] == c0 && ps@[2] == p1);
        }
        let mut segs: Vec<(Point, Point)> = Vec::new();
        append_quad(&mut segs, p0, c0, p1, w, h);
        proof {
            assert(segs@ =~= pieces(quad_polyline(p0, c0, p1)));
        }
        self.draw_segments(&segs)
    }

    /// Draws the cubic curve from `p0` through the control points `c0` and `c1` to
    /// `p1` as the straight pieces of its flattened polyline. On an error nothing
    /// changes.
    pub fn draw_cub_bez(&mut self, p0: Point, c0: Point, c1: Point, p1: Point) -> (r: Result<
        (),
        RasterError,
    >)
        requires
            old(self).wf(),
        ensures
            final(self).wf(),
            final(self).spec_width() == old(self).spec_width(),
            final(self).spec_height() == old(self).spec_height(),
            r == draw_status(
                old(self).spec_width(),
                old(self).spec_height(),
                old(self).spec_load(),
                seq![p0, c0, c1, p1],
                pieces(cubic_polyline(p0, c0, c1, p1)),
            ),
            r is Ok ==> final(self).deltas() == add_segments(
                old(self).deltas(),
                old(self).spec_width(),
                pieces(cubic_polyline(p0, c0, c1, p1)),
            ),
            r is Ok ==> final(self).spec_load() == old(self).spec_load() + segments_load(
                old(self).spec_width(),
                pieces(cubic_polyline(p0, c0, c1, p1)),
            ),
            r is Err ==> *final(self) == *old(self),
    {
        let w = self.width;
        let h = self.height;
        let mut ps: Vec<Point> = Vec::new();
        ps.push(p0);
        ps.push(c0);
        ps.push(c1);
        ps.push(p1);
        proof {
            assert(ps@ =~= seq![p0, c0, c1, p1]);
        }
        let c = check_all(&ps, w, h);
        if c.is_err() {
            return c;
        }
        proof {
            lemma_check_points_ok(ps@, w as int, h as int);
            assert(ps@[0] == p0 && ps@[1] == c0 && ps@[2] == c1 && ps@[3] == p1);
        }
        let mut segs: Vec<(Point, Point)> = Vec::new();
        append_cubic(&mut segs, p0, c0, c1, p1, w, h);
        proof {
            assert(segs@ =~= pieces(cubic_polyline(p0, c0, c1, p1)));
        }
        self.draw_segments(&segs)
    }

    /// Draws a path in one pass: `Move` sets the current point, `Line` draws from
    /// it to its point, the curves draw their flattened polylines from it, and each
    /// operation leaves the current point at its end. Before a leading `Move` the
    /// current point is the origin. Every point is checked before anything is
    /// drawn; on an error nothing changes.
    pub fn draw_path(&mut self, path: PathSegments) -> (r: Result<(), RasterError>)
        requires
            old(self).wf(),
            path.wf(),
        ensures
            final(self).wf(),
            final(self).spec_width() == old(self).spec_width(),
            final(self).spec_height() == old(self).spec_height(),
            r == draw_status(
                old(self).spec_width(),
                old(self).spec_height(),
                old(self).spec_load(),
                path_points(path@, path@.len() as int),
                path_segments(path@, path@.len() as int),
            ),
            r is Ok ==> final(self).deltas() == add_segments(
                old(self).deltas(),
                old(self).spec_width(),
                path_segments(path@, path@.len() as int),
            ),
            r is Ok ==> final(self).spec_load() == old(self).spec_load() + segments_load(
                old(self).spec_width(),
                path_segments(path@, path@.len() as int),
            ),
            r is Err ==> *final(self) == *old(self),
    {
        let ghost ops0 = path@;
        let mut rest = path;
        let mut ops: Vec<PathOp> = Vec::new();
        let mut done = false;
        while !done
            invariant
                rest.wf(),
                *self == *old(self),
                ops@ + rest@ == ops0,
                done ==> rest@.len() == 0,
            decreases rest@.len() + (if done {
                0int
            } else {
                1int
            }),
        {
            let ghost before = rest@;
            match rest.next() {
                Some(op) => {
                    proof {
                        assert(ops@.push(op) + rest@ =~= ops@ + before);
                    }
                    ops.push(op);
                },
                None => {
                    done = true;
                },
            }
        }
        proof {
            assert(ops@ =~= ops0);
        }
        let w = self.width;
        let h = self.height;
        let n = ops.len();
        let mut segs: Vec<(Point, Point)> = Vec::new();
        let mut cur = Point { x: 0, y: 0 };
        if n > 0 {
            if let PathOp::Move(p) = ops[0] {
                cur = p;
            }
        }
        let mut i: usize = 0;
        while i < n
            invariant
                w == self.width,
                h == self.height,
                self.wf(),
                *self == *old(self),
                n == ops@.len(),
                ops@ == ops0,
                ops0 == path@,
                i <= n,
                check_points(path_points(ops@, i as int), w as int, h as int) is Ok,
                segs@ == path_segments(ops@, i as int),
                segs_in_canvas(segs@, w as int, h as int),
                cur == current_before(ops@, i as int),
                (i > 0 || !(ops@[0] is Move)) ==> in_canvas(cur, w as int, h as int),
            decreases n - i,
        {
            let op = ops[i];
            let opv = op_points_vec(op);
            let c = check_all(&opv, w, h);
            proof {
                lemma_check_points_append(path_points(ops@, i as int), op_points(op), w as int, h as int);
                assert(path_points(ops@, i + 1) == path_points(ops@, i as int) + op_points(op));
            }
            if c.is_err() {
                proof {
                    lemma_path_points_prefix(ops@, i + 1, n as int);
                    let a = path_points(ops@, i + 1);
                    let full = path_points(ops@, n as int);
                    assert(full =~= a + full.subrange(a.len() as int, full.len() as int));
                    lemma_check_points_err(a, full.subrange(a.len() as int, full.len() as int), w as int, h as int);
                    assert(c == check_points(full, w as int, h as int));
                }
                return c;
            }
            proof {
                lemma_check_points_ok(op_points(op), w as int, h as int);
            }
            let ghost s0 = segs@;
            match op {
                PathOp::Move(p) => {
                    proof {
                        assert(op_points(op)[0] == p);
                        assert(op_segments(ops@, i as int) =~= seq![]);
                        assert(segs@ =~= s0 + op_segments(ops@, i as int));
                    }
                    cur = p;
                },
                PathOp::Line(p) => {
                    proof {
                        assert(op_points(op)[0] == p);
                    }
                    segs.push((cur, p));
                    proof {
                        assert(segs@ =~= s0 + op_segments(ops@, i as int));
                        assert forall|k: int| 0 <= k < segs@.len() implies in_canvas(
                            #[trigger] segs@[k].0,
                            w as int,
                            h as int,
                        ) && in_canvas(segs@[k].1, w as int, h as int) by {
                            if k < s0.len() {
                                assert(segs@[k] == s0[k]);
                            }
                        }
                    }
                    cur = p;
                },
                PathOp::QuadBez(cc, p) => {
                    proof {
                        assert(op_points(op)[0] == cc);
                        assert(op_points(op)[1] == p);
                    }
                    append_quad(&mut segs, cur, cc, p, w, h);
                    cur = p;
                },
                PathOp::CubBez(cc0, cc1, p) => {
                    proof {
                        assert(op_points(op)[0] == cc0);
                        assert(op_points(op)[1] == cc1);
                        assert(op_points(op)[2] == p);
                    }
                    append_cubic(&mut segs, cur, cc0, cc1, p, w, h);
                    cur = p;
                },
            }
            i = i + 1;
        }
        self.draw_segments(&segs)
    }
}

} // verus!
