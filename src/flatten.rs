//! Adaptive flattening of quadratic and cubic curves into polylines.
use vstd::prelude::*;
use crate::arith::lemma_div_within;
use crate::geometry::{Point, SUBPIXELS};

verus! {

/// Largest coordinate, in sub-pixel units, that the flattener accepts.
pub const MAX_COORD: i64 = 0x100_0000;

/// The integer square root, defined by counting up.
pub open spec fn isqrt_spec(n: nat) -> nat
    decreases n,
{
    if n == 0 {
        0
    } else {
        let r = isqrt_spec((n - 1) as nat);
        if (r + 1) * (r + 1) <= n {
            r + 1
        } else {
            r
        }
    }
}

/// `isqrt_spec(n)` is the integer square root of `n`.
pub proof fn lemma_isqrt(n: nat)
    ensures
        isqrt_spec(n) * isqrt_spec(n) <= n < (isqrt_spec(n) + 1) * (isqrt_spec(n) + 1),
    decreases n,
{
    if n == 0 {
        let q = isqrt_spec(n);
        assert(q == 0);
        assert(q * q <= n < (q + 1) * (q + 1)) by (nonlinear_arith)
            requires
                q == 0,
                n == 0,
        ;
    } else {
        lemma_isqrt((n - 1) as nat);
        let r = isqrt_spec((n - 1) as nat);
        let q = isqrt_spec(n);
        assert((r + 1) * (r + 1) < (r + 2) * (r + 2)) by (nonlinear_arith);
        if (r + 1) * (r + 1) <= n {
            assert(q == r + 1);
            assert(q * q <= n < (q + 1) * (q + 1));
        } else {
            assert(q == r);
            assert(q * q <= n < (q + 1) * (q + 1));
        }
    }
}

proof fn lemma_root_unique(n: int, r: int, s: int)
    requires
        0 <= r,
        0 <= s,
        r * r <= n < (r + 1) * (r + 1),
        s * s <= n < (s + 1) * (s + 1),
    ensures
        r == s,
{
    if r < s {
        assert((r + 1) * (r + 1) <= s * s) by (nonlinear_arith)
            requires
                0 <= r < s,
        ;
    } else if s < r {
        assert((s + 1) * (s + 1) <= r * r) by (nonlinear_arith)
            requires
                0 <= s < r,
        ;
    }
}

/// The integer square root of `n`.
pub fn isqrt(n: u64) -> (r: u64)
    requires
        n < 0x1000_0000_0000_0000,
    ensures
        r == isqrt_spec(n as nat),
{
    let mut lo: u64 = 0;
    let mut hi: u64 = 0x4000_0000;
    while hi - lo > 1
        invariant
            lo < hi <= 0x4000_0000,
            lo * lo <= n,
            n < hi * hi,
        decreases hi - lo,
    {
        let mid = lo + (hi - lo) / 2;
        proof {
            assert(mid * mid <= 0x4000_0000 * 0x4000_0000) by (nonlinear_arith)
                requires
                    mid < 0x4000_0000,
            ;
        }
        if mid * mid <= n {
            lo = mid;
        } else {
            hi = mid;
        }
    }
    proof {
        lemma_isqrt(n as nat);
        lemma_root_unique(n as int, lo as int, isqrt_spec(n as nat) as int);
    }
    lo
}

/// Squared distance, times four, between `c` and the midpoint of `a`-`b`.
pub open spec fn dev_sq(a: Point, c: Point, b: Point) -> int {
    (a.x + b.x - 2 * c.x) * (a.x + b.x - 2 * c.x) + (a.y + b.y - 2 * c.y) * (a.y + b.y - 2 * c.y)
}

/// Number of straight pieces for a control point whose four-times squared
/// deviation is `d`: one more than the square root of the deviation, in pixels
/// squared, over the flatness threshold of one third, rounded down.
pub open spec fn sections(d: int) -> int {
    1 + (isqrt_spec((3 * d) as nat) as int) / (2 * (SUBPIXELS as int))
}

/// `p` lies in the box `[0, xmax] x [0, ymax]`.
pub open spec fn in_box(p: Point, xmax: int, ymax: int) -> bool {
    0 <= p.x <= xmax && 0 <= p.y <= ymax
}

/// One coordinate of the quadratic curve `a`, `c`, `b` at parameter `k / n`, rounded down.
pub open spec fn quad_coord(a: int, c: int, b: int, k: int, n: int) -> int {
    ((n - k) * (n - k) * a + 2 * k * (n - k) * c + k * k * b) / (n * n)
}

/// The quadratic curve at parameter `k / n`, rounded down to the sub-pixel grid.
pub open spec fn quad_at(p0: Point, c: Point, p1: Point, k: int, n: int) -> Point {
    Point {
        x: quad_coord(p0.x as int, c.x as int, p1.x as int, k, n) as i64,
        y: quad_coord(p0.y as int, c.y as int, p1.y as int, k, n) as i64,
    }
}

/// The polyline that stands for the quadratic curve from `p0` to `p1` with control `c`.
pub open spec fn quad_polyline(p0: Point, c: Point, p1: Point) -> Seq<Point> {
    let n = sections(dev_sq(p0, c, p1));
    Seq::new((n + 1) as nat, |k: int| quad_at(p0, c, p1, k, n))
}

/// One coordinate of the cubic curve at parameter `j / (2 * m)`, rounded down.
pub open spec fn cubic_coord(a: int, c0: int, c1: int, b: int, j: int, m: int) -> int {
    let u = 2 * m - j;
    (u * u * u * a + 3 * u * u * j * c0 + 3 * u * j * j * c1 + j * j * j * b) / (8 * m * m * m)
}

/// The cubic curve at parameter `j / (2 * m)`, rounded down to the sub-pixel grid.
pub open spec fn cubic_at(p0: Point, c0: Point, c1: Point, p1: Point, j: int, m: int) -> Point {
    Point {
        x: cubic_coord(p0.x as int, c0.x as int, c1.x as int, p1.x as int, j, m) as i64,
        y: cubic_coord(p0.y as int, c0.y as int, c1.y as int, p1.y as int, j, m) as i64,
    }
}

/// The polyline that stands for the cubic curve: the half before parameter one
/// half in `n0` pieces, the half after it in `n1` pieces.
pub open spec fn cubic_polyline(p0: Point, c0: Point, c1: Point, p1: Point) -> Seq<Point> {
    let n0 = sections(dev_sq(p0, c0, c1));
    let n1 = sections(dev_sq(c0, c1, p1));
    Seq::new(
        (n0 + n1 + 1) as nat,
        |k: int|
            if k <= n0 {
                cubic_at(p0, c0, c1, p1, k, n0)
            } else {
                cubic_at(p0, c0, c1, p1, n1 + (k - n0), n1)
            },
    )
}

/// The section count for the control point `c` of the chord `a`-`b`.
fn sections_for(a: Point, c: Point, b: Point) -> (r: i64)
    requires
        in_box(a, MAX_COORD as int, MAX_COORD as int),
        in_box(c, MAX_COORD as int, MAX_COORD as int),
        in_box(b, MAX_COORD as int, MAX_COORD as int),
    ensures
        r == sections(dev_sq(a, c, b)),
        1 <= r <= 0x4_0001,
{
    let dx = a.x + b.x - 2 * c.x;
    let dy = a.y + b.y - 2 * c.y;
    proof {
        assert(0 <= dx * dx <= 0x200_0000 * 0x200_0000) by (nonlinear_arith)
            requires
                -0x200_0000 <= dx <= 0x200_0000,
        ;
        assert(0 <= dy * dy <= 0x200_0000 * 0x200_0000) by (nonlinear_arith)
            requires
                -0x200_0000 <= dy <= 0x200_0000,
        ;
    }
    let d = (dx * dx + dy * dy) as u64;
    let root = isqrt(3 * d);
    proof {
        lemma_isqrt((3 * d) as nat);
        assert(root < 0x800_0000) by (nonlinear_arith)
            requires
                root * root <= 3 * d,
                3 * d < 0x40_0000_0000_0000,
        ;
    }
    1 + (root as i64) / (2 * SUBPIXELS)
}

/// The sample points of a quadratic curve stay within any box that holds its
/// three defining points.
pub proof fn lemma_quad_in_box(p0: Point, c: Point, p1: Point, k: int, n: int, xmax: int, ymax: int)
    requires
        0 <= k <= n,
        1 <= n,
        in_box(p0, xmax, ymax),
        in_box(c, xmax, ymax),
        in_box(p1, xmax, ymax),
        xmax <= MAX_COORD,
        ymax <= MAX_COORD,
    ensures
        in_box(quad_at(p0, c, p1, k, n), xmax, ymax),
{
    lemma_quad_coord_within(p0.x as int, c.x as int, p1.x as int, k, n, xmax);
    lemma_quad_coord_within(p0.y as int, c.y as int, p1.y as int, k, n, ymax);
}

proof fn lemma_quad_coord_within(a: int, c: int, b: int, k: int, n: int, m: int)
    requires
        0 <= k <= n,
        1 <= n,
        0 <= a <= m,
        0 <= c <= m,
        0 <= b <= m,
    ensures
        0 <= quad_coord(a, c, b, k, n) <= m,
{
    let u = n - k;
    let s = u * u * a + 2 * k * u * c + k * k * b;
    assert(0 <= u * u && 0 <= 2 * k * u && 0 <= k * k) by (nonlinear_arith)
        requires
            0 <= u,
            0 <= k,
    ;
    assert(u * u + 2 * k * u + k * k == n * n) by (nonlinear_arith)
        requires
            u == n - k,
    ;
    assert(0 <= s <= m * (n * n)) by (nonlinear_arith)
        requires
            s == u * u * a + 2 * k * u * c + k * k * b,
            u * u + 2 * k * u + k * k == n * n,
            0 <= u * u,
            0 <= 2 * k * u,
            0 <= k * k,
            0 <= a <= m,
            0 <= c <= m,
            0 <= b <= m,
    ;
    assert(n * n > 0) by (nonlinear_arith)
        requires
            n >= 1,
    ;
    lemma_div_within(s, n * n, m);
}

/// The sample points of a cubic curve stay within any box that holds its four
/// defining points.
pub proof fn lemma_cubic_in_box(
    p0: Point,
    c0: Point,
    c1: Point,
    p1: Point,
    j: int,
    m: int,
    xmax: int,
    ymax: int,
)
    requires
        0 <= j <= 2 * m,
        1 <= m,
        in_box(p0, xmax, ymax),
        in_box(c0, xmax, ymax),
        in_box(c1, xmax, ymax),
        in_box(p1, xmax, ymax),
        xmax <= MAX_COORD,
        ymax <= MAX_COORD,
    ensures
        in_box(cubic_at(p0, c0, c1, p1, j, m), xmax, ymax),
{
    lemma_cubic_coord_within(p0.x as int, c0.x as int, c1.x as int, p1.x as int, j, m, xmax);
    lemma_cubic_coord_within(p0.y as int, c0.y as int, c1.y as int, p1.y as int, j, m, ymax);
}

proof fn lemma_cubic_coord_within(a: int, c0: int, c1: int, b: int, j: int, m: int, bound: int)
    requires
        0 <= j <= 2 * m,
        1 <= m,
        0 <= a <= bound,
        0 <= c0 <= bound,
        0 <= c1 <= bound,
        0 <= b <= bound,
    ensures
        0 <= cubic_coord(a, c0, c1, b, j, m) <= bound,
{
    let u = 2 * m - j;
    let w0 = u * u * u;
    let w1 = 3 * u * u * j;
    let w2 = 3 * u * j * j;
    let w3 = j * j * j;
    assert(0 <= w0 && 0 <= w1 && 0 <= w2 && 0 <= w3) by (nonlinear_arith)
        requires
            0 <= u,
            0 <= j,
            w0 == u * u * u,
            w1 == 3 * u * u * j,
            w2 == 3 * u * j * j,
            w3 == j * j * j,
    ;
    assert(w0 + w1 + w2 + w3 == 8 * m * m * m) by (nonlinear_arith)
        requires
            u == 2 * m - j,
            w0 == u * u * u,
            w1 == 3 * u * u * j,
            w2 == 3 * u * j * j,
            w3 == j * j * j,
    ;
    let s = w0 * a + w1 * c0 + w2 * c1 + w3 * b;
    assert(s == u * u * u * a + 3 * u * u * j * c0 + 3 * u * j * j * c1 + j * j * j * b);
    assert(0 <= s <= bound * (8 * m * m * m)) by (nonlinear_arith)
        requires
            s == w0 * a + w1 * c0 + w2 * c1 + w3 * b,
            w0 + w1 + w2 + w3 == 8 * m * m * m,
            0 <= w0,
            0 <= w1,
            0 <= w2,
            0 <= w3,
            0 <= a <= bound,
            0 <= c0 <= bound,
            0 <= c1 <= bound,
            0 <= b <= bound,
    ;
    assert(8 * m * m * m > 0) by (nonlinear_arith)
        requires
            m >= 1,
    ;
    lemma_div_within(s, 8 * m * m * m, bound);
}

/// `quad_coord` for coordinates within `[0, MAX_COORD]`.
fn quad_coord_exec(a: i64, c: i64, b: i64, k: i64, n: i64) -> (r: i64)
    requires
        0 <= k <= n,
        1 <= n <= 0x4_0001,
        0 <= a <= MAX_COORD,
        0 <= c <= MAX_COORD,
        0 <= b <= MAX_COORD,
    ensures
        r == quad_coord(a as int, c as int, b as int, k as int, n as int),
        0 <= r <= MAX_COORD,
{
    proof {
        lemma_quad_coord_within(a as int, c as int, b as int, k as int, n as int, MAX_COORD as int);
    }
    let lim: i128 = 0x4_0001;
    let u = (n - k) as i128;
    let v = k as i128;
    proof {
        assert(0 <= u * u <= lim * lim && 0 <= 2 * v * u <= 2 * lim * lim && 0 <= v * v <= lim * lim
            && 1 <= (n as int) * (n as int) <= lim * lim) by (nonlinear_arith)
            requires
                0 <= u <= lim,
                0 <= v <= lim,
                1 <= n <= lim,
        ;
    }
    let w0 = u * u;
    let w1 = 2 * v * u;
    let w2 = v * v;
    let nn = (n as i128) * (n as i128);
    proof {
        assert(0 <= w0 * a <= lim * lim * 0x100_0000 && 0 <= w1 * c <= 2 * lim * lim * 0x100_0000
            && 0 <= w2 * b <= lim * lim * 0x100_0000) by (nonlinear_arith)
            requires
                0 <= w0 <= lim * lim,
                0 <= w1 <= 2 * lim * lim,
                0 <= w2 <= lim * lim,
                0 <= a <= 0x100_0000,
                0 <= b <= 0x100_0000,
                0 <= c <= 0x100_0000,
        ;
        assert(w0 * a + w1 * c + w2 * b == (n - k) * (n - k) * a + 2 * k * (n - k) * c + k * k * b)
            by (nonlinear_arith)
            requires
                v == k,
                u == n - k,
                w0 == u * u,
                w1 == 2 * v * u,
                w2 == v * v,
        ;
    }
    let s = w0 * (a as i128) + w1 * (c as i128) + w2 * (b as i128);
    (s / nn) as i64
}

/// The polyline that stands for the quadratic curve from `p0` through the
/// control point `c` to `p1`.
pub fn flatten_quad(p0: Point, c: Point, p1: Point) -> (r: Vec<Point>)
    requires
        in_box(p0, MAX_COORD as int, MAX_COORD as int),
        in_box(c, MAX_COORD as int, MAX_COORD as int),
        in_box(p1, MAX_COORD as int, MAX_COORD as int),
    ensures
        r@ == quad_polyline(p0, c, p1),
{
    let n = sections_for(p0, c, p1);
    let mut pts: Vec<Point> = Vec::new();
    let mut k: i64 = 0;
    while k <= n
        invariant
            0 <= k <= n + 1,
            n == sections(dev_sq(p0, c, p1)),
            1 <= n <= 0x4_0001,
            in_box(p0, MAX_COORD as int, MAX_COORD as int),
            in_box(c, MAX_COORD as int, MAX_COORD as int),
            in_box(p1, MAX_COORD as int, MAX_COORD as int),
            pts@ =~= Seq::new(k as nat, |i: int| quad_at(p0, c, p1, i, n as int)),
        decreases n + 1 - k,
    {
        let x = quad_coord_exec(p0.x, c.x, p1.x, k, n);
        let y = quad_coord_exec(p0.y, c.y, p1.y, k, n);
        pts.push(Point { x, y });
        k = k + 1;
    }
    pts
}

/// `cubic_coord` for coordinates within `[0, MAX_COORD]`.
fn cubic_coord_exec(a: i64, c0: i64, c1: i64, b: i64, j: i64, m: i64) -> (r: i64)
    requires
        0 <= j <= 2 * m,
        1 <= m <= 0x4_0001,
        0 <= a <= MAX_COORD,
        0 <= c0 <= MAX_COORD,
        0 <= c1 <= MAX_COORD,
        0 <= b <= MAX_COORD,
    ensures
        r == cubic_coord(a as int, c0 as int, c1 as int, b as int, j as int, m as int),
        0 <= r <= MAX_COORD,
{
    proof {
        lemma_cubic_coord_within(
            a as int,
            c0 as int,
            c1 as int,
            b as int,
            j as int,
            m as int,
            MAX_COORD as int,
        );
    }
    let lim: i128 = 0x8_0002;
    let u = (2 * m - j) as i128;
    let v = j as i128;
    let mm = m as i128;
    proof {
        assert(0 <= u * u <= lim * lim && 0 <= u * v <= lim * lim && 0 <= v * v <= lim * lim && 0
            <= 2 * mm * mm <= lim * lim) by (nonlinear_arith)
            requires
                0 <= u <= lim,
                0 <= v <= lim,
                0 <= 2 * mm <= lim,
        ;
    }
    let uu = u * u;
    let uv = u * v;
    let vv = v * v;
    let m2 = 2 * mm * mm;
    proof {
        assert(0 <= uu * u <= lim * lim * lim && 0 <= 3 * uu * v <= 3 * lim * lim * lim && 0 <= 3
            * uv * v <= 3 * lim * lim * lim && 0 <= vv * v <= lim * lim * lim && 0 <= 4 * m2 * mm
            <= 4 * lim * lim * lim) by (nonlinear_arith)
            requires
                0 <= uu <= lim * lim,
                0 <= uv <= lim * lim,
                0 <= vv <= lim * lim,
                0 <= m2 <= lim * lim,
                0 <= u <= lim,
                0 <= v <= lim,
                0 <= mm <= lim,
        ;
    }
    let w0 = uu * u;
    let w1 = 3 * uu * v;
    let w2 = 3 * uv * v;
    let w3 = vv * v;
    let den = 4 * m2 * mm;
    proof {
        let l3 = lim * lim * lim;
        assert(0 <= w0 * a <= l3 * 0x100_0000 && 0 <= w1 * c0 <= 3 * l3 * 0x100_0000 && 0 <= w2
            * c1 <= 3 * l3 * 0x100_0000 && 0 <= w3 * b <= l3 * 0x100_0000) by (nonlinear_arith)
            requires
                0 <= w0 <= l3,
                0 <= w1 <= 3 * l3,
                0 <= w2 <= 3 * l3,
                0 <= w3 <= l3,
                0 <= a <= 0x100_0000,
                0 <= b <= 0x100_0000,
                0 <= c0 <= 0x100_0000,
                0 <= c1 <= 0x100_0000,
        ;
        assert(w0 * a + w1 * c0 + w2 * c1 + w3 * b == u * u * u * a + 3 * u * u * j * c0 + 3 * u
            * j * j * c1 + j * j * j * b) by (nonlinear_arith)
            requires
                v == j,
                uu == u * u,
                uv == u * v,
                vv == v * v,
                w0 == uu * u,
                w1 == 3 * uu * v,
                w2 == 3 * uv * v,
                w3 == vv * v,
        ;
        assert(den == 8 * m * m * m && den > 0) by (nonlinear_arith)
            requires
                mm == m,
                m2 == 2 * mm * mm,
                den == 4 * m2 * mm,
                m >= 1,
        ;
    }
    let s = w0 * (a as i128) + w1 * (c0 as i128) + w2 * (c1 as i128) + w3 * (b as i128);
    (s / den) as i64
}

/// The polyline that stands for the cubic curve from `p0` through the control
/// points `c0` and `c1` to `p1`.
pub fn flatten_cubic(p0: Point, c0: Point, c1: Point, p1: Point) -> (r: Vec<Point>)
    requires
        in_box(p0, MAX_COORD as int, MAX_COORD as int),
        in_box(c0, MAX_COORD as int, MAX_COORD as int),
        in_box(c1, MAX_COORD as int, MAX_COORD as int),
        in_box(p1, MAX_COORD as int, MAX_COORD as int),
    ensures
        r@ == cubic_polyline(p0, c0, c1, p1),
{
    let n0 = sections_for(p0, c0, c1);
    let n1 = sections_for(c0, c1, p1);
    let ghost target = cubic_polyline(p0, c0, c1, p1);
    let mut pts: Vec<Point> = Vec::new();
    let mut k: i64 = 0;
    while k <= n0 + n1
        invariant
            0 <= k <= n0 + n1 + 1,
            n0 == sections(dev_sq(p0, c0, c1)),
            n1 == sections(dev_sq(c0, c1, p1)),
            1 <= n0 <= 0x4_0001,
            1 <= n1 <= 0x4_0001,
            target == cubic_polyline(p0, c0, c1, p1),
            in_box(p0, MAX_COORD as int, MAX_COORD as int),
            in_box(c0, MAX_COORD as int, MAX_COORD as int),
            in_box(c1, MAX_COORD as int, MAX_COORD as int),
            in_box(p1, MAX_COORD as int, MAX_COORD as int),
            pts@ =~= target.subrange(0, k as int),
        decreases n0 + n1 + 1 - k,
    {
        let (j, m) = if k <= n0 {
            (k, n0)
        } else {
            (n1 + (k - n0), n1)
        };
        let x = cubic_coord_exec(p0.x, c0.x, c1.x, p1.x, j, m);
        let y = cubic_coord_exec(p0.y, c0.y, c1.y, p1.y, j, m);
        pts.push(Point { x, y });
        k = k + 1;
    }
    pts
}

} // verus!
