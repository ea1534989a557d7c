//! Points and path operations, in integer sub-pixel units.
use vstd::prelude::*;
use crate::arith::{lemma_div_between, lemma_div_neg};

verus! {

/// Number of sub-pixel units along one pixel edge.
pub const SUBPIXELS: i64 = 256;

/// A 2-D point whose coordinates count sub-pixel units (`SUBPIXELS` per pixel).
#[derive(Clone, Copy, Debug, PartialEq, Eq, Structural)]
pub struct Point {
    pub x: i64,
    pub y: i64,
}

/// `floor((a * (den - num) + b * num) / den)`: the point at parameter `num / den`
/// on the segment from `a` to `b`, rounded down to the sub-pixel grid.
pub open spec fn lerp_coord(num: int, den: int, a: int, b: int) -> int {
    (a * (den - num) + b * num) / den
}

impl Point {
    pub fn new(x: i64, y: i64) -> (r: Point)
        ensures
            r.x == x,
            r.y == y,
    {
        Point { x, y }
    }

    /// The point at parameter `num / den` between `p0` and `p1`, each coordinate
    /// rounded down to the sub-pixel grid.
    pub fn linterp(num: i64, den: i64, p0: Point, p1: Point) -> (r: Point)
        requires
            0 <= num <= den,
            0 < den <= 0x1_0000_0000,
            -0x1_0000_0000 <= p0.x <= 0x1_0000_0000,
            -0x1_0000_0000 <= p0.y <= 0x1_0000_0000,
            -0x1_0000_0000 <= p1.x <= 0x1_0000_0000,
            -0x1_0000_0000 <= p1.y <= 0x1_0000_0000,
        ensures
            r.x == lerp_coord(num as int, den as int, p0.x as int, p1.x as int),
            r.y == lerp_coord(num as int, den as int, p0.y as int, p1.y as int),
    {
        let x = Self::lerp_one(num, den, p0.x, p1.x);
        let y = Self::lerp_one(num, den, p0.y, p1.y);
        Point { x, y }
    }

    fn lerp_one(num: i64, den: i64, a: i64, b: i64) -> (r: i64)
        requires
            0 <= num <= den,
            0 < den <= 0x1_0000_0000,
            -0x1_0000_0000 <= a <= 0x1_0000_0000,
            -0x1_0000_0000 <= b <= 0x1_0000_0000,
        ensures
            r == lerp_coord(num as int, den as int, a as int, b as int),
    {
        let u = (den - num) as i128;
        let v = num as i128;
        let lo: i128 = if a <= b {
            a as i128
        } else {
            b as i128
        };
        let hi: i128 = if a <= b {
            b as i128
        } else {
            a as i128
        };
        proof {
            assert(lo * u <= a * u <= hi * u && lo * v <= b * v <= hi * v) by (nonlinear_arith)
                requires
                    lo <= a <= hi,
                    lo <= b <= hi,
                    0 <= u,
                    0 <= v,
            ;
            assert(-0x1_0000_0000 * u <= lo * u && hi * u <= 0x1_0000_0000 * u && -0x1_0000_0000 * v
                <= lo * v && hi * v <= 0x1_0000_0000 * v) by (nonlinear_arith)
                requires
                    -0x1_0000_0000 <= lo,
                    hi <= 0x1_0000_0000,
                    0 <= u <= 0x1_0000_0000,
                    0 <= v <= 0x1_0000_0000,
            ;
            assert(lo * u + lo * v == lo * den && hi * u + hi * v == hi * den) by (nonlinear_arith)
                requires
                    u + v == den,
            ;
        }
        let s = (a as i128) * u + (b as i128) * v;
        let d = den as i128;
        proof {
            lemma_div_between(s as int, den as int, lo as int, hi as int);
        }
        if s >= 0 {
            (s / d) as i64
        } else {
            proof {
                lemma_div_neg(s as int, den as int);
            }
            let q = (-s + d - 1) / d;
            (-q) as i64
        }
    }
}

/// A single path operation.
#[derive(Clone, Copy, Debug, PartialEq, Eq, Structural)]
pub enum PathOp {
    Move(Point),
    Line(Point),
    QuadBez(Point, Point),
    CubBez(Point, Point, Point),
}

/// Builds a path one operation at a time; the first operation is a `Move`.
pub struct PathBuilder {
    ops: Vec<PathOp>,
}

impl View for PathBuilder {
    type V = Seq<PathOp>;

    closed spec fn view(&self) -> Seq<PathOp> {
        self.ops@
    }
}

impl PathBuilder {
    pub fn new(start: Point) -> (r: PathBuilder)
        ensures
            r@ == seq![PathOp::Move(start)],
    {
        let mut ops: Vec<PathOp> = Vec::new();
        ops.push(PathOp::Move(start));
        PathBuilder { ops }
    }

    /// Freezes the operations built so far into a reusable path.
    pub fn finish(self) -> (r: PathObj)
        ensures
            r@ == self@,
    {
        PathObj { ops: self.ops }
    }

    pub fn move_to(self, point: Point) -> (r: PathBuilder)
        ensures
            r@ == self@.push(PathOp::Move(point)),
    {
        let mut ops = self.ops;
        ops.push(PathOp::Move(point));
        PathBuilder { ops }
    }

    pub fn line_to(self, point: Point) -> (r: PathBuilder)
        ensures
            r@ == self@.push(PathOp::Line(point)),
    {
        let mut ops = self.ops;
        ops.push(PathOp::Line(point));
        PathBuilder { ops }
    }

    pub fn quad_bez_to(self, ctrl: Point, end: Point) -> (r: PathBuilder)
        ensures
            r@ == self@.push(PathOp::QuadBez(ctrl, end)),
    {
        let mut ops = self.ops;
        ops.push(PathOp::QuadBez(ctrl, end));
        PathBuilder { ops }
    }

    pub fn cub_bez_to(self, ctrl0: Point, ctrl1: Point, end: Point) -> (r: PathBuilder)
        ensures
            r@ == self@.push(PathOp::CubBez(ctrl0, ctrl1, end)),
    {
        let mut ops = self.ops;
        ops.push(PathOp::CubBez(ctrl0, ctrl1, end));
        PathBuilder { ops }
    }
}

/// An immutable path that can be drawn any number of times.
pub struct PathObj {
    ops: Vec<PathOp>,
}

impl View for PathObj {
    type V = Seq<PathOp>;

    closed spec fn view(&self) -> Seq<PathOp> {
        self.ops@
    }
}

impl PathObj {
    /// The operations of the path, in order, ready to be drawn.
    pub fn iter(&self) -> (r: PathSegments)
        ensures
            r.wf(),
            r@ == self@,
    {
        let mut ops: Vec<PathOp> = Vec::new();
        let mut i: usize = 0;
        while i < self.ops.len()
            invariant
                i <= self.ops@.len(),
                ops@ == self.ops@.subrange(0, i as int),
            decreases self.ops@.len() - i,
        {
            ops.push(self.ops[i]);
            i = i + 1;
            proof {
                assert(ops@ =~= self.ops@.subrange(0, i as int));
            }
        }
        proof {
            assert(ops@ =~= self.ops@);
        }
        let r = PathSegments { ops, pos: 0 };
        proof {
            assert(r@ =~= self@);
        }
        r
    }
}

/// The operations of a path that are still to be visited.
pub struct PathSegments {
    ops: Vec<PathOp>,
    pos: usize,
}

impl View for PathSegments {
    type V = Seq<PathOp>;

    closed spec fn view(&self) -> Seq<PathOp> {
        self.ops@.subrange(self.pos as int, self.ops@.len() as int)
    }
}

impl PathSegments {
    /// The position lies within the operations.
    pub closed spec fn wf(&self) -> bool {
        self.pos <= self.ops@.len()
    }

    /// Hands out the next operation, or `None` once all have been visited.
    pub fn next(&mut self) -> (r: Option<PathOp>)
        requires
            old(self).wf(),
        ensures
            final(self).wf(),
            old(self)@.len() == 0 ==> r.is_none() && final(self)@ == old(self)@,
            old(self)@.len() > 0 ==> r == Some(old(self)@[0]) && final(self)@ == old(self)@.drop_first(),
    {
        if self.pos < self.ops.len() {
            let op = self.ops[self.pos];
            self.pos = self.pos + 1;
            proof {
                assert(self@ =~= old(self)@.drop_first());
            }
            Some(op)
        } else {
            None
        }
    }
}

} // verus!
