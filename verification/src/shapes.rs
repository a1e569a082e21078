//! Drawing geometry: points, lines, rectangles and circles, and the pixels
//! and line segments that draw them.
use vstd::prelude::*;

verus! {

/// Why drawing failed.
#[derive(Debug, Clone, Copy, PartialEq, Eq, Structural)]
pub enum GraphicsError {
    NotImplemented,
}

/// A point on the screen.
#[derive(Clone, Copy, Debug, PartialEq, Eq, Structural)]
pub struct Point {
    pub x: usize,
    pub y: usize,
}

/// `a + b` held within the range of `isize`.
pub open spec fn sat_add(a: isize, b: isize) -> int {
    let s = a + b;
    if s > isize::MAX {
        isize::MAX as int
    } else if s < isize::MIN {
        isize::MIN as int
    } else {
        s
    }
}

/// A coordinate from a base and an offset: their saturated sum, and zero
/// in place of a negative one.
pub open spec fn coord(a: isize, b: isize) -> usize {
    let s = sat_add(a, b);
    if s < 0 {
        0
    } else {
        s as usize
    }
}

/// `isize::saturating_add`.
fn saturating_add_isize(a: isize, b: isize) -> (r: isize)
    ensures
        r == sat_add(a, b),
{
    match a.checked_add(b) {
        Some(s) => s,
        None => if b > 0 {
            isize::MAX
        } else {
            isize::MIN
        },
    }
}

impl Point {
    /// The point at `(x0 + x1, y0 + y1)`, each sum saturated and negative
    /// ones taken as zero.
    pub fn saturated_add_from_components(x0: isize, x1: isize, y0: isize, y1: isize) -> (r: Self)
        ensures
            r.x == coord(x0, x1),
            r.y == coord(y0, y1),
    {
        let sx = saturating_add_isize(x0, x1);
        let sy = saturating_add_isize(y0, y1);
        Point { x: if sx < 0 { 0 } else { sx as usize }, y: if sy < 0 { 0 } else { sy as usize } }
    }

    /// The point moved by `rhs`.
    pub fn plus(self, rhs: Point) -> (r: Self)
        requires
            self.x + rhs.x <= usize::MAX,
            self.y + rhs.y <= usize::MAX,
        ensures
            r.x == self.x + rhs.x,
            r.y == self.y + rhs.y,
    {
        Point { x: self.x + rhs.x, y: self.y + rhs.y }
    }

    /// The point moved back by `rhs`.
    pub fn minus(self, rhs: Point) -> (r: Self)
        requires
            rhs.x <= self.x,
            rhs.y <= self.y,
        ensures
            r.x == self.x - rhs.x,
            r.y == self.y - rhs.y,
    {
        Point { x: self.x - rhs.x, y: self.y - rhs.y }
    }
}

/// The integer square root: the greatest `r` with `r * r <= n`.
pub fn isqrt(n: usize) -> (r: usize)
    ensures
        r * r <= n < (r + 1) * (r + 1),
{
    let nn = n as u128;
    let mut lo: u128 = 0;
    let mut hi: u128 = nn + 1;
    assert(nn < (nn + 1) * (nn + 1)) by (nonlinear_arith)
        requires
            nn >= 0,
    ;
    while hi - lo > 1
        invariant
            nn == n,
            lo < hi,
            hi <= nn + 1,
            lo * lo <= nn,
            nn < hi * hi,
        decreases hi - lo,
    {
        let mid = lo + (hi - lo) / 2;
        assert(mid < 0x1_0000_0000_0000_0000u128);
        assert(mid * mid < 0x1_0000_0000_0000_0000_0000_0000_0000_0000int) by (nonlinear_arith)
            requires
                mid < 0x1_0000_0000_0000_0000u128,
        ;
        if mid * mid <= nn {
            lo = mid;
        } else {
            hi = mid;
        }
    }
    assert(lo <= nn) by (nonlinear_arith)
        requires
            lo * lo <= nn,
    ;
    lo as usize
}

/// A line between two points.
#[derive(Clone, Copy, Debug, PartialEq, Eq, Structural)]
pub struct Line {
    pub start: Point,
    pub end: Point,
}

/// What the length of a line is computed from: the square root is taken of
/// the two extents, each shifted left by two, added.
pub open spec fn line_measure(l: Line) -> int {
    (((l.end.x - l.start.x) as usize) << 2usize) + (((l.end.y - l.start.y) as usize) << 2usize)
}

impl Line {
    /// The length measure of the line: the integer square root of its two
    /// extents, each shifted left by two, added. The end must not lie left
    /// of or above the start.
    pub fn len(&self) -> (r: usize)
        requires
            self.start.x <= self.end.x,
            self.start.y <= self.end.y,
            line_measure(*self) <= usize::MAX,
        ensures
            r * r <= line_measure(*self) < (r + 1) * (r + 1),
    {
        let dx = self.end.x - self.start.x;
        let dy = self.end.y - self.start.y;
        isqrt((dx << 2usize) + (dy << 2usize))
    }

    /// The pixels that draw the line: Bresenham's walk from the start to
    /// the end (see `law_line_connects` for what they make up).
    pub fn pixels(&self) -> (r: Vec<Point>)
        requires
            self.start.x <= isize::MAX,
            self.start.y <= isize::MAX,
            self.end.x <= isize::MAX,
            self.end.y <= isize::MAX,
        ensures
            r@.map_values(|q: Point| (q.x as int, q.y as int)) == line_points(self.start, self.end),
            r@.len() >= 1,
            r@[0] == self.start,
            r@.last() == self.end,
    {
        let x0 = self.start.x as i128;
        let y0 = self.start.y as i128;
        let x1 = self.end.x as i128;
        let y1 = self.end.y as i128;
        let dx: i128 = if x0 <= x1 {
            x1 - x0
        } else {
            x0 - x1
        };
        let dy: i128 = if y0 <= y1 {
            y0 - y1
        } else {
            y1 - y0
        };
        let sx: i128 = if x0 < x1 {
            1
        } else {
            -1
        };
        let sy: i128 = if y0 < y1 {
            1
        } else {
            -1
        };
        let mut err: i128 = dx + dy;
        let mut x = x0;
        let mut y = y0;
        let mut out: Vec<Point> = Vec::new();
        let ghost st = (x0 as int, y0 as int);
        let ghost t = (x1 as int, y1 as int);
        let ghost d = (dx as int, dy as int);
        let ghost sg = (sx as int, sy as int);
        let ghost mut nx: int = 0;
        let ghost mut ny: int = 0;
        let ghost mut fuel: nat = (dx - dy) as nat;
        proof {
            assert(x0 + sg.0 * 0int == x0) by (nonlinear_arith);
            assert(y0 + sg.1 * 0int == y0) by (nonlinear_arith);
            assert(err == d.0 * (1 + 0int) + d.1 * (1 + 0int)) by (nonlinear_arith)
                requires
                    err == d.0 + d.1,
            ;
            assert(out@.map_values(|q: Point| (q.x as int, q.y as int)) =~= Seq::<(int, int)>::empty());
            assert(Seq::<(int, int)>::empty() + line_walk((x as int, y as int, err as int), t, d, sg, fuel) =~= line_walk(
                (x as int, y as int, err as int),
                t,
                d,
                sg,
                fuel,
            ));
        }
        while !(x == x1 && y == y1)
            invariant
                walk_inv((x as int, y as int, err as int), st, t, d, sg, nx, ny),
                fuel >= (d.0 - nx) + (-d.1 - ny),
                st == (self.start.x as int, self.start.y as int),
                t == (self.end.x as int, self.end.y as int),
                d == (dx as int, dy as int),
                sg == (sx as int, sy as int),
                x1 == t.0,
                y1 == t.1,
                0 <= dx <= isize::MAX,
                0 <= -dy <= isize::MAX,
                out@.map_values(|q: Point| (q.x as int, q.y as int)) + line_walk((x as int, y as int, err as int), t, d, sg, fuel)
                    == line_points(self.start, self.end),
            decreases (d.0 - nx) + (-d.1 - ny),
        {
            let ghost p = (x as int, y as int, err as int);
            proof {
                lemma_line_walk(p, st, t, d, sg, nx, ny, fuel);
                assert(line_walk(p, t, d, sg, fuel)[0] == (p.0, p.1));
                if nx == d.0 && ny == -d.1 {
                    assert(p.0 == t.0) by (nonlinear_arith)
                        requires
                            p.0 == st.0 + sg.0 * nx,
                            nx == d.0,
                            d.0 == absdiff(st.0, t.0),
                            sg.0 == dir(st.0, t.0),
                    ;
                    assert(p.1 == t.1) by (nonlinear_arith)
                        requires
                            p.1 == st.1 + sg.1 * ny,
                            ny == -d.1,
                            -d.1 == absdiff(st.1, t.1),
                            sg.1 == dir(st.1, t.1),
                    ;
                }
                let big: int = 0x4000_0000_0000_0000_0000_0000_0000_0000;
                assert(-big < err < big) by (nonlinear_arith)
                    requires
                        err == d.0 * (1 + ny) + d.1 * (1 + nx),
                        0 <= nx <= d.0,
                        0 <= ny <= -d.1,
                        d.0 < 0x8000_0000_0000_0000,
                        -d.1 < 0x8000_0000_0000_0000,
                        big == 0x4000_0000_0000_0000_0000_0000_0000_0000,
                ;
            }
            out.push(Point { x: x as usize, y: y as usize });
            let e2 = 2 * err;
            if e2 >= dy {
                err = err + dy;
                x = x + sx;
            }
            if e2 <= dx {
                err = err + dx;
                y = y + sy;
            }
            proof {
                lemma_line_step(p, st, t, d, sg, nx, ny);
                let hx = if 2 * p.2 >= d.1 { 1int } else { 0 };
                let hy = if 2 * p.2 <= d.0 { 1int } else { 0 };
                assert((x as int, y as int, err as int) == line_step(p, d, sg));
                let rest = line_walk(line_step(p, d, sg), t, d, sg, (fuel - 1) as nat);
                assert(line_walk(p, t, d, sg, fuel) == seq![(p.0, p.1)] + rest);
                let m = out@.map_values(|q: Point| (q.x as int, q.y as int));
                assert(m =~= out@.drop_last().map_values(|q: Point| (q.x as int, q.y as int)).push((p.0, p.1)));
                assert(m + rest =~= out@.drop_last().map_values(|q: Point| (q.x as int, q.y as int)) + (seq![(p.0, p.1)] + rest));
                nx = nx + hx;
                ny = ny + hy;
                fuel = (fuel - 1) as nat;
            }
        }
        let ghost p = (x as int, y as int, err as int);
        proof {
            lemma_line_walk(p, st, t, d, sg, nx, ny, fuel);
        }
        out.push(Point { x: x as usize, y: y as usize });
        proof {
            assert(line_walk(p, t, d, sg, fuel) == seq![(p.0, p.1)]);
            let m = out@.map_values(|q: Point| (q.x as int, q.y as int));
            assert(m =~= out@.drop_last().map_values(|q: Point| (q.x as int, q.y as int)).push((p.0, p.1)));
            law_line_connects(self.start, self.end);
            assert(m[0] == (out@[0].x as int, out@[0].y as int));
            assert(m[m.len() - 1] == (out@.last().x as int, out@.last().y as int));
        }
        out
    }

    /// The segment that draws the line.
    pub fn segments(&self) -> (r: Vec<(Point, Point)>)
        ensures
            r@ == seq![(self.start, self.end)],
    {
        let mut v = Vec::new();
        v.push((self.start, self.end));
        v
    }
}

/// A rectangle by two corners.
#[derive(Clone, Copy, Debug, PartialEq, Eq, Structural)]
pub struct Rect {
    pub top_left: Point,
    pub bottom_right: Point,
}

impl Rect {
    /// The four sides, from the top-left corner along the top and the left,
    /// then to the bottom-right corner along the right and the bottom.
    pub fn segments(&self) -> (r: Vec<(Point, Point)>)
        ensures
            r@ == seq![
                (self.top_left, Point { x: self.bottom_right.x, y: self.top_left.y }),
                (self.top_left, Point { x: self.top_left.x, y: self.bottom_right.y }),
                (Point { x: self.bottom_right.x, y: self.top_left.y }, self.bottom_right),
                (Point { x: self.top_left.x, y: self.bottom_right.y }, self.bottom_right),
            ],
    {
        let top_right = Point { x: self.bottom_right.x, y: self.top_left.y };
        let bottom_left = Point { x: self.top_left.x, y: self.bottom_right.y };
        let mut v = Vec::new();
        v.push((self.top_left, top_right));
        v.push((self.top_left, bottom_left));
        v.push((top_right, self.bottom_right));
        v.push((bottom_left, self.bottom_right));
        assert(v@ =~= seq![
            (self.top_left, top_right),
            (self.top_left, bottom_left),
            (top_right, self.bottom_right),
            (bottom_left, self.bottom_right),
        ]);
        v
    }
}

/// A circle by its center and radius.
#[derive(Clone, Copy, Debug, PartialEq, Eq, Structural)]
pub struct Circle {
    pub center: Point,
    pub rad: usize,
}

/// The eight points mirrored around the center for one step of the walk.
pub open spec fn octants(cx: isize, cy: isize, x: isize, y: isize) -> Seq<Point> {
    seq![
        Point { x: coord(cx, x), y: coord(cy, y) },
        Point { x: coord(cx, y), y: coord(cy, x) },
        Point { x: coord(cx, -y as isize), y: coord(cy, x) },
        Point { x: coord(cx, -x as isize), y: coord(cy, y) },
        Point { x: coord(cx, -x as isize), y: coord(cy, -y as isize) },
        Point { x: coord(cx, -y as isize), y: coord(cy, -x as isize) },
        Point { x: coord(cx, y), y: coord(cy, -x as isize) },
        Point { x: coord(cx, x), y: coord(cy, -y as isize) },
    ]
}

/// The midpoint walk around a circle from `(x, y)` with error term `err`:
/// while `x >= y`, the eight mirrored points are drawn, `y` steps up, and
/// `x` steps down when the error term is positive.
pub open spec fn circle_walk(cx: isize, cy: isize, x: int, y: int, err: int) -> Seq<Point>
    decreases (if x >= y { x - y + 2 } else { 0 }),
{
    if x < y || x > isize::MAX || y < 0 {
        Seq::empty()
    } else {
        let y2 = y + 1;
        let (x2, err2) = if err <= 0 {
            (x, err + 2 * y2 + 1)
        } else {
            (x - 1, err + 2 * (y2 - (x - 1)) + 1)
        };
        octants(cx, cy, x as isize, y as isize) + circle_walk(cx, cy, x2, y2, err2)
    }
}

/// One step of the walk: its eight points, then the rest of the walk.
proof fn lemma_walk_step(cx: isize, cy: isize, x: int, y: int, err: int, x2: int, y2: int, err2: int)
    requires
        0 <= y <= x <= isize::MAX,
        y2 == y + 1,
        err <= 0 ==> x2 == x && err2 == err + 2 * y2 + 1,
        err > 0 ==> x2 == x - 1 && err2 == err + 2 * (y2 - x2) + 1,
    ensures
        circle_walk(cx, cy, x, y, err) == octants(cx, cy, x as isize, y as isize) + circle_walk(cx, cy, x2, y2, err2),
{
}

/// Pushing a step's points keeps the walk's remainder the same.
proof fn lemma_append_step(o0: Seq<Point>, o1: Seq<Point>, step: Seq<Point>, rest: Seq<Point>)
    requires
        o1 == o0 + step,
    ensures
        o1 + rest == o0 + (step + rest),
{
    assert(o1 + rest =~= o0 + (step + rest));
}

impl Circle {
    /// The pixels that draw the circle, by the midpoint walk from the
    /// rightmost point. A radius beyond `isize::MAX` turns negative as an
    /// `isize`, and then nothing is drawn.
    pub fn pixels(&self) -> (r: Vec<Point>)
        requires
            self.rad <= isize::MAX / 4 || self.rad > isize::MAX,
        ensures
            self.rad > isize::MAX ==> r@ == Seq::<Point>::empty(),
            self.rad <= isize::MAX ==> r@ == circle_walk(
                #[verifier::truncate] (self.center.x as isize),
                #[verifier::truncate] (self.center.y as isize),
                self.rad as int,
                0,
                0,
            ),
    {
        let rad = self.rad;
        if rad > isize::MAX as usize {
            return Vec::new();
        }
        let mut x: isize = rad as isize;
        let mut y: isize = 0;
        let mut err: isize = 0;
        let cx = self.center.x as isize;
        let cy = self.center.y as isize;
        let ghost r0 = x as int;
        let mut out: Vec<Point> = Vec::new();
        while x >= y
            invariant
                r0 == rad,
                r0 <= isize::MAX / 4,
                0 <= y,
                x <= r0,
                y <= x + 2,
                y == 0 ==> err == 0 && x == r0,
                -2 * x <= err,
                x >= y ==> err <= 2 * y + 1,
                err <= 2 * y + 5,
                x >= 0,
                out@ + circle_walk(cx, cy, x as int, y as int, err as int) == circle_walk(cx, cy, r0, 0, 0),
            decreases (if x >= y { x - y + 2 } else { 0 }),
        {
            let ghost o0 = out@;
            out.push(Point::saturated_add_from_components(cx, x, cy, y));
            out.push(Point::saturated_add_from_components(cx, y, cy, x));
            out.push(Point::saturated_add_from_components(cx, -y, cy, x));
            out.push(Point::saturated_add_from_components(cx, -x, cy, y));
            out.push(Point::saturated_add_from_components(cx, -x, cy, -y));
            out.push(Point::saturated_add_from_components(cx, -y, cy, -x));
            out.push(Point::saturated_add_from_components(cx, y, cy, -x));
            out.push(Point::saturated_add_from_components(cx, x, cy, -y));
            let ghost gx = x as int;
            let ghost gy = y as int;
            let ghost gerr = err as int;
            y = y + 1;
            if err <= 0 {
                err = err + 2 * y + 1;
            } else {
                x = x - 1;
                err = err + 2 * (y - x) + 1;
            }
            proof {
                assert(out@ =~= o0 + octants(cx, cy, gx as isize, gy as isize));
                lemma_walk_step(cx, cy, gx, gy, gerr, x as int, y as int, err as int);
                lemma_append_step(o0, out@, octants(cx, cy, gx as isize, gy as isize), circle_walk(cx, cy, x as int, y as int, err as int));
            }
        }
        proof {
            assert(out@ + Seq::<Point>::empty() =~= out@);
        }
        out
    }
}

/// `p` mirrored in the vertical line through `x = cx`.
pub open spec fn mirror_v(p: Point, cx: int) -> Point {
    Point { x: (2 * cx - p.x) as usize, y: p.y }
}

/// `p` mirrored in the horizontal line through `y = cy`.
pub open spec fn mirror_h(p: Point, cy: int) -> Point {
    Point { x: p.x, y: (2 * cy - p.y) as usize }
}

/// `p` mirrored in the diagonal through `(cx, cy)`.
pub open spec fn mirror_d(p: Point, cx: int, cy: int) -> Point {
    Point { x: (cx + (p.y - cy)) as usize, y: (cy + (p.x - cx)) as usize }
}

/// Whether `q` is among the pixels `s`.
#[verifier::opaque]
pub open spec fn appears(s: Seq<Point>, q: Point) -> bool {
    s.contains(q)
}

/// A pixel at a place of `s` appears in it.
proof fn lemma_appears_at(s: Seq<Point>, j: int, q: Point)
    requires
        0 <= j < s.len(),
        s[j] == q,
    ensures
        appears(s, q),
{
    reveal(appears);
}

/// What the first part holds, the whole holds.
proof fn lemma_appears_left(a: Seq<Point>, b: Seq<Point>, q: Point)
    requires
        appears(a, q),
    ensures
        appears(a + b, q),
{
    reveal(appears);
    let j = choose|j: int| 0 <= j < a.len() && a[j] == q;
    assert((a + b)[j] == q);
}

/// What the second part holds, the whole holds.
proof fn lemma_appears_right(a: Seq<Point>, b: Seq<Point>, q: Point)
    requires
        appears(b, q),
    ensures
        appears(a + b, q),
{
    reveal(appears);
    let j = choose|j: int| 0 <= j < b.len() && b[j] == q;
    assert((a + b)[a.len() + j] == q);
}

/// Pixels unchanged by the three mirrors through `(cx, cy)`, and so by all
/// eight symmetries of the square around it: the mirror images of each
/// pixel appear among them.
pub open spec fn mirror_closed(s: Seq<Point>, cx: int, cy: int) -> bool {
    forall|k: int|
        0 <= k < s.len() ==> appears(s, mirror_v(#[trigger] s[k], cx)) && appears(s, mirror_h(s[k], cy)) && appears(
            s,
            mirror_d(s[k], cx, cy),
        )
}

/// One step's eight points are closed under the mirrors, when nothing is
/// clipped.
proof fn lemma_octants_closed(cx: isize, cy: isize, x: isize, y: isize)
    requires
        0 <= y <= x,
        x <= cx,
        x <= cy,
        cx + x <= isize::MAX,
        cy + x <= isize::MAX,
    ensures
        mirror_closed(octants(cx, cy, x, y), cx as int, cy as int),
{
    let o = octants(cx, cy, x, y);
    assert(coord(cx, x) == cx + x && coord(cx, y) == cx + y);
    assert(coord(cx, -x as isize) == cx - x && coord(cx, -y as isize) == cx - y);
    assert(coord(cy, x) == cy + x && coord(cy, y) == cy + y);
    assert(coord(cy, -x as isize) == cy - x && coord(cy, -y as isize) == cy - y);
    assert forall|k: int| 0 <= k < o.len() implies appears(o, mirror_v(#[trigger] o[k], cx as int)) && appears(
        o,
        mirror_h(o[k], cy as int),
    ) && appears(o, mirror_d(o[k], cx as int, cy as int)) by {
        let v = mirror_v(o[k], cx as int);
        let h = mirror_h(o[k], cy as int);
        let dd = mirror_d(o[k], cx as int, cy as int);
        let (a, b, c) = if k == 0 {
            (3int, 7int, 1int)
        } else if k == 1 {
            (2, 6, 0)
        } else if k == 2 {
            (1, 5, 7)
        } else if k == 3 {
            (0, 4, 6)
        } else if k == 4 {
            (7, 3, 5)
        } else if k == 5 {
            (6, 2, 4)
        } else if k == 6 {
            (5, 1, 3)
        } else {
            (4, 0, 2)
        };
        assert(o[a] == v && o[b] == h && o[c] == dd);
        lemma_appears_at(o, a, v);
        lemma_appears_at(o, b, h);
        lemma_appears_at(o, c, dd);
    }
}

/// Two pixel sets closed under the mirrors give a closed set together.
proof fn lemma_closed_concat(a: Seq<Point>, b: Seq<Point>, cx: int, cy: int)
    requires
        mirror_closed(a, cx, cy),
        mirror_closed(b, cx, cy),
    ensures
        mirror_closed(a + b, cx, cy),
{
    let s = a + b;
    assert forall|k: int| 0 <= k < s.len() implies appears(s, mirror_v(#[trigger] s[k], cx)) && appears(
        s,
        mirror_h(s[k], cy),
    ) && appears(s, mirror_d(s[k], cx, cy)) by {
        if k < a.len() {
            assert(s[k] == a[k]);
            lemma_appears_left(a, b, mirror_v(a[k], cx));
            lemma_appears_left(a, b, mirror_h(a[k], cy));
            lemma_appears_left(a, b, mirror_d(a[k], cx, cy));
        } else {
            assert(s[k] == b[k - a.len()]);
            lemma_appears_right(a, b, mirror_v(b[k - a.len()], cx));
            lemma_appears_right(a, b, mirror_h(b[k - a.len()], cy));
            lemma_appears_right(a, b, mirror_d(b[k - a.len()], cx, cy));
        }
    }
}

/// The rest of a walk within the radius is closed under the mirrors.
proof fn lemma_walk_closed(cx: isize, cy: isize, rad: int, x: int, y: int, err: int)
    requires
        0 <= y,
        x <= rad,
        rad <= cx,
        rad <= cy,
        cx + rad <= isize::MAX,
        cy + rad <= isize::MAX,
    ensures
        mirror_closed(circle_walk(cx, cy, x, y, err), cx as int, cy as int),
    decreases (if x >= y { x - y + 2 } else { 0 }),
{
    if x < y || x > isize::MAX || y < 0 {
    } else {
        let y2 = y + 1;
        let (x2, err2) = if err <= 0 {
            (x, err + 2 * y2 + 1)
        } else {
            (x - 1, err + 2 * (y2 - (x - 1)) + 1)
        };
        lemma_octants_closed(cx, cy, x as isize, y as isize);
        lemma_walk_closed(cx, cy, rad, x2, y2, err2);
        lemma_closed_concat(octants(cx, cy, x as isize, y as isize), circle_walk(cx, cy, x2, y2, err2), cx as int, cy as int);
    }
}

/// Law: a circle that fits on the screen around its center is drawn
/// symmetrically: every pixel's mirror images in the vertical, the
/// horizontal and the diagonal line through the center are pixels too, so
/// all eight octants are drawn alike; and the walk starts at the rightmost
/// point, `rad` right of the center.
pub proof fn law_circle_symmetric(c: Circle)
    requires
        c.rad <= c.center.x,
        c.rad <= c.center.y,
        c.center.x + c.rad <= isize::MAX,
        c.center.y + c.rad <= isize::MAX,
    ensures
        mirror_closed(
            circle_walk(c.center.x as isize, c.center.y as isize, c.rad as int, 0, 0),
            c.center.x as int,
            c.center.y as int,
        ),
        appears(
            circle_walk(c.center.x as isize, c.center.y as isize, c.rad as int, 0, 0),
            Point { x: (c.center.x + c.rad) as usize, y: c.center.y },
        ),
{
    let cx = c.center.x as isize;
    let cy = c.center.y as isize;
    lemma_walk_closed(cx, cy, c.rad as int, c.rad as int, 0, 0);
    let w = circle_walk(cx, cy, c.rad as int, 0, 0);
    assert(coord(cx, c.rad as isize) == c.center.x + c.rad);
    assert(coord(cy, 0) == c.center.y);
    assert(w[0] == Point { x: (c.center.x + c.rad) as usize, y: c.center.y });
    lemma_appears_at(w, 0, w[0]);
}

/// The distance between `a` and `b`.
pub open spec fn absdiff(a: int, b: int) -> int {
    if a <= b {
        b - a
    } else {
        a - b
    }
}

/// The direction of a step from `a` toward `b`: up when `a < b`, else down.
pub open spec fn dir(a: int, b: int) -> int {
    if a < b {
        1
    } else {
        -1
    }
}

/// Whether `v` lies between `a` and `b`, both included.
pub open spec fn between(a: int, b: int, v: int) -> bool {
    (a <= v <= b) || (b <= v <= a)
}

/// One step of the line walk from position and error term `p`: with `d`
/// the horizontal distance and minus the vertical one, and `s` the
/// directions, a doubled error not below `d.1` steps horizontally, one not
/// above `d.0` steps vertically (both may happen).
pub open spec fn line_step(p: (int, int, int), d: (int, int), s: (int, int)) -> (int, int, int) {
    let e2 = 2 * p.2;
    let (x, err1) = if e2 >= d.1 {
        (p.0 + s.0, p.2 + d.1)
    } else {
        (p.0, p.2)
    };
    let (y, err2) = if e2 <= d.0 {
        (p.1 + s.1, err1 + d.0)
    } else {
        (p.1, err1)
    };
    (x, y, err2)
}

/// The positions the walk visits from `p` until it reaches `t` (or runs out
/// of `fuel` steps).
pub open spec fn line_walk(p: (int, int, int), t: (int, int), d: (int, int), s: (int, int), fuel: nat) -> Seq<
    (int, int),
>
    decreases fuel,
{
    if (p.0 == t.0 && p.1 == t.1) || fuel == 0 {
        seq![(p.0, p.1)]
    } else {
        seq![(p.0, p.1)] + line_walk(line_step(p, d, s), t, d, s, (fuel - 1) as nat)
    }
}

/// The pixels of the line from `start` to `end`, by Bresenham's walk.
pub open spec fn line_points(start: Point, end: Point) -> Seq<(int, int)> {
    let (x0, y0, x1, y1) = (start.x as int, start.y as int, end.x as int, end.y as int);
    let dx = absdiff(x0, x1);
    let dy = -absdiff(y0, y1);
    line_walk((x0, y0, dx + dy), (x1, y1), (dx, dy), (dir(x0, x1), dir(y0, y1)), (dx - dy) as nat)
}

/// What holds along the walk from `st` to `t` after `nx` horizontal and
/// `ny` vertical steps.
pub open spec fn walk_inv(p: (int, int, int), st: (int, int), t: (int, int), d: (int, int), s: (int, int), nx: int, ny: int) -> bool {
    &&& d.0 == absdiff(st.0, t.0)
    &&& d.1 == -absdiff(st.1, t.1)
    &&& s.0 == dir(st.0, t.0)
    &&& s.1 == dir(st.1, t.1)
    &&& 0 <= nx <= d.0
    &&& 0 <= ny <= -d.1
    &&& p.0 == st.0 + s.0 * nx
    &&& p.1 == st.1 + s.1 * ny
    &&& p.2 == d.0 * (1 + ny) + d.1 * (1 + nx)
}

/// Two pixels touch: each coordinate differs by at most one, and they are
/// not the same pixel.
pub open spec fn neighbours(a: (int, int), b: (int, int)) -> bool {
    absdiff(a.0, b.0) <= 1 && absdiff(a.1, b.1) <= 1 && a != b
}

/// A step of the walk keeps its invariant, moves one pixel, and never
/// passes the end along either axis.
proof fn lemma_line_step(p: (int, int, int), st: (int, int), t: (int, int), d: (int, int), s: (int, int), nx: int, ny: int)
    requires
        walk_inv(p, st, t, d, s, nx, ny),
        nx < d.0 || ny < -d.1,
    ensures
        walk_inv(
            line_step(p, d, s),
            st,
            t,
            d,
            s,
            nx + (if 2 * p.2 >= d.1 { 1int } else { 0 }),
            ny + (if 2 * p.2 <= d.0 { 1int } else { 0 }),
        ),
        (2 * p.2 >= d.1) || (2 * p.2 <= d.0),
        neighbours((p.0, p.1), (line_step(p, d, s).0, line_step(p, d, s).1)),
{
    let dxx = d.0;
    let dyy = -d.1;
    let e = p.2;
    assert(e == dxx * (1 + ny) - dyy * (1 + nx)) by (nonlinear_arith)
        requires
            e == d.0 * (1 + ny) + d.1 * (1 + nx),
            dxx == d.0,
            dyy == -d.1,
    ;
    if nx == dxx {
        assert(2 * e < -dyy) by (nonlinear_arith)
            requires
                e == dxx * (1 + ny) - dyy * (1 + nx),
                nx == dxx,
                0 <= ny < dyy,
                dxx >= 0,
        ;
    }
    if ny == dyy {
        assert(2 * e > dxx) by (nonlinear_arith)
            requires
                e == dxx * (1 + ny) - dyy * (1 + nx),
                ny == dyy,
                0 <= nx < dxx,
                dyy >= 0,
        ;
    }
    let hx = if 2 * e >= d.1 { 1int } else { 0 };
    let hy = if 2 * e <= d.0 { 1int } else { 0 };
    let q = line_step(p, d, s);
    assert(q.2 == dxx * (1 + ny + hy) - dyy * (1 + nx + hx)) by (nonlinear_arith)
        requires
            e == dxx * (1 + ny) - dyy * (1 + nx),
            q.2 == e - dyy * hx + dxx * hy,
    ;
    assert(q.2 == d.0 * (1 + (ny + hy)) + d.1 * (1 + (nx + hx))) by (nonlinear_arith)
        requires
            q.2 == dxx * (1 + ny + hy) - dyy * (1 + nx + hx),
            dxx == d.0,
            dyy == -d.1,
    ;
    assert(q.0 == st.0 + s.0 * (nx + hx)) by (nonlinear_arith)
        requires
            p.0 == st.0 + s.0 * nx,
            q.0 == p.0 + s.0 * hx,
            hx == 0 || hx == 1,
    ;
    assert(q.1 == st.1 + s.1 * (ny + hy)) by (nonlinear_arith)
        requires
            p.1 == st.1 + s.1 * ny,
            q.1 == p.1 + s.1 * hy,
            hy == 0 || hy == 1,
    ;
}

/// The walk from a position on the way visits touching pixels, each
/// between the start and the end, and ends at the end.
proof fn lemma_line_walk(
    p: (int, int, int),
    st: (int, int),
    t: (int, int),
    d: (int, int),
    s: (int, int),
    nx: int,
    ny: int,
    fuel: nat,
)
    requires
        walk_inv(p, st, t, d, s, nx, ny),
        fuel >= (d.0 - nx) + (-d.1 - ny),
    ensures
        line_walk(p, t, d, s, fuel).len() >= 1,
        line_walk(p, t, d, s, fuel)[0] == (p.0, p.1),
        line_walk(p, t, d, s, fuel).last() == t,
        forall|i: int|
            0 <= i < line_walk(p, t, d, s, fuel).len() ==> between(st.0, t.0, #[trigger] line_walk(p, t, d, s, fuel)[i].0)
                && between(st.1, t.1, line_walk(p, t, d, s, fuel)[i].1),
        forall|i: int|
            0 <= i < line_walk(p, t, d, s, fuel).len() - 1 ==> neighbours(
                #[trigger] line_walk(p, t, d, s, fuel)[i],
                line_walk(p, t, d, s, fuel)[i + 1],
            ),
    decreases fuel,
{
    let w = line_walk(p, t, d, s, fuel);
    assert(between(st.0, t.0, p.0)) by (nonlinear_arith)
        requires
            p.0 == st.0 + s.0 * nx,
            0 <= nx <= d.0,
            d.0 == absdiff(st.0, t.0),
            s.0 == dir(st.0, t.0),
    ;
    assert(between(st.1, t.1, p.1)) by (nonlinear_arith)
        requires
            p.1 == st.1 + s.1 * ny,
            0 <= ny <= -d.1,
            -d.1 == absdiff(st.1, t.1),
            s.1 == dir(st.1, t.1),
    ;
    let at_end = p.0 == t.0 && p.1 == t.1;
    if nx == d.0 && ny == -d.1 {
        assert(p.0 == t.0) by (nonlinear_arith)
            requires
                p.0 == st.0 + s.0 * nx,
                nx == d.0,
                d.0 == absdiff(st.0, t.0),
                s.0 == dir(st.0, t.0),
        ;
        assert(p.1 == t.1) by (nonlinear_arith)
            requires
                p.1 == st.1 + s.1 * ny,
                ny == -d.1,
                -d.1 == absdiff(st.1, t.1),
                s.1 == dir(st.1, t.1),
        ;
    } else {
        assert(!at_end) by {
            if nx < d.0 {
                assert(p.0 != t.0) by (nonlinear_arith)
                    requires
                        p.0 == st.0 + s.0 * nx,
                        0 <= nx < d.0,
                        d.0 == absdiff(st.0, t.0),
                        s.0 == dir(st.0, t.0),
                ;
            } else {
                assert(p.1 != t.1) by (nonlinear_arith)
                    requires
                        p.1 == st.1 + s.1 * ny,
                        0 <= ny < -d.1,
                        -d.1 == absdiff(st.1, t.1),
                        s.1 == dir(st.1, t.1),
                ;
            }
        }
        let q = line_step(p, d, s);
        let hx = if 2 * p.2 >= d.1 { 1int } else { 0 };
        let hy = if 2 * p.2 <= d.0 { 1int } else { 0 };
        lemma_line_step(p, st, t, d, s, nx, ny);
        lemma_line_walk(q, st, t, d, s, nx + hx, ny + hy, (fuel - 1) as nat);
        let rest = line_walk(q, t, d, s, (fuel - 1) as nat);
        assert(w == seq![(p.0, p.1)] + rest);
        assert forall|i: int| 0 <= i < w.len() implies between(st.0, t.0, #[trigger] w[i].0) && between(st.1, t.1, w[i].1) by {
            if i > 0 {
                assert(w[i] == rest[i - 1]);
            }
        }
        assert forall|i: int| 0 <= i < w.len() - 1 implies neighbours(#[trigger] w[i], w[i + 1]) by {
            if i > 0 {
                assert(w[i] == rest[i - 1]);
                assert(w[i + 1] == rest[i]);
            } else {
                assert(w[1] == rest[0]);
            }
        }
    }
}

/// Law: the pixels of a line run from its start to its end, each touching
/// the one before, all within the box the two points span.
pub proof fn law_line_connects(start: Point, end: Point)
    ensures
        line_points(start, end).len() >= 1,
        line_points(start, end)[0] == (start.x as int, start.y as int),
        line_points(start, end).last() == (end.x as int, end.y as int),
        forall|i: int|
            0 <= i < line_points(start, end).len() ==> between(start.x as int, end.x as int, #[trigger] line_points(start, end)[i].0)
                && between(start.y as int, end.y as int, line_points(start, end)[i].1),
        forall|i: int|
            0 <= i < line_points(start, end).len() - 1 ==> neighbours(
                #[trigger] line_points(start, end)[i],
                line_points(start, end)[i + 1],
            ),
{
    let (x0, y0, x1, y1) = (start.x as int, start.y as int, end.x as int, end.y as int);
    let dx = absdiff(x0, x1);
    let dy = -absdiff(y0, y1);
    let p = (x0, y0, dx + dy);
    let (sx, sy) = (dir(x0, x1), dir(y0, y1));
    assert(x0 + sx * 0int == x0) by (nonlinear_arith);
    assert(y0 + sy * 0int == y0) by (nonlinear_arith);
    assert(p.2 == dx * (1 + 0int) + dy * (1 + 0int)) by (nonlinear_arith)
        requires
            p.2 == dx + dy,
    ;
    lemma_line_walk(p, (x0, y0), (x1, y1), (dx, dy), (dir(x0, x1), dir(y0, y1)), 0, 0, (dx - dy) as nat);
}

} // verus!
