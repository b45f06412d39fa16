//! The point sets of lines and shapes: which pixels each rasterisation step
//! plots, before clipping to the image.

use vstd::prelude::*;
use vstd::relations::{sorted_by, total_ordering};
use vstd::seq_lib::lemma_sorted_unique;
use crate::book::in_bounds;
use crate::operations::{Point, Size};

verus! {

/// `n - 1`, or 0 for 0: the extent of a side of `n` pixels past its first pixel.
pub open spec fn span(n: u16) -> int {
    if n > 0 {
        n - 1
    } else {
        0
    }
}

/// The rectangle with top-left `position` and size `size` (a zero side counts
/// as one pixel): every point of it when filled, its four edges otherwise.
pub open spec fn rect_points(position: Point, size: Size, filled: bool) -> Set<(int, int)> {
    let x1 = position.x as int;
    let y1 = position.y as int;
    let x2 = x1 + span(size.width);
    let y2 = y1 + span(size.height);
    Set::new(
        |p: (int, int)|
            x1 <= p.0 <= x2 && y1 <= p.1 <= y2 && (filled || p.0 == x1 || p.0 == x2 || p.1 == y1 || p.1 == y2),
    )
}

/// The points that Bresenham's walk visits from `(x, y)` to `(x1, y1)`, with
/// step signs `sx`, `sy`, extents `dx`, `dy` and error term `err`. The walk
/// reaches its end point within `dx + dy` steps, which `fuel` bounds.
pub open spec fn bresenham(
    x: int,
    y: int,
    x1: int,
    y1: int,
    dx: int,
    dy: int,
    sx: int,
    sy: int,
    err: int,
    fuel: nat,
) -> Set<(int, int)>
    decreases fuel,
{
    if (x == x1 && y == y1) || fuel == 0 {
        set![(x, y)]
    } else {
        let e2 = 2 * err;
        let nx = if e2 > -dy { x + sx } else { x };
        let err1 = if e2 > -dy { err - dy } else { err };
        let ny = if e2 < dx { y + sy } else { y };
        let err2 = if e2 < dx { err1 + dx } else { err1 };
        bresenham(nx, ny, x1, y1, dx, dy, sx, sy, err2, (fuel - 1) as nat).insert((x, y))
    }
}

pub open spec fn abs_diff(a: int, b: int) -> int {
    if a >= b {
        a - b
    } else {
        b - a
    }
}

/// The points of Bresenham's line from `(x0, y0)` to `(x1, y1)`, both ends included.
pub open spec fn segment_points(x0: int, y0: int, x1: int, y1: int) -> Set<(int, int)> {
    let dx = abs_diff(x1, x0);
    let dy = abs_diff(y1, y0);
    bresenham(
        x0,
        y0,
        x1,
        y1,
        dx,
        dy,
        if x0 < x1 { 1 } else { -1 },
        if y0 < y1 { 1 } else { -1 },
        dx - dy,
        (dx + dy) as nat,
    )
}

/// The points of the straight line from `p0` to `p1`, both ends included.
pub open spec fn line_points(p0: Point, p1: Point) -> Set<(int, int)> {
    segment_points(p0.x as int, p0.y as int, p1.x as int, p1.y as int)
}

/// One Bresenham step from `i` of `dx` and `j` of `dy` steps taken moves along at
/// least one axis and never past the end point.
pub proof fn lemma_bresenham_step(dx: int, dy: int, i: int, j: int, err: int)
    requires
        0 <= i <= dx,
        0 <= j <= dy,
        err == dx - dy - i * dy + j * dx,
        !(i == dx && j == dy),
    ensures
        2 * err > -dy ==> i < dx,
        2 * err < dx ==> j < dy,
        2 * err > -dy || 2 * err < dx,
{
    if i == dx {
        assert(err <= -dy) by (nonlinear_arith)
            requires
                err == dx - dy - i * dy + j * dx,
                i == dx,
                0 <= j < dy,
                0 <= dx,
        ;
    }
    if j == dy {
        assert(err >= dx) by (nonlinear_arith)
            requires
                err == dx - dy - i * dy + j * dx,
                j == dy,
                0 <= i < dx,
                0 <= dy,
        ;
    }
}

/// The points `center + o` for the offsets `o` of `offs`.
pub open spec fn offset_points(cx: int, cy: int, offs: Seq<(i32, i32)>) -> Set<(int, int)>
    decreases offs.len(),
{
    if offs.len() == 0 {
        Set::empty()
    } else {
        offset_points(cx, cy, offs.drop_last()).insert((cx + offs.last().0, cy + offs.last().1))
    }
}

/// The eight points symmetric to `(cx + a, cy + b)` about the centre and its diagonals.
pub open spec fn octants(cx: int, cy: int, a: int, b: int) -> Set<(int, int)> {
    set![
        (cx + a, cy + b),
        (cx + a, cy - b),
        (cx - a, cy + b),
        (cx - a, cy - b),
        (cx + b, cy + a),
        (cx + b, cy - a),
        (cx - b, cy + a),
        (cx - b, cy - a),
    ]
}

/// The points of the midpoint circle walk from `(x, y)` with decision value `d`.
pub open spec fn midpoint_walk(cx: int, cy: int, x: int, y: int, d: int) -> Set<(int, int)>
    decreases y + 2 - x,
{
    if x > y {
        Set::empty()
    } else {
        let nd = if d < 0 { d + 2 * x + 3 } else { d + 2 * (x - y) + 5 };
        let ny = if d < 0 { y } else { y - 1 };
        octants(cx, cy, x, y).union(midpoint_walk(cx, cy, x + 1, ny, nd))
    }
}

/// Centre and radius of the circle inscribed in the box at `position` of size `size`.
pub open spec fn circle_center(position: Point, size: Size) -> (int, int) {
    (position.x + size.width / 2, position.y + size.height / 2)
}

pub open spec fn circle_radius(size: Size) -> int {
    (if size.width <= size.height { size.width as int } else { size.height as int }) / 2
}

/// A circle: the disc when filled, the midpoint-algorithm outline otherwise.
pub open spec fn circle_points(position: Point, size: Size, filled: bool) -> Set<(int, int)> {
    let (cx, cy) = circle_center(position, size);
    let r = circle_radius(size);
    if filled {
        Set::new(|p: (int, int)| (p.0 - cx) * (p.0 - cx) + (p.1 - cy) * (p.1 - cy) <= r * r)
    } else {
        midpoint_walk(cx, cy, 0, r, 1 - r)
    }
}

pub proof fn lemma_square_exceeds(a: int, r: int)
    requires
        0 <= r,
        a > r || a < -r,
    ensures
        a * a > r * r,
{
    assert(a * a > r * r) by (nonlinear_arith)
        requires
            0 <= r,
            a > r || a < -r,
    ;
}

/// An ellipse with semi-axes `size / 2` centred in the box at `position`:
/// the points of the box inside it when filled; otherwise the points
/// `centre + o` for the sampled outline offsets `outline`.
pub open spec fn oval_points(position: Point, size: Size, filled: bool, outline: Seq<(i32, i32)>) -> Set<(int, int)> {
    let (cx, cy) = circle_center(position, size);
    let rx = size.width / 2;
    let ry = size.height / 2;
    if filled {
        Set::new(
            |p: (int, int)|
                cx - rx <= p.0 <= cx + rx && cy - ry <= p.1 <= cy + ry && rx * rx * ((p.1 - cy) * (p.1 - cy)) + ry * ry * ((
                p.0 - cx) * (p.0 - cx)) <= rx * rx * (ry * ry),
        )
    } else {
        offset_points(cx, cy, outline)
    }
}

/// How many outline samples an ellipse with semi-axes `rx`, `ry` takes.
pub open spec fn oval_steps(rx: int, ry: int) -> int {
    if (rx + ry) * 2 >= 20 {
        (rx + ry) * 2
    } else {
        20
    }
}

/// The x where the triangle edge from `(xa, ya)` to `(xb, yb)` meets row `y`,
/// rounded down.
pub open spec fn edge_x(xa: int, ya: int, xb: int, yb: int, y: int) -> int {
    if yb == ya {
        xa
    } else {
        (xa * (yb - ya) + (y - ya) * (xb - xa)) / (yb - ya)
    }
}

/// Apex `(x + width / 2, y)` and base corners at the bottom-left and
/// bottom-right of the box.
pub open spec fn triangle_vertices(position: Point, size: Size) -> (int, int, int, int, int, int) {
    let x1 = position.x + size.width / 2;
    let y1 = position.y as int;
    let x2 = position.x as int;
    let y2 = position.y + span(size.height);
    let x3 = position.x + span(size.width);
    (x1, y1, x2, y2, x3, y2)
}

/// A triangle: each row between apex and base spans the two slanted edges when
/// filled; otherwise the three edges as lines.
pub open spec fn triangle_points(position: Point, size: Size, filled: bool) -> Set<(int, int)> {
    let (x1, y1, x2, y2, x3, y3) = triangle_vertices(position, size);
    if filled {
        Set::new(|p: (int, int)| y1 <= p.1 <= y2 && edge_x(x1, y1, x2, y2, p.1) <= p.0 <= edge_x(x1, y1, x3, y2, p.1))
    } else {
        segment_points(x1, y1, x2, y2).union(segment_points(x2, y2, x3, y3)).union(segment_points(x3, y3, x1, y1))
    }
}

/// Edge `i` of a closed polygon: from vertex `i` to the next, the last
/// closing back to the first.
pub open spec fn edge(pts: Seq<Point>, i: int) -> (Point, Point) {
    (pts[i], pts[(i + 1) % (pts.len() as int)])
}

/// Edge `a`-`b` crosses row `y`: exactly one end lies at or above it.
pub open spec fn crosses(a: Point, b: Point, y: int) -> bool {
    (a.y <= y && b.y > y) || (b.y <= y && a.y > y)
}

/// Where edge `a`-`b` meets row `y`, rounded down.
pub open spec fn crossing_x(a: Point, b: Point, y: int) -> int {
    let lo = if a.y < b.y { a } else { b };
    let hi = if a.y < b.y { b } else { a };
    (lo.x * (hi.y - lo.y) + (y - lo.y) * (hi.x - lo.x)) / (hi.y - lo.y)
}

/// Row `y`'s crossings with the first `n` edges, in edge order.
pub open spec fn crossings(pts: Seq<Point>, y: int, n: int) -> Seq<i64>
    decreases n,
{
    if n <= 0 {
        seq![]
    } else {
        let before = crossings(pts, y, n - 1);
        let (a, b) = edge(pts, n - 1);
        if crosses(a, b, y) {
            before.push(crossing_x(a, b, y) as i64)
        } else {
            before
        }
    }
}

pub open spec fn le_i64(a: i64, b: i64) -> bool {
    a <= b
}

/// `x` lies between the crossings of one of the pairs (first, second),
/// (third, fourth), ... of the sorted crossings `s`.
pub open spec fn in_span(s: Seq<i64>, x: int) -> bool {
    exists|k: int| 0 <= k && 2 * k + 1 < s.len() && s[2 * k] <= x <= #[trigger] s[2 * k + 1]
}

/// The first `n` edges of the closed polygon, as lines.
pub open spec fn outline_points(pts: Seq<Point>, n: int) -> Set<(int, int)>
    decreases n,
{
    if n <= 0 {
        Set::empty()
    } else {
        let (a, b) = edge(pts, n - 1);
        outline_points(pts, n - 1).union(segment_points(a.x as int, a.y as int, b.x as int, b.y as int))
    }
}

/// A polygon of fewer than three points draws nothing; a filled one is filled
/// row by row between pairs of sorted edge crossings; otherwise its edges are
/// drawn.
pub open spec fn polygon_points(pts: Seq<Point>, filled: bool) -> Set<(int, int)> {
    if pts.len() < 3 {
        Set::empty()
    } else if filled {
        Set::new(|p: (int, int)| in_span(crossings(pts, p.1, pts.len() as int).sort_by(|a: i64, b: i64| le_i64(a, b)), p.0))
    } else {
        outline_points(pts, pts.len() as int)
    }
}

pub proof fn lemma_le_i64_total()
    ensures
        total_ordering(|a: i64, b: i64| le_i64(a, b)),
{
}

pub proof fn lemma_no_crossings(pts: Seq<Point>, y: int, n: int, min_y: int, max_y: int)
    requires
        0 <= n <= pts.len(),
        pts.len() > 0,
        forall|j: int| 0 <= j < pts.len() ==> min_y <= (#[trigger] pts[j]).y <= max_y,
        y < min_y || y >= max_y,
    ensures
        crossings(pts, y, n) == Seq::<i64>::empty(),
    decreases n,
{
    if n > 0 {
        lemma_no_crossings(pts, y, n - 1, min_y, max_y);
        let j = n % (pts.len() as int);
        assert(min_y <= pts[n - 1].y <= max_y);
        assert(min_y <= pts[j].y <= max_y);
    }
}

/// Rows outside the vertical extent of the polygon have no span.
pub proof fn lemma_no_span(pts: Seq<Point>, y: int, min_y: int, max_y: int, x: int)
    requires
        pts.len() > 0,
        forall|j: int| 0 <= j < pts.len() ==> min_y <= (#[trigger] pts[j]).y <= max_y,
        y < min_y || y >= max_y,
    ensures
        !in_span(crossings(pts, y, pts.len() as int).sort_by(|a: i64, b: i64| le_i64(a, b)), x),
{
    broadcast use vstd::seq_lib::group_to_multiset_ensures;
    lemma_no_crossings(pts, y, pts.len() as int, min_y, max_y);
    let c = crossings(pts, y, pts.len() as int);
    lemma_le_i64_total();
    c.lemma_sort_by_ensures(|a: i64, b: i64| le_i64(a, b));
    assert(c.sort_by(|a: i64, b: i64| le_i64(a, b)).to_multiset().len() == 0);
}

/// The outline of the first edges lies within the whole outline.
pub proof fn lemma_outline_grows(pts: Seq<Point>, k: int, n: int)
    requires
        0 <= k <= n,
    ensures
        outline_points(pts, k).subset_of(outline_points(pts, n)),
    decreases n - k,
{
    if k < n {
        lemma_outline_grows(pts, k + 1, n);
    }
}

/// How many outline samples an unfilled oval in a box of size `size` takes:
/// twice the sum of its semi-axes, and at least 20.
pub fn oval_outline_steps(size: Size) -> (n: u32)
    ensures
        n == oval_steps((size.width / 2) as int, (size.height / 2) as int),
{
    let rx = (size.width / 2) as u32;
    let ry = (size.height / 2) as u32;
    let s = (rx + ry) * 2;
    if s >= 20 {
        s
    } else {
        20
    }
}

/// Where edge `a`-`b` meets row `y`, for an edge that crosses it.
pub fn edge_crossing(a: Point, b: Point, y: i64) -> (x: i64)
    requires
        crosses(a, b, y as int),
    ensures
        x as int == crossing_x(a, b, y as int),
        0 <= x <= 65535,
{
    let (lo, hi) = if a.y < b.y { (a, b) } else { (b, a) };
    let d: i64 = hi.y as i64 - lo.y as i64;
    let t: i64 = y - lo.y as i64;
    let lx = lo.x as i64;
    let hx = hi.x as i64;
    proof {
        assert(0 <= t < d <= 65535);
        assert(0 <= lx * d <= 65535 * 65535 && -(65535 * 65535) <= t * (hx - lx) <= 65535 * 65535) by (nonlinear_arith)
            requires
                0 <= t < d <= 65535,
                0 <= lx <= 65535,
                0 <= hx <= 65535,
        ;
        assert(0 <= lx * d + t * (hx - lx) <= 65535 * d) by (nonlinear_arith)
            requires
                0 <= t < d <= 65535,
                0 <= lx <= 65535,
                0 <= hx <= 65535,
        ;
        assert(((lx * d + t * (hx - lx)) as int) / (d as int) <= 65535) by (nonlinear_arith)
            requires
                0 <= lx * d + t * (hx - lx) <= 65535 * d,
                0 < d,
        ;
    }
    let num = lx * d + t * (hx - lx);
    num / d
}

/// Sorts ascending by insertion.
pub fn sort_ascending(v: &Vec<i64>) -> (out: Vec<i64>)
    ensures
        out@ == v@.sort_by(|a: i64, b: i64| le_i64(a, b)),
        forall|a: int, b: int| 0 <= a < b < out@.len() ==> out@[a] <= out@[b],
{
    let mut out: Vec<i64> = Vec::new();
    let mut i: usize = 0;
    proof {
        broadcast use vstd::seq_lib::group_to_multiset_ensures;
        assert(v@.subrange(0, 0) =~= out@);
    }
    while i < v.len()
        invariant
            i <= v@.len(),
            forall|a: int, b: int| 0 <= a < b < out@.len() ==> out@[a] <= out@[b],
            out@.to_multiset() == v@.subrange(0, i as int).to_multiset(),
        decreases v@.len() - i,
    {
        let e = v[i];
        let mut j: usize = 0;
        while j < out.len() && out[j] <= e
            invariant
                j <= out@.len(),
                forall|k: int| 0 <= k < j ==> out@[k] <= e,
            decreases out@.len() - j,
        {
            j = j + 1;
        }
        let ghost before = out@;
        out.insert(j, e);
        proof {
            broadcast use vstd::seq_lib::group_to_multiset_ensures;
            assert(v@.subrange(0, i + 1) =~= v@.subrange(0, i as int).push(e));
            assert forall|a: int, b: int| 0 <= a < b < out@.len() implies out@[a] <= out@[b] by {
                if b < j {
                    assert(before[a] <= before[b]);
                } else if b == j {
                } else if a < j {
                    assert(before[a] <= before[b - 1]);
                } else if a == j {
                    assert(!(before[j as int] <= e));
                    if b - 1 > j {
                        assert(before[j as int] <= before[b - 1]);
                    }
                } else {
                    assert(before[a - 1] <= before[b - 1]);
                }
            }
        }
        i = i + 1;
    }
    proof {
        assert(v@.subrange(0, v@.len() as int) =~= v@);
        assert(sorted_by(out@, |a: i64, b: i64| le_i64(a, b)));
        lemma_le_i64_total();
        v@.lemma_sort_by_ensures(|a: i64, b: i64| le_i64(a, b));
        lemma_sorted_unique(out@, v@.sort_by(|a: i64, b: i64| le_i64(a, b)), |a: i64, b: i64| le_i64(a, b));
    }
    out
}

/// Offsets of a prefix give some of the points of the whole.
pub proof fn lemma_offset_points_prefix(cx: int, cy: int, offs: Seq<(i32, i32)>, n: int)
    requires
        0 <= n <= offs.len(),
    ensures
        offset_points(cx, cy, offs.subrange(0, n)).subset_of(offset_points(cx, cy, offs)),
    decreases offs.len() - n,
{
    if n < offs.len() {
        lemma_offset_points_prefix(cx, cy, offs, n + 1);
        assert(offs.subrange(0, n + 1).drop_last() =~= offs.subrange(0, n));
    } else {
        assert(offs.subrange(0, n) =~= offs);
    }
}

/// The outline of a circle is symmetric about the vertical and the horizontal
/// line through its centre.
pub proof fn lemma_circle_outline_symmetric(position: Point, size: Size)
    ensures
        ({
            let (cx, cy) = circle_center(position, size);
            let pts = circle_points(position, size, false);
            forall|p: (int, int)| #[trigger] pts.contains(p) ==> pts.contains((2 * cx - p.0, p.1)) && pts.contains((p.0, 2 * cy - p.1))
        }),
{
    let (cx, cy) = circle_center(position, size);
    let r = circle_radius(size);
    lemma_midpoint_symmetric(cx, cy, 0, r, 1 - r);
}

proof fn lemma_midpoint_symmetric(cx: int, cy: int, x: int, y: int, d: int)
    ensures
        forall|p: (int, int)| #[trigger] midpoint_walk(cx, cy, x, y, d).contains(p) ==> midpoint_walk(cx, cy, x, y, d).contains(
            (2 * cx - p.0, p.1),
        ) && midpoint_walk(cx, cy, x, y, d).contains((p.0, 2 * cy - p.1)),
    decreases y + 2 - x,
{
    if x <= y {
        let nd = if d < 0 { d + 2 * x + 3 } else { d + 2 * (x - y) + 5 };
        let ny = if d < 0 { y } else { y - 1 };
        lemma_midpoint_symmetric(cx, cy, x + 1, ny, nd);
        let o = octants(cx, cy, x, y);
        let rest = midpoint_walk(cx, cy, x + 1, ny, nd);
        let all = midpoint_walk(cx, cy, x, y, d);
        assert(all == o.union(rest));
        assert forall|p: (int, int)| #[trigger] all.contains(p) implies all.contains((2 * cx - p.0, p.1)) && all.contains((p.0, 2 * cy - p.1)) by {
            if o.contains(p) {
                assert(o.contains((2 * cx - p.0, p.1)) && o.contains((p.0, 2 * cy - p.1)));
            } else {
                assert(rest.contains(p));
            }
        }
    }
}

/// `p` comes no later than `q` row by row: an earlier row, or the same row
/// and no further right.
pub open spec fn lex_le(p: (int, int), q: (int, int)) -> bool {
    p.1 < q.1 || (p.1 == q.1 && p.0 <= q.0)
}

/// The point of `pts` inside a `w` by `h` image that comes first row by row
/// (the order in which filled shapes and rectangles are plotted); none where
/// no point is inside.
pub open spec fn lex_first(pts: Set<(int, int)>, w: int, h: int) -> Option<(int, int)> {
    if exists|p: (int, int)|
        pts.contains(p) && in_bounds(w, h, p.0, p.1) && forall|q: (int, int)|
            #[trigger] pts.contains(q) && in_bounds(w, h, q.0, q.1) ==> lex_le(p, q) {
        Some(
            choose|p: (int, int)|
                pts.contains(p) && in_bounds(w, h, p.0, p.1) && forall|q: (int, int)|
                    #[trigger] pts.contains(q) && in_bounds(w, h, q.0, q.1) ==> lex_le(p, q),
        )
    } else {
        None
    }
}

pub proof fn lemma_lex_first_is(pts: Set<(int, int)>, w: int, h: int, p: (int, int))
    requires
        pts.contains(p),
        in_bounds(w, h, p.0, p.1),
        forall|q: (int, int)| #[trigger] pts.contains(q) && in_bounds(w, h, q.0, q.1) ==> lex_le(p, q),
    ensures
        lex_first(pts, w, h) == Some(p),
{
    let c = choose|c: (int, int)|
        pts.contains(c) && in_bounds(w, h, c.0, c.1) && forall|q: (int, int)|
            #[trigger] pts.contains(q) && in_bounds(w, h, q.0, q.1) ==> lex_le(c, q);
    assert(lex_le(c, p) && lex_le(p, c));
}

pub proof fn lemma_lex_first_none(pts: Set<(int, int)>, w: int, h: int)
    requires
        forall|q: (int, int)| !(#[trigger] pts.contains(q) && in_bounds(w, h, q.0, q.1)),
    ensures
        lex_first(pts, w, h) is None,
{
}

/// The first point of `s` inside a `w` by `h` image.
pub open spec fn first_in(s: Seq<(int, int)>, w: int, h: int) -> Option<(int, int)>
    decreases s.len(),
{
    if s.len() == 0 {
        None
    } else if in_bounds(w, h, s[0].0, s[0].1) {
        Some(s[0])
    } else {
        first_in(s.drop_first(), w, h)
    }
}

/// `a` where it names a point, else `b`.
pub open spec fn or_else(a: Option<(int, int)>, b: Option<(int, int)>) -> Option<(int, int)> {
    if a is Some {
        a
    } else {
        b
    }
}

/// The points `center + o` for the offsets of `offs`, in order.
pub open spec fn centered(cx: int, cy: int, offs: Seq<(i32, i32)>) -> Seq<(int, int)> {
    Seq::new(offs.len(), |i: int| (cx + offs[i].0, cy + offs[i].1))
}

/// The first point inside the image that Bresenham's walk visits.
pub open spec fn bresenham_first(
    x: int,
    y: int,
    x1: int,
    y1: int,
    dx: int,
    dy: int,
    sx: int,
    sy: int,
    err: int,
    fuel: nat,
    w: int,
    h: int,
) -> Option<(int, int)>
    decreases fuel,
{
    if in_bounds(w, h, x, y) {
        Some((x, y))
    } else if (x == x1 && y == y1) || fuel == 0 {
        None
    } else {
        let e2 = 2 * err;
        let nx = if e2 > -dy { x + sx } else { x };
        let err1 = if e2 > -dy { err - dy } else { err };
        let ny = if e2 < dx { y + sy } else { y };
        let err2 = if e2 < dx { err1 + dx } else { err1 };
        bresenham_first(nx, ny, x1, y1, dx, dy, sx, sy, err2, (fuel - 1) as nat, w, h)
    }
}

/// The first point inside the image of the line from `(x0, y0)` to `(x1, y1)`, in drawing order.
pub open spec fn segment_first(x0: int, y0: int, x1: int, y1: int, w: int, h: int) -> Option<(int, int)> {
    let dx = abs_diff(x1, x0);
    let dy = abs_diff(y1, y0);
    bresenham_first(
        x0,
        y0,
        x1,
        y1,
        dx,
        dy,
        if x0 < x1 { 1 } else { -1 },
        if y0 < y1 { 1 } else { -1 },
        dx - dy,
        (dx + dy) as nat,
        w,
        h,
    )
}

pub open spec fn line_first(p0: Point, p1: Point, w: int, h: int) -> Option<(int, int)> {
    segment_first(p0.x as int, p0.y as int, p1.x as int, p1.y as int, w, h)
}

/// The eight symmetric points of `(cx + a, cy + b)` in the order they are plotted.
pub open spec fn octant_order(cx: int, cy: int, a: int, b: int) -> Seq<(int, int)> {
    seq![
        (cx + a, cy + b),
        (cx + a, cy - b),
        (cx - a, cy + b),
        (cx - a, cy - b),
        (cx + b, cy + a),
        (cx + b, cy - a),
        (cx - b, cy + a),
        (cx - b, cy - a),
    ]
}

/// The first point inside the image that the midpoint circle walk plots.
pub open spec fn midpoint_first(cx: int, cy: int, x: int, y: int, d: int, w: int, h: int) -> Option<(int, int)>
    decreases y + 2 - x,
{
    if x > y {
        None
    } else {
        let nd = if d < 0 { d + 2 * x + 3 } else { d + 2 * (x - y) + 5 };
        let ny = if d < 0 { y } else { y - 1 };
        or_else(first_in(octant_order(cx, cy, x, y), w, h), midpoint_first(cx, cy, x + 1, ny, nd, w, h))
    }
}

pub open spec fn rect_first(position: Point, size: Size, filled: bool, w: int, h: int) -> Option<(int, int)> {
    lex_first(rect_points(position, size, filled), w, h)
}

pub open spec fn circle_first(position: Point, size: Size, filled: bool, w: int, h: int) -> Option<(int, int)> {
    let (cx, cy) = circle_center(position, size);
    let r = circle_radius(size);
    if filled {
        lex_first(circle_points(position, size, filled), w, h)
    } else {
        midpoint_first(cx, cy, 0, r, 1 - r, w, h)
    }
}

pub open spec fn oval_first(position: Point, size: Size, filled: bool, outline: Seq<(i32, i32)>, w: int, h: int) -> Option<(int, int)> {
    let (cx, cy) = circle_center(position, size);
    if filled {
        lex_first(oval_points(position, size, filled, outline), w, h)
    } else {
        first_in(centered(cx, cy, outline), w, h)
    }
}

/// A filled triangle is plotted row by row; an outline edge by edge: apex to
/// bottom-left, bottom-left to bottom-right, bottom-right to apex.
pub open spec fn triangle_first(position: Point, size: Size, filled: bool, w: int, h: int) -> Option<(int, int)> {
    let (x1, y1, x2, y2, x3, y3) = triangle_vertices(position, size);
    if filled {
        lex_first(triangle_points(position, size, filled), w, h)
    } else {
        or_else(segment_first(x1, y1, x2, y2, w, h), or_else(segment_first(x2, y2, x3, y3, w, h), segment_first(x3, y3, x1, y1, w, h)))
    }
}

/// The first visible point of the first `n` edges, drawn in turn.
pub open spec fn outline_first(pts: Seq<Point>, n: int, w: int, h: int) -> Option<(int, int)>
    decreases n,
{
    if n <= 0 {
        None
    } else {
        let (a, b) = edge(pts, n - 1);
        or_else(outline_first(pts, n - 1, w, h), segment_first(a.x as int, a.y as int, b.x as int, b.y as int, w, h))
    }
}

pub proof fn lemma_outline_first_grows(pts: Seq<Point>, k: int, n: int, w: int, h: int)
    requires
        0 <= k <= n,
        outline_first(pts, k, w, h) is Some,
    ensures
        outline_first(pts, n, w, h) == outline_first(pts, k, w, h),
    decreases n - k,
{
    if k < n {
        lemma_outline_first_grows(pts, k, n - 1, w, h);
    }
}

/// A filled polygon is plotted row by row; an outline edge by edge, the last
/// vertex joined back to the first.
pub open spec fn polygon_first(pts: Seq<Point>, filled: bool, w: int, h: int) -> Option<(int, int)> {
    if pts.len() < 3 {
        None
    } else if filled {
        lex_first(polygon_points(pts, filled), w, h)
    } else {
        outline_first(pts, pts.len() as int, w, h)
    }
}

/// A triangle outline is its three edges drawn in turn: apex to bottom-left,
/// bottom-left to bottom-right, bottom-right back to the apex.
pub proof fn lemma_triangle_outline_edges(position: Point, size: Size, apex: Point, bl: Point, br: Point, w: int, h: int)
    requires
        apex.x == position.x + size.width / 2,
        apex.y == position.y,
        bl.x == position.x,
        bl.y == position.y + span(size.height),
        br.x == position.x + span(size.width),
        br.y == bl.y,
    ensures
        triangle_points(position, size, false) == line_points(apex, bl).union(line_points(bl, br)).union(line_points(br, apex)),
        triangle_first(position, size, false, w, h) == or_else(
            line_first(apex, bl, w, h),
            or_else(line_first(bl, br, w, h), line_first(br, apex, w, h)),
        ),
{
}

} // verus!
