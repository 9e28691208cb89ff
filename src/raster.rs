//! Triangle coverage in fixed-point screen space: which pixel centers a
//! triangle covers, with their barycentric weights.
use vstd::prelude::*;
use crate::color::Color;

verus! {

/// Screen coordinates are fixed-point: one pixel is this many units.
pub const SUBPIXEL_SCALE: i32 = 256;

/// A projected vertex position, in `1 / SUBPIXEL_SCALE` pixel units.
#[derive(Clone, Copy, Debug, PartialEq, Eq, Structural)]
pub struct ScreenPoint {
    pub x: i32,
    pub y: i32,
}

/// A pixel that a triangle covers, with the barycentric weights of its center.
/// The weights are non-negative and sum to `area`, which is positive: the
/// weight of vertex `i` is `wi / area`.
#[derive(Clone, Copy, Debug, PartialEq, Eq, Structural)]
pub struct Coverage {
    pub x: usize,
    pub y: usize,
    pub w0: i128,
    pub w1: i128,
    pub w2: i128,
    pub area: i128,
}

/// Twice the signed area of the triangle `a b p`: positive when `p` lies to the
/// left of the edge from `a` to `b` (y pointing down, to its right on screen).
pub open spec fn edge(ax: int, ay: int, bx: int, by: int, px: int, py: int) -> int {
    (bx - ax) * (py - ay) - (by - ay) * (px - ax)
}

/// The fixed-point coordinate of the center of pixel column or row `p`.
pub open spec fn center(p: int) -> int {
    p * SUBPIXEL_SCALE + SUBPIXEL_SCALE / 2
}

pub open spec fn signed_area(v0: ScreenPoint, v1: ScreenPoint, v2: ScreenPoint) -> int {
    edge(v0.x as int, v0.y as int, v1.x as int, v1.y as int, v2.x as int, v2.y as int)
}

/// The three unnormalized barycentric weights of the center of pixel `(px, py)`.
pub open spec fn weights(v0: ScreenPoint, v1: ScreenPoint, v2: ScreenPoint, px: int, py: int) -> (
    int,
    int,
    int,
) {
    let cx = center(px);
    let cy = center(py);
    (
        edge(v1.x as int, v1.y as int, v2.x as int, v2.y as int, cx, cy),
        edge(v2.x as int, v2.y as int, v0.x as int, v0.y as int, cx, cy),
        edge(v0.x as int, v0.y as int, v1.x as int, v1.y as int, cx, cy),
    )
}

/// The center of pixel `(px, py)` lies in the triangle, edges included: all three
/// weights share a sign, whatever the winding. A triangle of zero area covers nothing.
pub open spec fn covers(v0: ScreenPoint, v1: ScreenPoint, v2: ScreenPoint, px: int, py: int) -> bool {
    let (e0, e1, e2) = weights(v0, v1, v2, px, py);
    signed_area(v0, v1, v2) != 0 && ((e0 >= 0 && e1 >= 0 && e2 >= 0) || (e0 <= 0 && e1 <= 0 && e2
        <= 0))
}

pub open spec fn min3(a: int, b: int, c: int) -> int {
    if a <= b && a <= c {
        a
    } else if b <= c {
        b
    } else {
        c
    }
}

pub open spec fn max3(a: int, b: int, c: int) -> int {
    if a >= b && a >= c {
        a
    } else if b >= c {
        b
    } else {
        c
    }
}

/// The first pixel of the span `[lo, hi]` of coordinates, clamped at zero.
pub open spec fn first_pixel(lo: int) -> int {
    if lo < 0 {
        0
    } else {
        lo / (SUBPIXEL_SCALE as int)
    }
}

/// The last pixel of the span `[lo, hi]` of coordinates, clamped below `size`;
/// below the first pixel when nothing of the span is on screen.
pub open spec fn last_pixel(hi: int, size: int) -> int {
    if hi < 0 {
        -1
    } else if hi / (SUBPIXEL_SCALE as int) < size - 1 {
        hi / (SUBPIXEL_SCALE as int)
    } else {
        size - 1
    }
}

/// Pixel `(px, py)` lies in the triangle's bounding box, clamped to a
/// `width` by `height` target.
pub open spec fn in_box(
    v0: ScreenPoint,
    v1: ScreenPoint,
    v2: ScreenPoint,
    width: int,
    height: int,
    px: int,
    py: int,
) -> bool {
    let xs_lo = min3(v0.x as int, v1.x as int, v2.x as int);
    let xs_hi = max3(v0.x as int, v1.x as int, v2.x as int);
    let ys_lo = min3(v0.y as int, v1.y as int, v2.y as int);
    let ys_hi = max3(v0.y as int, v1.y as int, v2.y as int);
    first_pixel(xs_lo) <= px <= last_pixel(xs_hi, width) && first_pixel(ys_lo) <= py
        <= last_pixel(ys_hi, height)
}

/// Pixel `(a.x, a.y)` comes before `(b.x, b.y)` in row-major order.
pub open spec fn before(a: Coverage, b: Coverage) -> bool {
    a.y < b.y || (a.y == b.y && a.x < b.x)
}

/// `c` is pixel `(px, py)` of the triangle, with its weights signed so that
/// they are non-negative and sum to a positive area.
pub open spec fn coverage_of(
    v0: ScreenPoint,
    v1: ScreenPoint,
    v2: ScreenPoint,
    px: int,
    py: int,
    c: Coverage,
) -> bool {
    let (e0, e1, e2) = weights(v0, v1, v2, px, py);
    let s = if signed_area(v0, v1, v2) > 0 { 1int } else { -1int };
    &&& c.x == px
    &&& c.y == py
    &&& c.w0 == s * e0
    &&& c.w1 == s * e1
    &&& c.w2 == s * e2
    &&& c.area == s * signed_area(v0, v1, v2)
}

/// The three weights of any point sum to the triangle's signed area.
pub proof fn lemma_weights_sum(v0: ScreenPoint, v1: ScreenPoint, v2: ScreenPoint, px: int, py: int)
    ensures
        weights(v0, v1, v2, px, py).0 + weights(v0, v1, v2, px, py).1 + weights(
            v0,
            v1,
            v2,
            px,
            py,
        ).2 == signed_area(v0, v1, v2),
{
    let (x0, y0, x1, y1, x2, y2) = (
        v0.x as int,
        v0.y as int,
        v1.x as int,
        v1.y as int,
        v2.x as int,
        v2.y as int,
    );
    let cx = center(px);
    let cy = center(py);
    lemma_edge_sum(x0, y0, x1, y1, x2, y2, cx, cy);
}

proof fn lemma_edge_expand(ax: int, ay: int, bx: int, by: int, px: int, py: int)
    ensures
        edge(ax, ay, bx, by, px, py) == bx * py - bx * ay - ax * py - by * px + by * ax + ay * px,
{
    assert((bx - ax) * (py - ay) == bx * py - bx * ay - ax * py + ax * ay) by (nonlinear_arith);
    assert((by - ay) * (px - ax) == by * px - by * ax - ay * px + ay * ax) by (nonlinear_arith);
    assert(ax * ay == ay * ax) by (nonlinear_arith);
}

proof fn lemma_edge_sum(x0: int, y0: int, x1: int, y1: int, x2: int, y2: int, cx: int, cy: int)
    ensures
        edge(x1, y1, x2, y2, cx, cy) + edge(x2, y2, x0, y0, cx, cy) + edge(x0, y0, x1, y1, cx, cy)
            == edge(x0, y0, x1, y1, x2, y2),
{
    lemma_edge_expand(x1, y1, x2, y2, cx, cy);
    lemma_edge_expand(x2, y2, x0, y0, cx, cy);
    lemma_edge_expand(x0, y0, x1, y1, cx, cy);
    lemma_edge_expand(x0, y0, x1, y1, x2, y2);
    assert(x2 * y1 == y1 * x2 && y2 * x1 == x1 * y2 && x0 * y2 == y2 * x0 && y0 * x2 == x2 * y0
        && x1 * y0 == y0 * x1 && y1 * x0 == x0 * y1) by (nonlinear_arith);
}

/// Three collinear or coincident points cover no pixel.
pub proof fn lemma_degenerate_covers_nothing(v0: ScreenPoint, v1: ScreenPoint, v2: ScreenPoint)
    requires
        signed_area(v0, v1, v2) == 0,
    ensures
        forall|px: int, py: int| !#[trigger] covers(v0, v1, v2, px, py),
{
}

proof fn lemma_edge_relative(x1: int, y1: int, x2: int, y2: int, cx: int, cy: int)
    ensures
        edge(x1, y1, x2, y2, cx, cy) == (x1 - cx) * (y2 - cy) - (x2 - cx) * (y1 - cy),
{
    let (a1, b1, a2, b2) = (x1 - cx, y1 - cy, x2 - cx, y2 - cy);
    assert((a2 - a1) * (0 - b1) == a1 * b1 - a2 * b1) by (nonlinear_arith);
    assert((b2 - b1) * (0 - a1) == a1 * b1 - a1 * b2) by (nonlinear_arith);
}

proof fn lemma_weighted_offsets_cancel(a0: int, b0: int, a1: int, b1: int, a2: int, b2: int)
    ensures
        (a1 * b2 - a2 * b1) * a0 + (a2 * b0 - a0 * b2) * a1 + (a0 * b1 - a1 * b0) * a2 == 0,
{
    assert((a1 * b2 - a2 * b1) * a0 == a0 * a1 * b2 - a0 * a2 * b1) by (nonlinear_arith);
    assert((a2 * b0 - a0 * b2) * a1 == a1 * a2 * b0 - a0 * a1 * b2) by (nonlinear_arith);
    assert((a0 * b1 - a1 * b0) * a2 == a0 * a2 * b1 - a1 * a2 * b0) by (nonlinear_arith);
}

/// Non-negative weights with a positive sum place a zero-sum of offsets
/// `wi * ai` no lower than the smallest offset.
proof fn lemma_balance_lower(w0: int, w1: int, w2: int, a0: int, a1: int, a2: int, m: int)
    requires
        w0 >= 0,
        w1 >= 0,
        w2 >= 0,
        w0 + w1 + w2 > 0,
        w0 * a0 + w1 * a1 + w2 * a2 == 0,
        m <= a0,
        m <= a1,
        m <= a2,
    ensures
        m <= 0,
{
    assert(w0 * m <= w0 * a0) by (nonlinear_arith)
        requires w0 >= 0, m <= a0;
    assert(w1 * m <= w1 * a1) by (nonlinear_arith)
        requires w1 >= 0, m <= a1;
    assert(w2 * m <= w2 * a2) by (nonlinear_arith)
        requires w2 >= 0, m <= a2;
    assert((w0 + w1 + w2) * m <= 0) by (nonlinear_arith)
        requires w0 * m + w1 * m + w2 * m <= 0;
    assert(m <= 0) by (nonlinear_arith)
        requires (w0 + w1 + w2) * m <= 0, w0 + w1 + w2 > 0;
}

/// A covered pixel center lies between the smallest and largest vertex
/// coordinate on each axis.
proof fn lemma_center_within_vertices(v0: ScreenPoint, v1: ScreenPoint, v2: ScreenPoint, px: int, py: int)
    requires
        covers(v0, v1, v2, px, py),
    ensures
        min3(v0.x as int, v1.x as int, v2.x as int) <= center(px) <= max3(v0.x as int, v1.x as int, v2.x as int),
        min3(v0.y as int, v1.y as int, v2.y as int) <= center(py) <= max3(v0.y as int, v1.y as int, v2.y as int),
{
    let cx = center(px);
    let cy = center(py);
    let (a0, b0, a1, b1, a2, b2) = (
        v0.x - cx,
        v0.y - cy,
        v1.x - cx,
        v1.y - cy,
        v2.x - cx,
        v2.y - cy,
    );
    lemma_edge_relative(v1.x as int, v1.y as int, v2.x as int, v2.y as int, cx, cy);
    lemma_edge_relative(v2.x as int, v2.y as int, v0.x as int, v0.y as int, cx, cy);
    lemma_edge_relative(v0.x as int, v0.y as int, v1.x as int, v1.y as int, cx, cy);
    lemma_weights_sum(v0, v1, v2, px, py);
    let (e0, e1, e2) = weights(v0, v1, v2, px, py);
    assert(e0 == a1 * b2 - a2 * b1);
    assert(e1 == a2 * b0 - a0 * b2);
    assert(e2 == a0 * b1 - a1 * b0);
    lemma_weighted_offsets_cancel(a0, b0, a1, b1, a2, b2);
    lemma_weighted_offsets_cancel(b0, a0, b1, a1, b2, a2);
    assert(e0 * a0 + e1 * a1 + e2 * a2 == 0) by (nonlinear_arith)
        requires
            (a1 * b2 - a2 * b1) * a0 + (a2 * b0 - a0 * b2) * a1 + (a0 * b1 - a1 * b0) * a2 == 0,
            e0 == a1 * b2 - a2 * b1,
            e1 == a2 * b0 - a0 * b2,
            e2 == a0 * b1 - a1 * b0;
    assert(e0 * b0 + e1 * b1 + e2 * b2 == 0) by (nonlinear_arith)
        requires
            (b1 * a2 - b2 * a1) * b0 + (b2 * a0 - b0 * a2) * b1 + (b0 * a1 - b1 * a0) * b2 == 0,
            e0 == a1 * b2 - a2 * b1,
            e1 == a2 * b0 - a0 * b2,
            e2 == a0 * b1 - a1 * b0;
    let (f0, f1, f2) = if signed_area(v0, v1, v2) > 0 { (e0, e1, e2) } else { (-e0, -e1, -e2) };
    assert(f0 >= 0 && f1 >= 0 && f2 >= 0 && f0 + f1 + f2 > 0);
    assert(f0 * a0 + f1 * a1 + f2 * a2 == 0) by (nonlinear_arith)
        requires
            e0 * a0 + e1 * a1 + e2 * a2 == 0,
            (f0 == e0 && f1 == e1 && f2 == e2) || (f0 == -e0 && f1 == -e1 && f2 == -e2);
    assert(f0 * b0 + f1 * b1 + f2 * b2 == 0) by (nonlinear_arith)
        requires
            e0 * b0 + e1 * b1 + e2 * b2 == 0,
            (f0 == e0 && f1 == e1 && f2 == e2) || (f0 == -e0 && f1 == -e1 && f2 == -e2);
    lemma_balance_lower(f0, f1, f2, a0, a1, a2, min3(a0, a1, a2));
    lemma_balance_lower(f0, f1, f2, b0, b1, b2, min3(b0, b1, b2));
    assert(f0 * (-a0) + f1 * (-a1) + f2 * (-a2) == 0) by (nonlinear_arith)
        requires f0 * a0 + f1 * a1 + f2 * a2 == 0;
    assert(f0 * (-b0) + f1 * (-b1) + f2 * (-b2) == 0) by (nonlinear_arith)
        requires f0 * b0 + f1 * b1 + f2 * b2 == 0;
    lemma_balance_lower(f0, f1, f2, -a0, -a1, -a2, min3(-a0, -a1, -a2));
    lemma_balance_lower(f0, f1, f2, -b0, -b1, -b2, min3(-b0, -b1, -b2));
}

/// Every pixel of the target whose center the triangle covers lies in its
/// clamped bounding box: the box leaves out no covered pixel.
pub proof fn lemma_covered_pixels_in_box(
    v0: ScreenPoint,
    v1: ScreenPoint,
    v2: ScreenPoint,
    width: int,
    height: int,
    px: int,
    py: int,
)
    requires
        covers(v0, v1, v2, px, py),
        0 <= px < width,
        0 <= py < height,
    ensures
        in_box(v0, v1, v2, width, height, px, py),
{
    lemma_center_within_vertices(v0, v1, v2, px, py);
    let lo_x = min3(v0.x as int, v1.x as int, v2.x as int);
    let hi_x = max3(v0.x as int, v1.x as int, v2.x as int);
    let lo_y = min3(v0.y as int, v1.y as int, v2.y as int);
    let hi_y = max3(v0.y as int, v1.y as int, v2.y as int);
    assert(px * 256 + 128 >= lo_x ==> (lo_x < 0 || lo_x / 256 <= px)) by (nonlinear_arith)
        requires px >= 0;
    assert(px * 256 + 128 <= hi_x ==> (hi_x >= 0 && px <= hi_x / 256)) by (nonlinear_arith)
        requires px >= 0;
    assert(py * 256 + 128 >= lo_y ==> (lo_y < 0 || lo_y / 256 <= py)) by (nonlinear_arith)
        requires py >= 0;
    assert(py * 256 + 128 <= hi_y ==> (hi_y >= 0 && py <= hi_y / 256)) by (nonlinear_arith)
        requires py >= 0;
}

fn edge_exec(ax: i64, ay: i64, bx: i64, by: i64, px: i64, py: i64) -> (e: i128)
    requires
        -0x1_0000_0000 <= ax <= 0x1_0000_0000,
        -0x1_0000_0000 <= ay <= 0x1_0000_0000,
        -0x1_0000_0000 <= bx <= 0x1_0000_0000,
        -0x1_0000_0000 <= by <= 0x1_0000_0000,
        -0x1_0000_0000 <= px <= 0x1_0000_0000,
        -0x1_0000_0000 <= py <= 0x1_0000_0000,
    ensures
        e == edge(ax as int, ay as int, bx as int, by as int, px as int, py as int),
        -0x8_0000_0000_0000_0000 <= e <= 0x8_0000_0000_0000_0000,
{
    let dx1 = (bx - ax) as i128;
    let dy2 = (py - ay) as i128;
    let dy1 = (by - ay) as i128;
    let dx2 = (px - ax) as i128;
    proof {
        assert(-0x4_0000_0000_0000_0000 <= dx1 * dy2 <= 0x4_0000_0000_0000_0000) by (nonlinear_arith)
            requires -0x2_0000_0000 <= dx1 <= 0x2_0000_0000, -0x2_0000_0000 <= dy2 <= 0x2_0000_0000;
        assert(-0x4_0000_0000_0000_0000 <= dy1 * dx2 <= 0x4_0000_0000_0000_0000) by (nonlinear_arith)
            requires -0x2_0000_0000 <= dy1 <= 0x2_0000_0000, -0x2_0000_0000 <= dx2 <= 0x2_0000_0000;
    }
    dx1 * dy2 - dy1 * dx2
}

fn min3_exec(a: i32, b: i32, c: i32) -> (m: i32)
    ensures
        m == min3(a as int, b as int, c as int),
{
    if a <= b && a <= c {
        a
    } else if b <= c {
        b
    } else {
        c
    }
}

fn max3_exec(a: i32, b: i32, c: i32) -> (m: i32)
    ensures
        m == max3(a as int, b as int, c as int),
{
    if a >= b && a >= c {
        a
    } else if b >= c {
        b
    } else {
        c
    }
}

fn first_pixel_exec(lo: i32) -> (p: i64)
    ensures
        p == first_pixel(lo as int),
        0 <= p <= 0x80_0000,
{
    if lo < 0 {
        0
    } else {
        (lo / SUBPIXEL_SCALE) as i64
    }
}

fn last_pixel_exec(hi: i32, size: usize) -> (p: i64)
    ensures
        p == last_pixel(hi as int, size as int),
        -1 <= p <= 0x80_0000,
{
    if hi < 0 || size == 0 {
        -1
    } else {
        let q = hi / SUBPIXEL_SCALE;
        if (q as usize) < size - 1 {
            q as i64
        } else {
            (size - 1) as i64
        }
    }
}

/// Some entry of `s` is pixel `(px, py)`.
pub open spec fn has_pixel(s: Seq<Coverage>, px: int, py: int) -> bool {
    exists|i: int| 0 <= i < s.len() && #[trigger] s[i].x == px && s[i].y == py
}

proof fn lemma_has_pixel_push(s: Seq<Coverage>, c: Coverage)
    ensures
        forall|qx: int, qy: int| has_pixel(s, qx, qy) ==> #[trigger] has_pixel(s.push(c), qx, qy),
        has_pixel(s.push(c), c.x as int, c.y as int),
{
    assert forall|qx: int, qy: int| has_pixel(s, qx, qy) implies #[trigger] has_pixel(
        s.push(c),
        qx,
        qy,
    ) by {
        let i = choose|i: int| 0 <= i < s.len() && #[trigger] s[i].x == qx && s[i].y == qy;
        assert(s.push(c)[i] == s[i]);
    }
    assert(s.push(c)[s.len() as int] == c);
}

/// The pixels of a `width` by `height` target whose centers the triangle
/// `v0 v1 v2` covers, in row-major order; only its clamped bounding box is scanned.
/// Each comes with the barycentric weights of its center. A triangle of zero
/// area gives none.
pub fn rasterize_triangle(
    v0: ScreenPoint,
    v1: ScreenPoint,
    v2: ScreenPoint,
    width: usize,
    height: usize,
) -> (frags: Vec<Coverage>)
    ensures
        signed_area(v0, v1, v2) == 0 ==> frags@.len() == 0,
        forall|i: int|
            #![trigger frags@[i]]
            0 <= i < frags@.len() ==> {
                &&& in_box(v0, v1, v2, width as int, height as int, frags@[i].x as int, frags@[i].y as int)
                &&& covers(v0, v1, v2, frags@[i].x as int, frags@[i].y as int)
                &&& coverage_of(v0, v1, v2, frags@[i].x as int, frags@[i].y as int, frags@[i])
                &&& normalized(frags@[i])
                &&& frags@[i].area <= 0x8_0000_0000_0000_0000
            },
        forall|px: int, py: int|
            #![trigger covers(v0, v1, v2, px, py)]
            0 <= px < width && 0 <= py < height && covers(v0, v1, v2, px, py) ==> has_pixel(
                frags@,
                px,
                py,
            ),
        forall|i: int, j: int| 0 <= i < j < frags@.len() ==> before(#[trigger] frags@[i], #[trigger] frags@[j]),
{
    let mut frags: Vec<Coverage> = Vec::new();
    let area = edge_exec(
        v0.x as i64,
        v0.y as i64,
        v1.x as i64,
        v1.y as i64,
        v2.x as i64,
        v2.y as i64,
    );
    if area == 0 {
        return frags;
    }
    let x_lo = first_pixel_exec(min3_exec(v0.x, v1.x, v2.x));
    let x_hi = last_pixel_exec(max3_exec(v0.x, v1.x, v2.x), width);
    let y_lo = first_pixel_exec(min3_exec(v0.y, v1.y, v2.y));
    let y_hi = last_pixel_exec(max3_exec(v0.y, v1.y, v2.y), height);
    let ghost w = width as int;
    let ghost h = height as int;
    let mut py: i64 = y_lo;
    while py <= y_hi
        invariant
            area == signed_area(v0, v1, v2),
            area != 0,
            -0x8_0000_0000_0000_0000 <= area <= 0x8_0000_0000_0000_0000,
            0 <= x_lo <= 0x80_0000,
            -1 <= x_hi <= 0x80_0000,
            0 <= y_lo <= py,
            -1 <= y_hi <= 0x80_0000,
            py <= 0x80_0001,
            x_lo == first_pixel(min3(v0.x as int, v1.x as int, v2.x as int)),
            x_hi == last_pixel(max3(v0.x as int, v1.x as int, v2.x as int), w),
            y_lo == first_pixel(min3(v0.y as int, v1.y as int, v2.y as int)),
            y_hi == last_pixel(max3(v0.y as int, v1.y as int, v2.y as int), h),
            forall|i: int|
                #![trigger frags@[i]]
                0 <= i < frags@.len() ==> {
                    &&& in_box(v0, v1, v2, w, h, frags@[i].x as int, frags@[i].y as int)
                    &&& covers(v0, v1, v2, frags@[i].x as int, frags@[i].y as int)
                    &&& coverage_of(v0, v1, v2, frags@[i].x as int, frags@[i].y as int, frags@[i])
                    &&& normalized(frags@[i])
                    &&& frags@[i].area <= 0x8_0000_0000_0000_0000
                    &&& frags@[i].y < py
                },
            forall|qx: int, qy: int|
                #![trigger covers(v0, v1, v2, qx, qy)]
                in_box(v0, v1, v2, w, h, qx, qy) && covers(v0, v1, v2, qx, qy) && qy < py
                    ==> has_pixel(frags@, qx, qy),
            forall|i: int, j: int|
                0 <= i < j < frags@.len() ==> before(#[trigger] frags@[i], #[trigger] frags@[j]),
        decreases y_hi + 1 - py,
    {
        let mut px: i64 = x_lo;
        while px <= x_hi
            invariant
                area == signed_area(v0, v1, v2),
                area != 0,
                -0x8_0000_0000_0000_0000 <= area <= 0x8_0000_0000_0000_0000,
            -0x8_0000_0000_0000_0000 <= area <= 0x8_0000_0000_0000_0000,
                0 <= x_lo <= px,
                -1 <= x_hi <= 0x80_0000,
                px <= 0x80_0001,
                0 <= y_lo <= py <= y_hi,
                -1 <= y_hi <= 0x80_0000,
                x_lo == first_pixel(min3(v0.x as int, v1.x as int, v2.x as int)),
                x_hi == last_pixel(max3(v0.x as int, v1.x as int, v2.x as int), w),
                y_lo == first_pixel(min3(v0.y as int, v1.y as int, v2.y as int)),
                y_hi == last_pixel(max3(v0.y as int, v1.y as int, v2.y as int), h),
                forall|i: int|
                    #![trigger frags@[i]]
                    0 <= i < frags@.len() ==> {
                        &&& in_box(v0, v1, v2, w, h, frags@[i].x as int, frags@[i].y as int)
                        &&& covers(v0, v1, v2, frags@[i].x as int, frags@[i].y as int)
                        &&& coverage_of(v0, v1, v2, frags@[i].x as int, frags@[i].y as int, frags@[i])
                        &&& normalized(frags@[i])
                        &&& frags@[i].area <= 0x8_0000_0000_0000_0000
                        &&& (frags@[i].y < py || (frags@[i].y == py && frags@[i].x < px))
                    },
                forall|qx: int, qy: int|
                    #![trigger covers(v0, v1, v2, qx, qy)]
                    in_box(v0, v1, v2, w, h, qx, qy) && covers(v0, v1, v2, qx, qy) && (qy < py || (qy
                        == py && qx < px)) ==> has_pixel(frags@, qx, qy),
                forall|i: int, j: int|
                    0 <= i < j < frags@.len() ==> before(#[trigger] frags@[i], #[trigger] frags@[j]),
            decreases x_hi + 1 - px,
        {
            let cx = px * 256 + 128;
            let cy = py * 256 + 128;
            let e0 = edge_exec(v1.x as i64, v1.y as i64, v2.x as i64, v2.y as i64, cx, cy);
            let e1 = edge_exec(v2.x as i64, v2.y as i64, v0.x as i64, v0.y as i64, cx, cy);
            let e2 = edge_exec(v0.x as i64, v0.y as i64, v1.x as i64, v1.y as i64, cx, cy);
            assert(weights(v0, v1, v2, px as int, py as int) == (e0 as int, e1 as int, e2 as int));
            if (e0 >= 0 && e1 >= 0 && e2 >= 0) || (e0 <= 0 && e1 <= 0 && e2 <= 0) {
                proof {
                    lemma_weights_sum(v0, v1, v2, px as int, py as int);
                }
                let c = if area > 0 {
                    Coverage { x: px as usize, y: py as usize, w0: e0, w1: e1, w2: e2, area }
                } else {
                    Coverage { x: px as usize, y: py as usize, w0: -e0, w1: -e1, w2: -e2, area: -area }
                };
                assert(e0 as int + e1 as int + e2 as int == area as int);
                assert(normalized(c));
                proof {
                    lemma_has_pixel_push(frags@, c);
                }
                frags.push(c);
            }
            px = px + 1;
        }
        py = py + 1;
    }
    proof {
        assert forall|qx: int, qy: int|
            0 <= qx < width && 0 <= qy < height && covers(v0, v1, v2, qx, qy) implies #[trigger] has_pixel(
                frags@,
                qx,
                qy,
            ) by {
            lemma_covered_pixels_in_box(v0, v1, v2, width as int, height as int, qx, qy);
        }
    }
    frags
}

/// The weights of `c` are non-negative and sum to its positive area, as
/// `rasterize_triangle` gives them.
pub open spec fn normalized(c: Coverage) -> bool {
    c.w0 >= 0 && c.w1 >= 0 && c.w2 >= 0 && c.area > 0 && c.w0 + c.w1 + c.w2 == c.area
}

/// One channel of the weighted average of three, truncated.
pub open spec fn mix_channel(c: Coverage, a: int, b: int, d: int) -> int {
    (c.w0 * a + c.w1 * b + c.w2 * d) / (c.area as int)
}

fn mix_channel_exec(c: &Coverage, a: u8, b: u8, d: u8) -> (r: u8)
    requires
        normalized(*c),
        c.area <= 0x8_0000_0000_0000_0000,
    ensures
        r as int == mix_channel(*c, a as int, b as int, d as int),
{
    proof {
        assert(c.w0 * a <= c.w0 * 255) by (nonlinear_arith)
            requires c.w0 >= 0, a <= 255;
        assert(c.w1 * b <= c.w1 * 255) by (nonlinear_arith)
            requires c.w1 >= 0, b <= 255;
        assert(c.w2 * d <= c.w2 * 255) by (nonlinear_arith)
            requires c.w2 >= 0, d <= 255;
        assert(c.w0 * a >= 0 && c.w1 * b >= 0 && c.w2 * d >= 0) by (nonlinear_arith)
            requires c.w0 >= 0, c.w1 >= 0, c.w2 >= 0, a >= 0, b >= 0, d >= 0;
        assert(c.w0 * 255 + c.w1 * 255 + c.w2 * 255 == c.area * 255) by (nonlinear_arith)
            requires c.w0 + c.w1 + c.w2 == c.area;
    }
    let sum = c.w0 * (a as i128) + c.w1 * (b as i128) + c.w2 * (d as i128);
    proof {
        assert(sum / c.area <= 255) by (nonlinear_arith)
            requires 0 <= sum <= c.area * 255, c.area > 0;
        assert(sum / c.area >= 0) by (nonlinear_arith)
            requires 0 <= sum, c.area > 0;
    }
    (sum / c.area) as u8
}

/// The base color of a covered pixel: the three vertex colors averaged by its
/// weights, channel by channel, truncated.
pub fn interpolate_color(c: &Coverage, c0: Color, c1: Color, c2: Color) -> (r: Color)
    requires
        normalized(*c),
        c.area <= 0x8_0000_0000_0000_0000,
    ensures
        r.r as int == mix_channel(*c, c0.r as int, c1.r as int, c2.r as int),
        r.g as int == mix_channel(*c, c0.g as int, c1.g as int, c2.g as int),
        r.b as int == mix_channel(*c, c0.b as int, c1.b as int, c2.b as int),
{
    Color {
        r: mix_channel_exec(c, c0.r, c1.r, c2.r),
        g: mix_channel_exec(c, c0.g, c1.g, c2.g),
        b: mix_channel_exec(c, c0.b, c1.b, c2.b),
    }
}

} // verus!
