//! Triangles in screen space: outlines built from three segments, and solid
//! fills decided by edge functions.

use vstd::prelude::*;
use crate::buffer::{col_of, lemma_index_in_grid, row_of, PixelBuffer};
use crate::line::{lemma_line_reversed, make_line, on_line};

verus! {

/// Twice the signed area of the triangle `a`, `b`, `p`: its sign tells on
/// which side of the directed line from `a` to `b` the point `p` lies, and it
/// is zero exactly when the three are collinear.
pub open spec fn edge(ax: int, ay: int, bx: int, by: int, px: int, py: int) -> int {
    (px - ax) * (by - ay) - (py - ay) * (bx - ax)
}

/// Whether the solid triangle contains the pixel `(x, y)`: the triangle has a
/// non-zero area, and none of the three edge values at the pixel has the sign
/// opposite to that area. Pixels exactly on an edge are inside.
pub open spec fn covers(
    x0: int,
    y0: int,
    x1: int,
    y1: int,
    x2: int,
    y2: int,
    x: int,
    y: int,
) -> bool {
    let area = edge(x0, y0, x1, y1, x2, y2);
    let w0 = edge(x1, y1, x2, y2, x, y);
    let w1 = edge(x2, y2, x0, y0, x, y);
    let w2 = edge(x0, y0, x1, y1, x, y);
    (area > 0 && w0 >= 0 && w1 >= 0 && w2 >= 0) || (area < 0 && w0 <= 0 && w1 <= 0 && w2 <= 0)
}

/// The grid `s` after the solid triangle has been painted on it in `color`.
pub open spec fn fill_image(
    s: Seq<u32>,
    w: int,
    x0: int,
    y0: int,
    x1: int,
    y1: int,
    x2: int,
    y2: int,
    color: u32,
) -> Seq<u32> {
    Seq::new(
        s.len(),
        |k: int|
            if covers(x0, y0, x1, y1, x2, y2, col_of(k, w), row_of(k, w)) {
                color
            } else {
                s[k]
            },
    )
}

/// Whether the outline of the triangle passes through the pixel `(x, y)`.
pub open spec fn on_outline(
    x0: int,
    y0: int,
    x1: int,
    y1: int,
    x2: int,
    y2: int,
    x: int,
    y: int,
) -> bool {
    on_line(x0, y0, x2, y2, x, y) || on_line(x1, y1, x2, y2, x, y) || on_line(x1, y1, x0, y0, x, y)
}

/// The grid `s` after the outline of the triangle has been drawn on it in
/// `color`.
pub open spec fn outline_image(
    s: Seq<u32>,
    w: int,
    x0: int,
    y0: int,
    x1: int,
    y1: int,
    x2: int,
    y2: int,
    color: u32,
) -> Seq<u32> {
    Seq::new(
        s.len(),
        |k: int|
            if on_outline(x0, y0, x1, y1, x2, y2, col_of(k, w), row_of(k, w)) {
                color
            } else {
                s[k]
            },
    )
}

pub open spec fn min3(a: int, b: int, c: int) -> int {
    if a <= b && a <= c {
        a
    } else if b <= c {
        b
    } else {
        c
    }
}

pub open spec fn max3(a: int, b: int, c: int) -> int {
    if a >= b && a >= c {
        a
    } else if b >= c {
        b
    } else {
        c
    }
}

/// The outline of a triangle covers the same pixels whichever vertex is
/// listed first and whichever way round the others follow.
pub proof fn lemma_outline_vertex_order(
    x0: int,
    y0: int,
    x1: int,
    y1: int,
    x2: int,
    y2: int,
    x: int,
    y: int,
)
    ensures
        on_outline(x0, y0, x1, y1, x2, y2, x, y) == on_outline(x1, y1, x2, y2, x0, y0, x, y),
        on_outline(x0, y0, x1, y1, x2, y2, x, y) == on_outline(x0, y0, x2, y2, x1, y1, x, y),
{
    lemma_line_reversed(x0, y0, x1, y1, x, y);
    lemma_line_reversed(x1, y1, x2, y2, x, y);
    lemma_line_reversed(x2, y2, x0, y0, x, y);
}

/// Swapping the endpoints of an edge negates its edge function.
pub proof fn lemma_edge_reversed(ax: int, ay: int, bx: int, by: int, px: int, py: int)
    ensures
        edge(bx, by, ax, ay, px, py) == -edge(ax, ay, bx, by, px, py),
{
    assert(edge(bx, by, ax, ay, px, py) == -edge(ax, ay, bx, by, px, py)) by (nonlinear_arith);
}

/// Exchanging the apex with an endpoint negates the edge function as well.
pub proof fn lemma_edge_apex_swapped(ax: int, ay: int, bx: int, by: int, px: int, py: int)
    ensures
        edge(ax, ay, px, py, bx, by) == -edge(ax, ay, bx, by, px, py),
{
    assert(edge(ax, ay, px, py, bx, by) == -edge(ax, ay, bx, by, px, py)) by (nonlinear_arith);
}

/// Moving each point of an edge function one place round (the apex becomes
/// the start of the edge) leaves its value unchanged.
pub proof fn lemma_edge_cycled(ax: int, ay: int, bx: int, by: int, px: int, py: int)
    ensures
        edge(bx, by, px, py, ax, ay) == edge(ax, ay, bx, by, px, py),
{
    assert(edge(bx, by, px, py, ax, ay) == edge(ax, ay, bx, by, px, py)) by (nonlinear_arith);
}

/// A solid triangle with area covers its own three vertices.
pub proof fn lemma_vertices_covered(x0: int, y0: int, x1: int, y1: int, x2: int, y2: int)
    requires
        edge(x0, y0, x1, y1, x2, y2) != 0,
    ensures
        covers(x0, y0, x1, y1, x2, y2, x0, y0),
        covers(x0, y0, x1, y1, x2, y2, x1, y1),
        covers(x0, y0, x1, y1, x2, y2, x2, y2),
{
    lemma_edge_cycled(x0, y0, x1, y1, x2, y2);
    lemma_edge_cycled(x1, y1, x2, y2, x0, y0);
    assert(edge(x2, y2, x0, y0, x0, y0) == 0) by (nonlinear_arith);
    assert(edge(x0, y0, x1, y1, x0, y0) == 0) by (nonlinear_arith);
    assert(edge(x1, y1, x2, y2, x1, y1) == 0) by (nonlinear_arith);
    assert(edge(x0, y0, x1, y1, x1, y1) == 0) by (nonlinear_arith);
    assert(edge(x1, y1, x2, y2, x2, y2) == 0) by (nonlinear_arith);
    assert(edge(x2, y2, x0, y0, x2, y2) == 0) by (nonlinear_arith);
}

/// A solid triangle covers the same pixels whichever way round its vertices
/// are listed.
pub proof fn lemma_covers_winding_invariant(
    x0: int,
    y0: int,
    x1: int,
    y1: int,
    x2: int,
    y2: int,
    x: int,
    y: int,
)
    ensures
        covers(x0, y0, x1, y1, x2, y2, x, y) == covers(x0, y0, x2, y2, x1, y1, x, y),
{
    lemma_edge_apex_swapped(x0, y0, x1, y1, x2, y2);
    lemma_edge_reversed(x1, y1, x2, y2, x, y);
    lemma_edge_reversed(x2, y2, x0, y0, x, y);
    lemma_edge_reversed(x0, y0, x1, y1, x, y);
}

/// Filling a triangle and filling the same triangle with its winding
/// reversed leave identical buffers.
pub proof fn lemma_fill_winding_invariant(
    s: Seq<u32>,
    w: int,
    x0: int,
    y0: int,
    x1: int,
    y1: int,
    x2: int,
    y2: int,
    color: u32,
)
    ensures
        fill_image(s, w, x0, y0, x1, y1, x2, y2, color) == fill_image(
            s,
            w,
            x0,
            y0,
            x2,
            y2,
            x1,
            y1,
            color,
        ),
{
    assert forall|k: int| 0 <= k < s.len() implies covers(
        x0,
        y0,
        x1,
        y1,
        x2,
        y2,
        col_of(k, w),
        row_of(k, w),
    ) == covers(x0, y0, x2, y2, x1, y1, col_of(k, w), row_of(k, w)) by {
        lemma_covers_winding_invariant(x0, y0, x1, y1, x2, y2, col_of(k, w), row_of(k, w));
    }
    assert(fill_image(s, w, x0, y0, x1, y1, x2, y2, color) =~= fill_image(
        s,
        w,
        x0,
        y0,
        x2,
        y2,
        x1,
        y1,
        color,
    ));
}

/// The three edge values of a triangle, written over the vertices' offsets
/// `(u, v)` from the tested point, add up to the triangle's doubled area,
/// and weighting the offsets by them gives zero along either axis.
proof fn lemma_edge_values_balance(u0: int, u1: int, u2: int, v0: int, v1: int, v2: int)
    ensures
        (u2 - u0) * (v1 - v0) - (v2 - v0) * (u1 - u0) == (u2 * v1 - u1 * v2) + (u0 * v2 - u2 * v0)
            + (u1 * v0 - u0 * v1),
        u0 * (u2 * v1 - u1 * v2) + u1 * (u0 * v2 - u2 * v0) + u2 * (u1 * v0 - u0 * v1) == 0,
        v0 * (u2 * v1 - u1 * v2) + v1 * (u0 * v2 - u2 * v0) + v2 * (u1 * v0 - u0 * v1) == 0,
{
    assert((u2 - u0) * (v1 - v0) == u2 * v1 - u2 * v0 - u0 * v1 + u0 * v0) by (nonlinear_arith);
    assert((v2 - v0) * (u1 - u0) == u1 * v2 - u0 * v2 - u1 * v0 + u0 * v0) by (nonlinear_arith);
    let a = u0 * u1;
    let b = u0 * u2;
    let c = u1 * u2;
    assert(u0 * (u2 * v1 - u1 * v2) == b * v1 - a * v2) by (nonlinear_arith)
        requires
            a == u0 * u1,
            b == u0 * u2,
    ;
    assert(u1 * (u0 * v2 - u2 * v0) == a * v2 - c * v0) by (nonlinear_arith)
        requires
            a == u0 * u1,
            c == u1 * u2,
    ;
    assert(u2 * (u1 * v0 - u0 * v1) == c * v0 - b * v1) by (nonlinear_arith)
        requires
            b == u0 * u2,
            c == u1 * u2,
    ;
    let d = v0 * v1;
    let e = v0 * v2;
    let f = v1 * v2;
    assert(v0 * (u2 * v1 - u1 * v2) == d * u2 - e * u1) by (nonlinear_arith)
        requires
            d == v0 * v1,
            e == v0 * v2,
    ;
    assert(v1 * (u0 * v2 - u2 * v0) == f * u0 - d * u2) by (nonlinear_arith)
        requires
            d == v0 * v1,
            f == v1 * v2,
    ;
    assert(v2 * (u1 * v0 - u0 * v1) == e * u1 - f * u0) by (nonlinear_arith)
        requires
            e == v0 * v2,
            f == v1 * v2,
    ;
}

/// When weights of one sign, not all zero, balance the offsets of three
/// values from `p`, then `p` lies between the least and the greatest of them.
proof fn lemma_balance_point_between(w0: int, w1: int, w2: int, a0: int, a1: int, a2: int, p: int)
    requires
        (a0 - p) * w0 + (a1 - p) * w1 + (a2 - p) * w2 == 0,
        (w0 + w1 + w2 > 0 && w0 >= 0 && w1 >= 0 && w2 >= 0) || (w0 + w1 + w2 < 0 && w0 <= 0 && w1
            <= 0 && w2 <= 0),
    ensures
        min3(a0, a1, a2) <= p <= max3(a0, a1, a2),
{
    let t0 = (a0 - p) * w0;
    let t1 = (a1 - p) * w1;
    let t2 = (a2 - p) * w2;
    if p < min3(a0, a1, a2) {
        assert((w0 >= 0 ==> t0 >= 0) && (w0 > 0 ==> t0 > 0) && (w0 <= 0 ==> t0 <= 0) && (w0 < 0
            ==> t0 < 0)) by (nonlinear_arith)
            requires
                t0 == (a0 - p) * w0,
                a0 - p > 0,
        ;
        assert((w1 >= 0 ==> t1 >= 0) && (w1 > 0 ==> t1 > 0) && (w1 <= 0 ==> t1 <= 0) && (w1 < 0
            ==> t1 < 0)) by (nonlinear_arith)
            requires
                t1 == (a1 - p) * w1,
                a1 - p > 0,
        ;
        assert((w2 >= 0 ==> t2 >= 0) && (w2 > 0 ==> t2 > 0) && (w2 <= 0 ==> t2 <= 0) && (w2 < 0
            ==> t2 < 0)) by (nonlinear_arith)
            requires
                t2 == (a2 - p) * w2,
                a2 - p > 0,
        ;
        assert(false);
    }
    if p > max3(a0, a1, a2) {
        assert((w0 >= 0 ==> t0 <= 0) && (w0 > 0 ==> t0 < 0) && (w0 <= 0 ==> t0 >= 0) && (w0 < 0
            ==> t0 > 0)) by (nonlinear_arith)
            requires
                t0 == (a0 - p) * w0,
                a0 - p < 0,
        ;
        assert((w1 >= 0 ==> t1 <= 0) && (w1 > 0 ==> t1 < 0) && (w1 <= 0 ==> t1 >= 0) && (w1 < 0
            ==> t1 > 0)) by (nonlinear_arith)
            requires
                t1 == (a1 - p) * w1,
                a1 - p < 0,
        ;
        assert((w2 >= 0 ==> t2 <= 0) && (w2 > 0 ==> t2 < 0) && (w2 <= 0 ==> t2 >= 0) && (w2 < 0
            ==> t2 > 0)) by (nonlinear_arith)
            requires
                t2 == (a2 - p) * w2,
                a2 - p < 0,
        ;
        assert(false);
    }
}

/// The edge function of `a`, `b` at `p`, written over the offsets of `a` and
/// `b` from `p`.
proof fn lemma_edge_from_offsets(ax: int, ay: int, bx: int, by: int, px: int, py: int)
    ensures
        edge(ax, ay, bx, by, px, py) == (bx - px) * (ay - py) - (ax - px) * (by - py),
{
    assert((px - ax) * (by - ay) - (py - ay) * (bx - ax) == (bx - px) * (ay - py) - (ax - px) * (by
        - py)) by (nonlinear_arith);
}

/// Every pixel a solid triangle covers lies inside the bounding box of its
/// vertices.
pub proof fn lemma_covered_in_box(
    x0: int,
    y0: int,
    x1: int,
    y1: int,
    x2: int,
    y2: int,
    x: int,
    y: int,
)
    requires
        covers(x0, y0, x1, y1, x2, y2, x, y),
    ensures
        min3(x0, x1, x2) <= x <= max3(x0, x1, x2),
        min3(y0, y1, y2) <= y <= max3(y0, y1, y2),
{
    let u0 = x0 - x;
    let u1 = x1 - x;
    let u2 = x2 - x;
    let v0 = y0 - y;
    let v1 = y1 - y;
    let v2 = y2 - y;
    let w0 = u2 * v1 - u1 * v2;
    let w1 = u0 * v2 - u2 * v0;
    let w2 = u1 * v0 - u0 * v1;
    lemma_edge_from_offsets(x1, y1, x2, y2, x, y);
    lemma_edge_from_offsets(x2, y2, x0, y0, x, y);
    lemma_edge_from_offsets(x0, y0, x1, y1, x, y);
    assert(edge(x1, y1, x2, y2, x, y) == w0);
    assert(edge(x2, y2, x0, y0, x, y) == w1);
    assert(edge(x0, y0, x1, y1, x, y) == w2);
    lemma_edge_values_balance(u0, u1, u2, v0, v1, v2);
    assert(u2 - u0 == x2 - x0 && v1 - v0 == y1 - y0 && v2 - v0 == y2 - y0 && u1 - u0 == x1 - x0);
    assert(edge(x0, y0, x1, y1, x2, y2) == (u2 - u0) * (v1 - v0) - (v2 - v0) * (u1 - u0));
    assert(edge(x0, y0, x1, y1, x2, y2) == w0 + w1 + w2);
    assert((x0 - x) * w0 + (x1 - x) * w1 + (x2 - x) * w2 == 0);
    assert((y0 - y) * w0 + (y1 - y) * w1 + (y2 - y) * w2 == 0);
    lemma_balance_point_between(w0, w1, w2, x0, x1, x2, x);
    lemma_balance_point_between(w0, w1, w2, y0, y1, y2, y);
}

/// Evaluates the edge function of the directed line from `(ax, ay)` to
/// `(bx, by)` at the point `(px, py)`.
pub fn edge_function(ax: i32, ay: i32, bx: i32, by: i32, px: i32, py: i32) -> (r: i128)
    ensures
        r == edge(ax as int, ay as int, bx as int, by as int, px as int, py as int),
{
    let pxa: i128 = (px as i128) - (ax as i128);
    let bya: i128 = (by as i128) - (ay as i128);
    let pya: i128 = (py as i128) - (ay as i128);
    let bxa: i128 = (bx as i128) - (ax as i128);
    assert(-0x1_0000_0000_0000_0000 <= pxa * bya <= 0x1_0000_0000_0000_0000) by (nonlinear_arith)
        requires
            -0x1_0000_0000 <= pxa <= 0x1_0000_0000,
            -0x1_0000_0000 <= bya <= 0x1_0000_0000,
    ;
    assert(-0x1_0000_0000_0000_0000 <= pya * bxa <= 0x1_0000_0000_0000_0000) by (nonlinear_arith)
        requires
            -0x1_0000_0000 <= pya <= 0x1_0000_0000,
            -0x1_0000_0000 <= bxa <= 0x1_0000_0000,
    ;
    pxa * bya - pya * bxa
}

fn least_of(a: i32, b: i32, c: i32) -> (r: i32)
    ensures
        r == min3(a as int, b as int, c as int),
{
    if a <= b && a <= c {
        a
    } else if b <= c {
        b
    } else {
        c
    }
}

fn greatest_of(a: i32, b: i32, c: i32) -> (r: i32)
    ensures
        r == max3(a as int, b as int, c as int),
{
    if a >= b && a >= c {
        a
    } else if b >= c {
        b
    } else {
        c
    }
}

/// The last index of a dimension of `n` pixels that a 32-bit coordinate can
/// still reach.
fn last_reachable(n: usize) -> (r: i64)
    requires
        n > 0,
    ensures
        r == if n - 1 <= i32::MAX {
            n - 1
        } else {
            i32::MAX as int
        },
{
    if n - 1 <= i32::MAX as usize {
        (n - 1) as i64
    } else {
        i32::MAX as i64
    }
}

/// Whether the scan over the clipped box has already passed `(c, r)` when it
/// stands at column `x` of row `y`.
spec fn scanned(
    min_x: int,
    max_x: int,
    min_y: int,
    max_y: int,
    x: int,
    y: int,
    c: int,
    r: int,
) -> bool {
    min_x <= c <= max_x && min_y <= r <= max_y && (r < y || (r == y && c < x))
}

/// Paints the solid triangle with the given vertices in `color`.
///
/// A pixel is painted when it lies inside the buffer and the triangle covers
/// it; pixels on the triangle's boundary count as covered. Either winding
/// paints the same pixels, and a triangle without area paints none.
pub fn fill_triangle(
    buf: &mut PixelBuffer,
    x0: i32,
    y0: i32,
    x1: i32,
    y1: i32,
    x2: i32,
    y2: i32,
    color: u32,
)
    requires
        old(buf).wf(),
    ensures
        final(buf).wf(),
        final(buf).width() == old(buf).width(),
        final(buf).height() == old(buf).height(),
        final(buf)@ == fill_image(
            old(buf)@,
            old(buf).width() as int,
            x0 as int,
            y0 as int,
            x1 as int,
            y1 as int,
            x2 as int,
            y2 as int,
            color,
        ),
{
    let ghost w = buf.width() as int;
    let ghost h = buf.height() as int;
    let ghost goal = fill_image(
        buf@,
        w,
        x0 as int,
        y0 as int,
        x1 as int,
        y1 as int,
        x2 as int,
        y2 as int,
        color,
    );
    let area = edge_function(x0, y0, x1, y1, x2, y2);
    if area == 0 || buf.width() == 0 || buf.height() == 0 {
        assert(buf@ =~= goal);
        return ;
    }
    let lo_x = least_of(x0, x1, x2);
    let lo_y = least_of(y0, y1, y2);
    let hi_x = greatest_of(x0, x1, x2);
    let hi_y = greatest_of(y0, y1, y2);
    let last_x = last_reachable(buf.width());
    let last_y = last_reachable(buf.height());
    let min_x: i64 = if lo_x < 0 {
        0
    } else {
        lo_x as i64
    };
    let min_y: i64 = if lo_y < 0 {
        0
    } else {
        lo_y as i64
    };
    let max_x: i64 = if (hi_x as i64) < last_x {
        hi_x as i64
    } else {
        last_x
    };
    let max_y: i64 = if (hi_y as i64) < last_y {
        hi_y as i64
    } else {
        last_y
    };
    proof {
        // Within the buffer, the clipped box holds every covered pixel.
        assert forall|k: int| 0 <= k < buf@.len() && covers(
            x0 as int,
            y0 as int,
            x1 as int,
            y1 as int,
            x2 as int,
            y2 as int,
            col_of(k, w),
            row_of(k, w),
        ) implies min_x <= col_of(k, w) <= max_x && min_y <= row_of(k, w) <= max_y by {
            lemma_index_in_grid(w, h, k);
            lemma_covered_in_box(
                x0 as int,
                y0 as int,
                x1 as int,
                y1 as int,
                x2 as int,
                y2 as int,
                col_of(k, w),
                row_of(k, w),
            );
        }
    }
    if min_x > max_x || min_y > max_y {
        assert(buf@ =~= goal);
        return ;
    }
    let mut y: i64 = min_y;
    while y <= max_y
        invariant
            0 <= min_x <= max_x <= i32::MAX,
            0 <= min_y <= y <= max_y + 1,
            max_y <= i32::MAX,
            area == edge(x0 as int, y0 as int, x1 as int, y1 as int, x2 as int, y2 as int),
            area != 0,
            w == old(buf).width(),
            buf.wf(),
            buf.width() == old(buf).width(),
            buf.height() == old(buf).height(),
            buf@.len() == old(buf)@.len(),
            forall|k: int|
                0 <= k < buf@.len() ==> #[trigger] buf@[k] == if covers(
                    x0 as int,
                    y0 as int,
                    x1 as int,
                    y1 as int,
                    x2 as int,
                    y2 as int,
                    col_of(k, w),
                    row_of(k, w),
                ) && scanned(
                    min_x as int,
                    max_x as int,
                    min_y as int,
                    max_y as int,
                    min_x as int,
                    y as int,
                    col_of(k, w),
                    row_of(k, w),
                ) {
                    color
                } else {
                    old(buf)@[k]
                },
        decreases max_y + 1 - y,
    {
        let mut x: i64 = min_x;
        while x <= max_x
            invariant
                0 <= min_x <= x <= max_x + 1,
                max_x <= i32::MAX,
                0 <= min_y <= y <= max_y <= i32::MAX,
                area == edge(x0 as int, y0 as int, x1 as int, y1 as int, x2 as int, y2 as int),
                area != 0,
                w == old(buf).width(),
                buf.wf(),
                buf.width() == old(buf).width(),
                buf.height() == old(buf).height(),
                buf@.len() == old(buf)@.len(),
                forall|k: int|
                    0 <= k < buf@.len() ==> #[trigger] buf@[k] == if covers(
                        x0 as int,
                        y0 as int,
                        x1 as int,
                        y1 as int,
                        x2 as int,
                        y2 as int,
                        col_of(k, w),
                        row_of(k, w),
                    ) && scanned(
                        min_x as int,
                        max_x as int,
                        min_y as int,
                        max_y as int,
                        x as int,
                        y as int,
                        col_of(k, w),
                        row_of(k, w),
                    ) {
                        color
                    } else {
                        old(buf)@[k]
                    },
            decreases max_x + 1 - x,
        {
            let w0 = edge_function(x1, y1, x2, y2, x as i32, y as i32);
            let w1 = edge_function(x2, y2, x0, y0, x as i32, y as i32);
            let w2 = edge_function(x0, y0, x1, y1, x as i32, y as i32);
            if (area > 0 && w0 >= 0 && w1 >= 0 && w2 >= 0) || (area < 0 && w0 <= 0 && w1 <= 0 && w2
                <= 0) {
                buf.put_pixel(x, y, color);
            }
            x += 1;
        }
        y += 1;
    }
    assert(buf@ =~= goal);
}

/// Draws the outline of the triangle with the given vertices in `color`:
/// its three edges, each as a clipped line segment.
#[allow(non_snake_case)]
pub fn make_triangle_2D(
    buf: &mut PixelBuffer,
    x0: i32,
    y0: i32,
    x1: i32,
    y1: i32,
    x2: i32,
    y2: i32,
    color: u32,
)
    requires
        old(buf).wf(),
    ensures
        final(buf).wf(),
        final(buf).width() == old(buf).width(),
        final(buf).height() == old(buf).height(),
        final(buf)@ == outline_image(
            old(buf)@,
            old(buf).width() as int,
            x0 as int,
            y0 as int,
            x1 as int,
            y1 as int,
            x2 as int,
            y2 as int,
            color,
        ),
{
    make_line(buf, x0, y0, x2, y2, color);
    make_line(buf, x1, y1, x2, y2, color);
    make_line(buf, x1, y1, x0, y0, color);
    assert(buf@ =~= outline_image(
        old(buf)@,
        old(buf).width() as int,
        x0 as int,
        y0 as int,
        x1 as int,
        y1 as int,
        x2 as int,
        y2 as int,
        color,
    ));
}

} // verus!
