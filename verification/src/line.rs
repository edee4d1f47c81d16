//! Straight line segments, sampled at evenly spaced steps and clipped to the
//! buffer.

use vstd::prelude::*;
use crate::buffer::{col_of, lemma_index_in_grid, row_of, PixelBuffer};

verus! {

/// Largest coordinate magnitude the rasterizers work with internally; every
/// 32-bit coordinate, and every square corner derived from one, lies within it.
pub const COORD_LIMIT: i64 = 0x2_0000_0000;

pub open spec fn distance(a: int, b: int) -> int {
    if a <= b {
        b - a
    } else {
        a - b
    }
}

/// Number of steps a segment is walked in: the larger of its horizontal and
/// vertical extents.
pub open spec fn line_steps(x0: int, y0: int, x1: int, y1: int) -> int {
    if distance(x0, x1) >= distance(y0, y1) {
        distance(x0, x1)
    } else {
        distance(y0, y1)
    }
}

/// The integer nearest to `n / d` for positive `d`; an exact half goes to the
/// neighbour farther from zero.
pub open spec fn round_div(n: int, d: int) -> int {
    if n >= 0 {
        (2 * n + d) / (2 * d)
    } else {
        -((d - 2 * n) / (2 * d))
    }
}

/// One coordinate of sample `i` out of the `n + 1` evenly spaced samples that
/// lead from `a` to `b`: the point `a + i * (b - a) / n`, rounded.
pub open spec fn sample(a: int, b: int, n: int, i: int) -> int {
    round_div(a * n + i * (b - a), n)
}

/// Whether the segment from `(x0, y0)` to `(x1, y1)` passes through the pixel
/// `(x, y)`: some sample of the walk from one endpoint to the other, both
/// included, rounds to it. A segment whose endpoints coincide covers nothing.
pub open spec fn on_line(x0: int, y0: int, x1: int, y1: int, x: int, y: int) -> bool {
    let n = line_steps(x0, y0, x1, y1);
    n > 0 && exists|i: int|
        0 <= i <= n && #[trigger] sample(x0, x1, n, i) == x && sample(y0, y1, n, i) == y
}

/// Whether one of the samples from step `lo` up to, but not including, step
/// `m` falls on `(x, y)`.
spec fn sampled_in(x0: int, y0: int, x1: int, y1: int, lo: int, m: int, x: int, y: int) -> bool {
    let n = line_steps(x0, y0, x1, y1);
    exists|i: int| lo <= i < m && #[trigger] sample(x0, x1, n, i) == x && sample(y0, y1, n, i) == y
}

/// The grid `s` after the segment has been drawn on it in `color`.
pub open spec fn line_image(
    s: Seq<u32>,
    w: int,
    x0: int,
    y0: int,
    x1: int,
    y1: int,
    color: u32,
) -> Seq<u32> {
    Seq::new(
        s.len(),
        |k: int|
            if on_line(x0, y0, x1, y1, col_of(k, w), row_of(k, w)) {
                color
            } else {
                s[k]
            },
    )
}

/// A quotient `n / d` that lies between two integers rounds to an integer
/// between them.
pub proof fn lemma_round_div_between(n: int, d: int, lo: int, hi: int)
    requires
        d > 0,
        lo * d <= n <= hi * d,
    ensures
        lo <= round_div(n, d) <= hi,
{
    if n >= 0 {
        let x = 2 * n + d;
        let q = x / (2 * d);
        let r = x % (2 * d);
        vstd::arithmetic::div_mod::lemma_fundamental_div_mod(x, 2 * d);
        assert(q <= hi) by (nonlinear_arith)
            requires
                x == (2 * d) * q + r,
                0 <= r < 2 * d,
                x == 2 * n + d,
                n <= hi * d,
                d > 0,
        ;
        assert(lo <= q) by (nonlinear_arith)
            requires
                x == (2 * d) * q + r,
                0 <= r < 2 * d,
                x == 2 * n + d,
                lo * d <= n,
                d > 0,
        ;
    } else {
        let x = d - 2 * n;
        let q = x / (2 * d);
        let r = x % (2 * d);
        vstd::arithmetic::div_mod::lemma_fundamental_div_mod(x, 2 * d);
        assert(-q <= hi) by (nonlinear_arith)
            requires
                x == (2 * d) * q + r,
                0 <= r < 2 * d,
                x == d - 2 * n,
                n <= hi * d,
                d > 0,
        ;
        assert(lo <= -q) by (nonlinear_arith)
            requires
                x == (2 * d) * q + r,
                0 <= r < 2 * d,
                x == d - 2 * n,
                lo * d <= n,
                d > 0,
        ;
    }
}

/// Rounding moves a quotient by at most one half: the rounded value times
/// `d` differs from `n` by no more than half of `d`.
pub proof fn lemma_round_div_nearest(n: int, d: int)
    requires
        d > 0,
    ensures
        -d <= 2 * (round_div(n, d) * d - n) <= d,
{
    if n >= 0 {
        let x = 2 * n + d;
        let q = x / (2 * d);
        let r = x % (2 * d);
        vstd::arithmetic::div_mod::lemma_fundamental_div_mod(x, 2 * d);
        assert(-d <= 2 * (q * d - n) <= d) by (nonlinear_arith)
            requires
                x == (2 * d) * q + r,
                0 <= r < 2 * d,
                x == 2 * n + d,
        ;
    } else {
        let x = d - 2 * n;
        let q = x / (2 * d);
        let r = x % (2 * d);
        vstd::arithmetic::div_mod::lemma_fundamental_div_mod(x, 2 * d);
        assert(-d <= 2 * ((-q) * d - n) <= d) by (nonlinear_arith)
            requires
                x == (2 * d) * q + r,
                0 <= r < 2 * d,
                x == d - 2 * n,
        ;
    }
}

/// Every sample is a pixel coordinate nearest to the exact position
/// `a + i * (b - a) / n` on the segment: the two differ by at most one half.
pub proof fn lemma_sample_nearest(a: int, b: int, n: int, i: int)
    requires
        n > 0,
    ensures
        -n <= 2 * (sample(a, b, n, i) * n - (a * n + i * (b - a))) <= n,
{
    lemma_round_div_nearest(a * n + i * (b - a), n);
}

/// Every sample of a walk from `a` to `b` lies between `a` and `b`.
pub proof fn lemma_sample_between(a: int, b: int, n: int, i: int)
    requires
        n > 0,
        0 <= i <= n,
        distance(a, b) <= n,
    ensures
        a <= b ==> a <= sample(a, b, n, i) <= b,
        b <= a ==> b <= sample(a, b, n, i) <= a,
{
    let t = a * n + i * (b - a);
    if a <= b {
        assert(a * n <= t <= b * n) by (nonlinear_arith)
            requires
                t == a * n + i * (b - a),
                0 <= i <= n,
                a <= b,
        ;
        lemma_round_div_between(t, n, a, b);
    } else {
        assert(b * n <= t <= a * n) by (nonlinear_arith)
            requires
                t == a * n + i * (b - a),
                0 <= i <= n,
                b <= a,
        ;
        lemma_round_div_between(t, n, b, a);
    }
}

/// A walk starts at `a` and ends at `b`.
pub proof fn lemma_sample_ends(a: int, b: int, n: int)
    requires
        n > 0,
    ensures
        sample(a, b, n, 0) == a,
        sample(a, b, n, n) == b,
{
    assert(a * n + 0 * (b - a) == a * n) by (nonlinear_arith);
    assert(a * n + n * (b - a) == b * n) by (nonlinear_arith);
    lemma_round_div_between(a * n, n, a, a);
    lemma_round_div_between(b * n, n, b, b);
}

/// Along the axis of its longer extent a walk moves by exactly one pixel
/// per step, and along an axis without extent it stays where it is.
pub proof fn lemma_sample_unit_steps(a: int, b: int, n: int, i: int)
    requires
        n > 0,
    ensures
        b - a == n ==> sample(a, b, n, i) == a + i,
        a - b == n ==> sample(a, b, n, i) == a - i,
        a == b ==> sample(a, b, n, i) == a,
{
    if b - a == n {
        assert(a * n + i * (b - a) == (a + i) * n) by (nonlinear_arith)
            requires
                b - a == n,
        ;
        lemma_round_div_between((a + i) * n, n, a + i, a + i);
    }
    if a - b == n {
        assert(a * n + i * (b - a) == (a - i) * n) by (nonlinear_arith)
            requires
                a - b == n,
        ;
        lemma_round_div_between((a - i) * n, n, a - i, a - i);
    }
    if a == b {
        assert(a * n + i * (b - a) == a * n) by (nonlinear_arith)
            requires
                a == b,
        ;
        lemma_round_div_between(a * n, n, a, a);
    }
}

/// A segment with distinct endpoints passes through both of them.
pub proof fn lemma_endpoints_on_line(x0: int, y0: int, x1: int, y1: int)
    requires
        x0 != x1 || y0 != y1,
    ensures
        on_line(x0, y0, x1, y1, x0, y0),
        on_line(x0, y0, x1, y1, x1, y1),
{
    let n = line_steps(x0, y0, x1, y1);
    lemma_sample_ends(x0, x1, n);
    lemma_sample_ends(y0, y1, n);
    assert(0 <= 0 <= n && sample(x0, x1, n, 0) == x0 && sample(y0, y1, n, 0) == y0);
    assert(0 <= n <= n && sample(x0, x1, n, n) == x1 && sample(y0, y1, n, n) == y1);
}

/// Walking a segment from its other end visits the same samples in the
/// opposite order.
pub proof fn lemma_sample_reversed(a: int, b: int, n: int, i: int)
    ensures
        sample(b, a, n, n - i) == sample(a, b, n, i),
{
    assert(b * n + (n - i) * (a - b) == a * n + i * (b - a)) by (nonlinear_arith);
}

/// A segment covers the same pixels whichever endpoint it is drawn from.
pub proof fn lemma_line_reversed(x0: int, y0: int, x1: int, y1: int, x: int, y: int)
    ensures
        on_line(x0, y0, x1, y1, x, y) == on_line(x1, y1, x0, y0, x, y),
{
    let n = line_steps(x0, y0, x1, y1);
    assert(n == line_steps(x1, y1, x0, y0));
    if on_line(x0, y0, x1, y1, x, y) {
        let i = choose|i: int|
            0 <= i <= n && #[trigger] sample(x0, x1, n, i) == x && sample(y0, y1, n, i) == y;
        lemma_sample_reversed(x0, x1, n, i);
        lemma_sample_reversed(y0, y1, n, i);
        assert(0 <= n - i <= n && sample(x1, x0, n, n - i) == x && sample(y1, y0, n, n - i) == y);
    }
    if on_line(x1, y1, x0, y0, x, y) {
        let i = choose|i: int|
            0 <= i <= n && #[trigger] sample(x1, x0, n, i) == x && sample(y1, y0, n, i) == y;
        lemma_sample_reversed(x1, x0, n, i);
        lemma_sample_reversed(y1, y0, n, i);
        assert(0 <= n - i <= n && sample(x0, x1, n, n - i) == x && sample(y0, y1, n, n - i) == y);
    }
}

/// Every pixel of a segment lies inside the bounding box of its endpoints.
pub proof fn lemma_line_in_box(x0: int, y0: int, x1: int, y1: int, x: int, y: int)
    requires
        on_line(x0, y0, x1, y1, x, y),
    ensures
        x0 <= x <= x1 || x1 <= x <= x0,
        y0 <= y <= y1 || y1 <= y <= y0,
{
    let n = line_steps(x0, y0, x1, y1);
    let i = choose|i: int|
        0 <= i <= n && #[trigger] sample(x0, x1, n, i) == x && sample(y0, y1, n, i) == y;
    lemma_sample_between(x0, x1, n, i);
    lemma_sample_between(y0, y1, n, i);
}

/// A horizontal segment covers exactly the pixels of its row that lie
/// between its endpoints, both included.
pub proof fn lemma_horizontal_line(x0: int, x1: int, y0: int, x: int, y: int)
    requires
        x0 != x1,
    ensures
        on_line(x0, y0, x1, y0, x, y) <==> (y == y0 && (x0 <= x <= x1 || x1 <= x <= x0)),
{
    let n = line_steps(x0, y0, x1, y0);
    if on_line(x0, y0, x1, y0, x, y) {
        lemma_line_in_box(x0, y0, x1, y0, x, y);
    }
    if y == y0 && (x0 <= x <= x1 || x1 <= x <= x0) {
        let i = distance(x0, x);
        lemma_sample_unit_steps(x0, x1, n, i);
        lemma_sample_unit_steps(y0, y0, n, i);
        assert(0 <= i <= n && sample(x0, x1, n, i) == x && sample(y0, y0, n, i) == y);
    }
}

/// A vertical segment covers exactly the pixels of its column that lie
/// between its endpoints, both included.
pub proof fn lemma_vertical_line(x0: int, y0: int, y1: int, x: int, y: int)
    requires
        y0 != y1,
    ensures
        on_line(x0, y0, x0, y1, x, y) <==> (x == x0 && (y0 <= y <= y1 || y1 <= y <= y0)),
{
    let n = line_steps(x0, y0, x0, y1);
    if on_line(x0, y0, x0, y1, x, y) {
        lemma_line_in_box(x0, y0, x0, y1, x, y);
    }
    if x == x0 && (y0 <= y <= y1 || y1 <= y <= y0) {
        let i = distance(y0, y);
        lemma_sample_unit_steps(y0, y1, n, i);
        lemma_sample_unit_steps(x0, x0, n, i);
        assert(0 <= i <= n && sample(x0, x0, n, i) == x && sample(y0, y1, n, i) == y);
    }
}

/// The samples up to step `m` are the samples before step `m` and sample
/// `m` itself.
proof fn lemma_sampled_step(x0: int, y0: int, x1: int, y1: int, lo: int, m: int, x: int, y: int)
    requires
        lo <= m,
    ensures
        sampled_in(x0, y0, x1, y1, lo, m + 1, x, y) <==> (sampled_in(x0, y0, x1, y1, lo, m, x, y) || (
        sample(x0, x1, line_steps(x0, y0, x1, y1), m) == x && sample(
            y0,
            y1,
            line_steps(x0, y0, x1, y1),
            m,
        ) == y)),
{
    let n = line_steps(x0, y0, x1, y1);
    if sampled_in(x0, y0, x1, y1, lo, m + 1, x, y) {
        let i = choose|i: int|
            lo <= i < m + 1 && #[trigger] sample(x0, x1, n, i) == x && sample(y0, y1, n, i) == y;
        if i < m {
            assert(sampled_in(x0, y0, x1, y1, lo, m, x, y));
        }
    }
    if sampled_in(x0, y0, x1, y1, lo, m, x, y) {
        let i = choose|i: int|
            lo <= i < m && #[trigger] sample(x0, x1, n, i) == x && sample(y0, y1, n, i) == y;
        assert(lo <= i < m + 1 && sample(x0, x1, n, i) == x && sample(y0, y1, n, i) == y);
    }
    if sample(x0, x1, n, m) == x && sample(y0, y1, n, m) == y {
        assert(lo <= m < m + 1 && sample(x0, x1, n, m) == x && sample(y0, y1, n, m) == y);
    }
}

fn round_div_exec(n: i128, d: i128) -> (r: i128)
    requires
        0 < d <= 0x1_0000_0000_0000,
        -0x1_0000_0000_0000_0000_0000_0000 <= n <= 0x1_0000_0000_0000_0000_0000_0000,
    ensures
        r == round_div(n as int, d as int),
{
    if n >= 0 {
        (2 * n + d) / (2 * d)
    } else {
        -((d - 2 * n) / (2 * d))
    }
}

fn sample_exec(a: i64, b: i64, n: i64, i: i64) -> (r: i64)
    requires
        -COORD_LIMIT <= a <= COORD_LIMIT,
        -COORD_LIMIT <= b <= COORD_LIMIT,
        0 < n,
        0 <= i <= n,
        distance(a as int, b as int) <= n <= 2 * COORD_LIMIT,
    ensures
        r == sample(a as int, b as int, n as int, i as int),
        -COORD_LIMIT <= r <= COORD_LIMIT,
{
    let d: i128 = (b as i128) - (a as i128);
    assert(-0x8_0000_0000_0000_0000 <= (a as int) * (n as int) <= 0x8_0000_0000_0000_0000)
        by (nonlinear_arith)
        requires
            -0x2_0000_0000 <= a <= 0x2_0000_0000,
            0 < n <= 0x4_0000_0000,
    ;
    assert(-0x10_0000_0000_0000_0000 <= (i as int) * (d as int) <= 0x10_0000_0000_0000_0000)
        by (nonlinear_arith)
        requires
            -0x4_0000_0000 <= d <= 0x4_0000_0000,
            0 <= i <= 0x4_0000_0000,
    ;
    let t: i128 = (a as i128) * (n as i128) + (i as i128) * d;
    let r = round_div_exec(t, n as i128);
    proof {
        lemma_sample_between(a as int, b as int, n as int, i as int);
    }
    r as i64
}

/// The steps of a walk whose samples can lie inside a dimension of `dim`
/// pixels, judged along the axis of the walk's longer extent: the first and
/// the last such step. When the first lies after the last there is none.
fn visible_steps(a: i64, b: i64, n: i64, dim: usize) -> (r: (i64, i64))
    requires
        -COORD_LIMIT <= a <= COORD_LIMIT,
        -COORD_LIMIT <= b <= COORD_LIMIT,
        0 < n,
        distance(a as int, b as int) == n,
    ensures
        0 <= r.0,
        r.1 <= n,
        forall|i: int|
            0 <= i <= n ==> ((r.0 <= i <= r.1) <==> 0 <= #[trigger] sample(
                a as int,
                b as int,
                n as int,
                i,
            ) < dim),
{
    let wide: u64 = dim as u64;
    let d: i64 = if wide >= 0x4_0000_0000 {
        0x4_0000_0000
    } else {
        wide as i64
    };
    let first: i64 = if b >= a {
        -a
    } else {
        a - d + 1
    };
    let last: i64 = if b >= a {
        d - 1 - a
    } else {
        a
    };
    let lo: i64 = if first < 0 {
        0
    } else {
        first
    };
    let hi: i64 = if last > n {
        n
    } else {
        last
    };
    proof {
        assert forall|i: int| 0 <= i <= n implies ((lo <= i <= hi) <==> 0 <= #[trigger] sample(
            a as int,
            b as int,
            n as int,
            i,
        ) < dim) by {
            lemma_sample_unit_steps(a as int, b as int, n as int, i);
        }
    }
    (lo, hi)
}

/// Draws the segment between two points whose coordinates lie within
/// `COORD_LIMIT` of the origin. Only the stretch of the walk that can reach
/// the buffer is stepped through.
pub(crate) fn line_core(buf: &mut PixelBuffer, x0: i64, y0: i64, x1: i64, y1: i64, color: u32)
    requires
        old(buf).wf(),
        -COORD_LIMIT <= x0 <= COORD_LIMIT,
        -COORD_LIMIT <= y0 <= COORD_LIMIT,
        -COORD_LIMIT <= x1 <= COORD_LIMIT,
        -COORD_LIMIT <= y1 <= COORD_LIMIT,
    ensures
        final(buf).wf(),
        final(buf).width() == old(buf).width(),
        final(buf).height() == old(buf).height(),
        final(buf)@ == line_image(
            old(buf)@,
            old(buf).width() as int,
            x0 as int,
            y0 as int,
            x1 as int,
            y1 as int,
            color,
        ),
{
    let dx: i64 = if x0 <= x1 {
        x1 - x0
    } else {
        x0 - x1
    };
    let dy: i64 = if y0 <= y1 {
        y1 - y0
    } else {
        y0 - y1
    };
    let steps: i64 = if dx >= dy {
        dx
    } else {
        dy
    };
    let ghost w = buf.width() as int;
    let ghost h = buf.height() as int;
    let ghost goal = line_image(buf@, w, x0 as int, y0 as int, x1 as int, y1 as int, color);
    if steps == 0 {
        assert(buf@ =~= goal);
        return ;
    }
    let (lo, hi) = if dx >= dy {
        visible_steps(x0, x1, steps, buf.width())
    } else {
        visible_steps(y0, y1, steps, buf.height())
    };
    proof {
        // Inside the buffer, every pixel of the segment is the sample of a
        // step between `lo` and `hi`.
        assert forall|k: int| 0 <= k < buf@.len() implies (on_line(
            x0 as int,
            y0 as int,
            x1 as int,
            y1 as int,
            col_of(k, w),
            row_of(k, w),
        ) <==> sampled_in(
            x0 as int,
            y0 as int,
            x1 as int,
            y1 as int,
            lo as int,
            hi + 1,
            col_of(k, w),
            row_of(k, w),
        )) by {
            lemma_index_in_grid(w, h, k);
            let c = col_of(k, w);
            let r = row_of(k, w);
            let n = steps as int;
            if on_line(x0 as int, y0 as int, x1 as int, y1 as int, c, r) {
                let i = choose|i: int|
                    0 <= i <= n && #[trigger] sample(x0 as int, x1 as int, n, i) == c && sample(
                        y0 as int,
                        y1 as int,
                        n,
                        i,
                    ) == r;
                assert(lo <= i < hi + 1 && sample(x0 as int, x1 as int, n, i) == c && sample(
                    y0 as int,
                    y1 as int,
                    n,
                    i,
                ) == r);
            }
            if sampled_in(x0 as int, y0 as int, x1 as int, y1 as int, lo as int, hi + 1, c, r) {
                let i = choose|i: int|
                    lo <= i < hi + 1 && #[trigger] sample(x0 as int, x1 as int, n, i) == c
                        && sample(y0 as int, y1 as int, n, i) == r;
                assert(0 <= i <= n && sample(x0 as int, x1 as int, n, i) == c && sample(
                    y0 as int,
                    y1 as int,
                    n,
                    i,
                ) == r);
            }
        }
    }
    if lo > hi {
        assert(buf@ =~= goal);
        return ;
    }
    let mut i: i64 = lo;
    while i <= hi
        invariant
            0 <= lo <= i <= hi + 1,
            hi <= steps,
            0 < steps <= 2 * COORD_LIMIT,
            steps == line_steps(x0 as int, y0 as int, x1 as int, y1 as int),
            -COORD_LIMIT <= x0 <= COORD_LIMIT,
            -COORD_LIMIT <= y0 <= COORD_LIMIT,
            -COORD_LIMIT <= x1 <= COORD_LIMIT,
            -COORD_LIMIT <= y1 <= COORD_LIMIT,
            w == old(buf).width(),
            buf.wf(),
            buf.width() == old(buf).width(),
            buf.height() == old(buf).height(),
            buf@.len() == old(buf)@.len(),
            forall|k: int|
                0 <= k < buf@.len() ==> #[trigger] buf@[k] == if sampled_in(
                    x0 as int,
                    y0 as int,
                    x1 as int,
                    y1 as int,
                    lo as int,
                    i as int,
                    col_of(k, w),
                    row_of(k, w),
                ) {
                    color
                } else {
                    old(buf)@[k]
                },
        decreases hi + 1 - i,
    {
        let px = sample_exec(x0, x1, steps, i);
        let py = sample_exec(y0, y1, steps, i);
        let ghost prev = buf@;
        buf.put_pixel(px, py, color);
        proof {
            assert forall|k: int| 0 <= k < buf@.len() implies #[trigger] buf@[k] == if sampled_in(
                x0 as int,
                y0 as int,
                x1 as int,
                y1 as int,
                lo as int,
                i + 1,
                col_of(k, w),
                row_of(k, w),
            ) {
                color
            } else {
                old(buf)@[k]
            } by {
                lemma_sampled_step(
                    x0 as int,
                    y0 as int,
                    x1 as int,
                    y1 as int,
                    lo as int,
                    i as int,
                    col_of(k, w),
                    row_of(k, w),
                );
                assert(prev[k] == if sampled_in(
                    x0 as int,
                    y0 as int,
                    x1 as int,
                    y1 as int,
                    lo as int,
                    i as int,
                    col_of(k, w),
                    row_of(k, w),
                ) {
                    color
                } else {
                    old(buf)@[k]
                });
            }
        }
        i += 1;
    }
    assert(buf@ =~= goal);
}

/// Draws the straight segment from `(x0, y0)` to `(x1, y1)` in `color`.
///
/// The segment is walked in as many unit steps as its longer extent, both
/// endpoints included; each sample is rounded to the nearest pixel, and
/// samples that fall outside the buffer are skipped. Coincident endpoints
/// draw nothing.
pub fn make_line(buf: &mut PixelBuffer, x0: i32, y0: i32, x1: i32, y1: i32, color: u32)
    requires
        old(buf).wf(),
    ensures
        final(buf).wf(),
        final(buf).width() == old(buf).width(),
        final(buf).height() == old(buf).height(),
        final(buf)@ == line_image(
            old(buf)@,
            old(buf).width() as int,
            x0 as int,
            y0 as int,
            x1 as int,
            y1 as int,
            color,
        ),
{
    line_core(buf, x0 as i64, y0 as i64, x1 as i64, y1 as i64, color);
}

} // verus!
