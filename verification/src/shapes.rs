//! Axis-aligned squares, solid and outlined, and a fixed stick figure of a
//! hand.

use vstd::prelude::*;
use crate::buffer::{col_of, lemma_index_in_grid, row_of, PixelBuffer, GREEN};
use crate::line::{line_core, make_line, on_line};

verus! {

/// Half of `size`, rounded towards zero.
pub open spec fn half(size: int) -> int {
    if size >= 0 {
        size / 2
    } else {
        -((-size) / 2)
    }
}

/// Whether the solid square centred on `(cx, cy)` contains the pixel
/// `(x, y)`. The square reaches `half(size)` pixels up and to the left of its
/// centre and stops one pixel short of that down and to the right; a size
/// below two leaves it empty.
pub open spec fn in_square(cx: int, cy: int, size: int, x: int, y: int) -> bool {
    size > 0 && cx - half(size) <= x < cx + half(size) && cy - half(size) <= y < cy + half(size)
}

/// The grid `s` after the solid square has been painted on it in `color`.
pub open spec fn square_image(s: Seq<u32>, w: int, cx: int, cy: int, size: int, color: u32) -> Seq<
    u32,
> {
    Seq::new(
        s.len(),
        |k: int|
            if in_square(cx, cy, size, col_of(k, w), row_of(k, w)) {
                color
            } else {
                s[k]
            },
    )
}

/// Whether the outline of the square centred on `(cx, cy)` passes through
/// the pixel `(x, y)`. Its corners lie `half(size)` away from the centre along
/// both axes, and its four sides are line segments between them.
pub open spec fn on_square(cx: int, cy: int, size: int, x: int, y: int) -> bool {
    let ax = cx - half(size);
    let ay = cy - half(size);
    let bx = cx + half(size);
    let by = cy + half(size);
    on_line(ax, ay, ax, by, x, y) || on_line(ax, ay, bx, ay, x, y) || on_line(bx, by, ax, by, x, y)
        || on_line(bx, by, bx, ay, x, y)
}

/// The grid `s` after the outline of the square has been drawn on it in
/// `color`.
pub open spec fn square_outline_image(
    s: Seq<u32>,
    w: int,
    cx: int,
    cy: int,
    size: int,
    color: u32,
) -> Seq<u32> {
    Seq::new(
        s.len(),
        |k: int|
            if on_square(cx, cy, size, col_of(k, w), row_of(k, w)) {
                color
            } else {
                s[k]
            },
    )
}

/// Whether a bone of the hand figure passes through the pixel `(x, y)`.
pub open spec fn on_hand(x: int, y: int) -> bool {
    on_line(400, 500, 400, 360, x, y) || on_line(400, 360, 345, 300, x, y) || on_line(
        400,
        360,
        450,
        300,
        x,
        y,
    ) || on_line(400, 360, 400, 300, x, y) || on_line(400, 400, 500, 400, x, y) || on_line(
        500,
        400,
        500,
        350,
        x,
        y,
    ) || on_line(450, 200, 450, 300, x, y) || on_line(345, 200, 345, 300, x, y) || on_line(
        400,
        200,
        400,
        300,
        x,
        y,
    )
}

/// The grid `s` after the hand figure has been drawn on it.
pub open spec fn hand_image(s: Seq<u32>, w: int) -> Seq<u32> {
    Seq::new(
        s.len(),
        |k: int|
            if on_hand(col_of(k, w), row_of(k, w)) {
                GREEN
            } else {
                s[k]
            },
    )
}

fn half_exec(size: i32) -> (r: i64)
    ensures
        r == half(size as int),
        -0x4000_0000 <= r <= 0x4000_0000,
{
    let s: i64 = size as i64;
    if s >= 0 {
        s / 2
    } else {
        -((-s) / 2)
    }
}

/// The end of a clipped scan along a dimension of `n` pixels, for a shape
/// that stops before `end`.
fn clip_end(end: i64, n: usize) -> (r: i64)
    requires
        end <= 0x2_0000_0000,
    ensures
        r == if end <= n {
            end as int
        } else {
            n as int
        },
{
    let limit: u64 = n as u64;
    if limit >= 0x2_0000_0000 {
        end
    } else if end <= limit as i64 {
        end
    } else {
        limit as i64
    }
}

/// Whether the scan over the clipped square has already passed `(c, r)`
/// when it stands at column `x` of row `y`.
spec fn scanned(lo_x: int, hi_x: int, lo_y: int, hi_y: int, x: int, y: int, c: int, r: int) -> bool {
    lo_x <= c < hi_x && lo_y <= r < hi_y && (r < y || (r == y && c < x))
}

/// Paints a solid square centred on `(cx, cy)` in `color`, clipped to the
/// buffer.
pub fn make_square_filled(buf: &mut PixelBuffer, cx: i32, cy: i32, size: i32, color: u32)
    requires
        old(buf).wf(),
    ensures
        final(buf).wf(),
        final(buf).width() == old(buf).width(),
        final(buf).height() == old(buf).height(),
        final(buf)@ == square_image(
            old(buf)@,
            old(buf).width() as int,
            cx as int,
            cy as int,
            size as int,
            color,
        ),
{
    let ghost w = buf.width() as int;
    let ghost h = buf.height() as int;
    let ghost goal = square_image(buf@, w, cx as int, cy as int, size as int, color);
    if size <= 0 {
        assert(buf@ =~= goal);
        return ;
    }
    let reach = half_exec(size);
    let lo_x: i64 = if (cx as i64) - reach < 0 {
        0
    } else {
        (cx as i64) - reach
    };
    let lo_y: i64 = if (cy as i64) - reach < 0 {
        0
    } else {
        (cy as i64) - reach
    };
    let hi_x = clip_end((cx as i64) + reach, buf.width());
    let hi_y = clip_end((cy as i64) + reach, buf.height());
    proof {
        assert forall|k: int| 0 <= k < buf@.len() && in_square(
            cx as int,
            cy as int,
            size as int,
            col_of(k, w),
            row_of(k, w),
        ) implies lo_x <= col_of(k, w) < hi_x && lo_y <= row_of(k, w) < hi_y by {
            lemma_index_in_grid(w, h, k);
        }
    }
    if lo_x >= hi_x || lo_y >= hi_y {
        assert(buf@ =~= goal);
        return ;
    }
    let mut y: i64 = lo_y;
    while y < hi_y
        invariant
            0 <= lo_x < hi_x <= 0x2_0000_0000,
            0 <= lo_y <= y <= hi_y <= 0x2_0000_0000,
            lo_x >= cx - half(size as int),
            lo_y >= cy - half(size as int),
            hi_x <= cx + half(size as int),
            hi_y <= cy + half(size as int),
            size > 0,
            w == old(buf).width(),
            buf.wf(),
            buf.width() == old(buf).width(),
            buf.height() == old(buf).height(),
            buf@.len() == old(buf)@.len(),
            forall|k: int|
                0 <= k < buf@.len() ==> #[trigger] buf@[k] == if scanned(
                    lo_x as int,
                    hi_x as int,
                    lo_y as int,
                    hi_y as int,
                    lo_x as int,
                    y as int,
                    col_of(k, w),
                    row_of(k, w),
                ) {
                    color
                } else {
                    old(buf)@[k]
                },
        decreases hi_y - y,
    {
        let mut x: i64 = lo_x;
        while x < hi_x
            invariant
                0 <= lo_x <= x <= hi_x <= 0x2_0000_0000,
                0 <= lo_y <= y < hi_y <= 0x2_0000_0000,
                w == old(buf).width(),
                buf.wf(),
                buf.width() == old(buf).width(),
                buf.height() == old(buf).height(),
                buf@.len() == old(buf)@.len(),
                forall|k: int|
                    0 <= k < buf@.len() ==> #[trigger] buf@[k] == if scanned(
                        lo_x as int,
                        hi_x as int,
                        lo_y as int,
                        hi_y as int,
                        x as int,
                        y as int,
                        col_of(k, w),
                        row_of(k, w),
                    ) {
                        color
                    } else {
                        old(buf)@[k]
                    },
            decreases hi_x - x,
        {
            buf.put_pixel(x, y, color);
            x += 1;
        }
        y += 1;
    }
    assert(buf@ =~= goal);
}

/// Draws the outline of a square centred on `(cx, cy)` in `color`: four
/// clipped line segments between its corners.
pub fn make_square(buf: &mut PixelBuffer, cx: i32, cy: i32, size: i32, color: u32)
    requires
        old(buf).wf(),
    ensures
        final(buf).wf(),
        final(buf).width() == old(buf).width(),
        final(buf).height() == old(buf).height(),
        final(buf)@ == square_outline_image(
            old(buf)@,
            old(buf).width() as int,
            cx as int,
            cy as int,
            size as int,
            color,
        ),
{
    let reach = half_exec(size);
    let ax: i64 = (cx as i64) - reach;
    let ay: i64 = (cy as i64) - reach;
    let bx: i64 = (cx as i64) + reach;
    let by: i64 = (cy as i64) + reach;
    line_core(buf, ax, ay, ax, by, color);
    line_core(buf, ax, ay, bx, ay, color);
    line_core(buf, bx, by, ax, by, color);
    line_core(buf, bx, by, bx, ay, color);
    assert(buf@ =~= square_outline_image(
        old(buf)@,
        old(buf).width() as int,
        cx as int,
        cy as int,
        size as int,
        color,
    ));
}

/// Draws the bones of a hand in green: a forearm, three fingers fanning out
/// from the wrist, and a thumb.
pub fn make_hand_skel(buf: &mut PixelBuffer)
    requires
        old(buf).wf(),
    ensures
        final(buf).wf(),
        final(buf).width() == old(buf).width(),
        final(buf).height() == old(buf).height(),
        final(buf)@ == hand_image(old(buf)@, old(buf).width() as int),
{
    make_line(buf, 400, 500, 400, 360, GREEN);
    make_line(buf, 400, 360, 345, 300, GREEN);
    make_line(buf, 400, 360, 450, 300, GREEN);
    make_line(buf, 400, 360, 400, 300, GREEN);
    make_line(buf, 400, 400, 500, 400, GREEN);
    make_line(buf, 500, 400, 500, 350, GREEN);
    make_line(buf, 450, 200, 450, 300, GREEN);
    make_line(buf, 345, 200, 345, 300, GREEN);
    make_line(buf, 400, 200, 400, 300, GREEN);
    assert(buf@ =~= hand_image(old(buf)@, old(buf).width() as int));
}

} // verus!
