//! Painter's-order drawing: lists of triangles drawn one after another, the
//! later over the earlier, with no regard to depth.

use vstd::prelude::*;
use crate::buffer::{col_of, row_of, PixelBuffer};
use crate::triangle::{
    covers,
    fill_image,
    fill_triangle,
    make_triangle_2D,
    on_outline,
    outline_image,
};

verus! {

/// A triangle in screen space with the colour it is drawn in. The order of
/// the vertices is its winding.
#[derive(Clone, Copy, Debug, PartialEq, Eq)]
pub struct Triangle2d {
    pub x0: i32,
    pub y0: i32,
    pub x1: i32,
    pub y1: i32,
    pub x2: i32,
    pub y2: i32,
    pub color: u32,
}

/// The grid `s` after the outlines of the triangles have been drawn on it
/// in order; where outlines cross, the later one shows.
pub open spec fn outlines_image(s: Seq<u32>, w: int, tris: Seq<Triangle2d>) -> Seq<u32>
    decreases tris.len(),
{
    if tris.len() == 0 {
        s
    } else {
        let t = tris.last();
        outline_image(
            outlines_image(s, w, tris.drop_last()),
            w,
            t.x0 as int,
            t.y0 as int,
            t.x1 as int,
            t.y1 as int,
            t.x2 as int,
            t.y2 as int,
            t.color,
        )
    }
}

/// The grid `s` after the triangles have been painted solid on it in
/// order; where triangles overlap, the later one shows.
pub open spec fn fills_image(s: Seq<u32>, w: int, tris: Seq<Triangle2d>) -> Seq<u32>
    decreases tris.len(),
{
    if tris.len() == 0 {
        s
    } else {
        let t = tris.last();
        fill_image(
            fills_image(s, w, tris.drop_last()),
            w,
            t.x0 as int,
            t.y0 as int,
            t.x1 as int,
            t.y1 as int,
            t.x2 as int,
            t.y2 as int,
            t.color,
        )
    }
}

/// Whether the outline of `t` passes through the pixel stored at linear
/// index `k`.
pub open spec fn outlined_by(t: Triangle2d, w: int, k: int) -> bool {
    on_outline(
        t.x0 as int,
        t.y0 as int,
        t.x1 as int,
        t.y1 as int,
        t.x2 as int,
        t.y2 as int,
        col_of(k, w),
        row_of(k, w),
    )
}

/// Whether the solid triangle `t` covers the pixel stored at linear index
/// `k`.
pub open spec fn filled_by(t: Triangle2d, w: int, k: int) -> bool {
    covers(
        t.x0 as int,
        t.y0 as int,
        t.x1 as int,
        t.y1 as int,
        t.x2 as int,
        t.y2 as int,
        col_of(k, w),
        row_of(k, w),
    )
}

/// Outlines drawn in order: a pixel that no outline passes through keeps
/// its colour, and any other pixel shows the colour of the last outline in
/// the list that passes through it.
pub proof fn lemma_last_outline_shows(s: Seq<u32>, w: int, tris: Seq<Triangle2d>, k: int)
    requires
        0 <= k < s.len(),
    ensures
        outlines_image(s, w, tris).len() == s.len(),
        (forall|i: int| 0 <= i < tris.len() ==> !outlined_by(#[trigger] tris[i], w, k))
            ==> outlines_image(s, w, tris)[k] == s[k],
        forall|i: int|
            0 <= i < tris.len() && outlined_by(#[trigger] tris[i], w, k) && (forall|j: int|
                i < j < tris.len() ==> !outlined_by(#[trigger] tris[j], w, k)) ==> outlines_image(
                s,
                w,
                tris,
            )[k] == tris[i].color,
    decreases tris.len(),
{
    if tris.len() > 0 {
        let init = tris.drop_last();
        let last = tris.len() - 1;
        lemma_last_outline_shows(s, w, init, k);
        assert forall|i: int| 0 <= i < init.len() implies init[i] == tris[i] by {}
        if outlined_by(tris[last], w, k) {
            assert forall|i: int|
                0 <= i < tris.len() && outlined_by(#[trigger] tris[i], w, k) && (forall|j: int|
                    i < j < tris.len() ==> !outlined_by(#[trigger] tris[j], w, k)) implies i
                == last by {
                if i < last {
                    assert(outlined_by(tris[last], w, k));
                }
            }
        } else {
            assert forall|i: int|
                0 <= i < tris.len() && outlined_by(#[trigger] tris[i], w, k) && (forall|j: int|
                    i < j < tris.len() ==> !outlined_by(#[trigger] tris[j], w, k)) implies
                outlines_image(s, w, init)[k] == tris[i].color by {
                assert(init[i] == tris[i]);
                assert forall|j: int| i < j < init.len() implies !outlined_by(
                    #[trigger] init[j],
                    w,
                    k,
                ) by {
                    assert(init[j] == tris[j]);
                }
            }
            if forall|i: int| 0 <= i < tris.len() ==> !outlined_by(#[trigger] tris[i], w, k) {
                assert forall|i: int| 0 <= i < init.len() implies !outlined_by(
                    #[trigger] init[i],
                    w,
                    k,
                ) by {
                    assert(init[i] == tris[i]);
                }
            }
        }
    }
}

/// Solid triangles painted in order: a pixel that no triangle covers keeps
/// its colour, and any other pixel shows the colour of the last triangle in
/// the list that covers it.
pub proof fn lemma_last_fill_shows(s: Seq<u32>, w: int, tris: Seq<Triangle2d>, k: int)
    requires
        0 <= k < s.len(),
    ensures
        fills_image(s, w, tris).len() == s.len(),
        (forall|i: int| 0 <= i < tris.len() ==> !filled_by(#[trigger] tris[i], w, k))
            ==> fills_image(s, w, tris)[k] == s[k],
        forall|i: int|
            0 <= i < tris.len() && filled_by(#[trigger] tris[i], w, k) && (forall|j: int|
                i < j < tris.len() ==> !filled_by(#[trigger] tris[j], w, k)) ==> fills_image(
                s,
                w,
                tris,
            )[k] == tris[i].color,
    decreases tris.len(),
{
    if tris.len() > 0 {
        let init = tris.drop_last();
        let last = tris.len() - 1;
        lemma_last_fill_shows(s, w, init, k);
        assert forall|i: int| 0 <= i < init.len() implies init[i] == tris[i] by {}
        if filled_by(tris[last], w, k) {
            assert forall|i: int|
                0 <= i < tris.len() && filled_by(#[trigger] tris[i], w, k) && (forall|j: int|
                    i < j < tris.len() ==> !filled_by(#[trigger] tris[j], w, k)) implies i
                == last by {
                if i < last {
                    assert(filled_by(tris[last], w, k));
                }
            }
        } else {
            assert forall|i: int|
                0 <= i < tris.len() && filled_by(#[trigger] tris[i], w, k) && (forall|j: int|
                    i < j < tris.len() ==> !filled_by(#[trigger] tris[j], w, k)) implies
                fills_image(s, w, init)[k] == tris[i].color by {
                assert(init[i] == tris[i]);
                assert forall|j: int| i < j < init.len() implies !filled_by(
                    #[trigger] init[j],
                    w,
                    k,
                ) by {
                    assert(init[j] == tris[j]);
                }
            }
            if forall|i: int| 0 <= i < tris.len() ==> !filled_by(#[trigger] tris[i], w, k) {
                assert forall|i: int| 0 <= i < init.len() implies !filled_by(
                    #[trigger] init[i],
                    w,
                    k,
                ) by {
                    assert(init[i] == tris[i]);
                }
            }
        }
    }
}

/// Draws the outline of each triangle, in the order given.
pub fn draw_outlines(buf: &mut PixelBuffer, tris: &Vec<Triangle2d>)
    requires
        old(buf).wf(),
    ensures
        final(buf).wf(),
        final(buf).width() == old(buf).width(),
        final(buf).height() == old(buf).height(),
        final(buf)@ == outlines_image(old(buf)@, old(buf).width() as int, tris@),
{
    let ghost w = buf.width() as int;
    let mut i: usize = 0;
    while i < tris.len()
        invariant
            i <= tris.len(),
            buf.wf(),
            buf.width() == old(buf).width(),
            buf.height() == old(buf).height(),
            w == old(buf).width(),
            buf@ == outlines_image(old(buf)@, w, tris@.take(i as int)),
        decreases tris.len() - i,
    {
        proof {
            assert(tris@.take(i + 1).drop_last() =~= tris@.take(i as int));
            assert(tris@.take(i + 1).last() == tris@[i as int]);
        }
        let t = tris[i];
        make_triangle_2D(buf, t.x0, t.y0, t.x1, t.y1, t.x2, t.y2, t.color);
        i += 1;
    }
    assert(tris@.take(i as int) =~= tris@);
}

/// Paints each triangle solid, in the order given.
pub fn draw_fills(buf: &mut PixelBuffer, tris: &Vec<Triangle2d>)
    requires
        old(buf).wf(),
    ensures
        final(buf).wf(),
        final(buf).width() == old(buf).width(),
        final(buf).height() == old(buf).height(),
        final(buf)@ == fills_image(old(buf)@, old(buf).width() as int, tris@),
{
    let ghost w = buf.width() as int;
    let mut i: usize = 0;
    while i < tris.len()
        invariant
            i <= tris.len(),
            buf.wf(),
            buf.width() == old(buf).width(),
            buf.height() == old(buf).height(),
            w == old(buf).width(),
            buf@ == fills_image(old(buf)@, w, tris@.take(i as int)),
        decreases tris.len() - i,
    {
        proof {
            assert(tris@.take(i + 1).drop_last() =~= tris@.take(i as int));
            assert(tris@.take(i + 1).last() == tris@[i as int]);
        }
        let t = tris[i];
        fill_triangle(buf, t.x0, t.y0, t.x1, t.y1, t.x2, t.y2, t.color);
        i += 1;
    }
    assert(tris@.take(i as int) =~= tris@);
}

} // verus!
