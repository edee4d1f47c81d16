//! Depth-resolved point samples: a colour grid paired with a grid of depth
//! keys, where a sample replaces a pixel only when it is nearer than
//! whatever the pixel already holds.

use vstd::prelude::*;
use crate::painter::{draw_fills, draw_outlines, fills_image, outlines_image, Triangle2d};
use crate::buffer::{
    blank,
    col_of,
    in_grid,
    lemma_grid_index,
    lemma_index_in_grid,
    row_of,
    PixelBuffer,
};

verus! {

/// Depth key of a pixel nothing has been drawn on: no sample is farther, so
/// any sample with a larger key replaces it.
pub const FARTHEST: i64 = i64::MIN;

/// A coloured point in screen space. `depth` orders samples by nearness to
/// the viewer: the larger key is the nearer sample.
#[derive(Clone, Copy, Debug, PartialEq, Eq)]
pub struct Sample {
    pub x: i32,
    pub y: i32,
    pub depth: i64,
    pub color: u32,
}

/// The number that a sign bit and 63 magnitude bits spell: the magnitude,
/// negated when the top bit is set.
pub open spec fn sign_magnitude(bits: u64) -> int {
    if bits < 0x8000_0000_0000_0000 {
        bits as int
    } else {
        -(bits - 0x8000_0000_0000_0000)
    }
}

/// The depth key of a sign-and-magnitude bit pattern: the magnitude itself
/// under a clear sign bit, and one less than its negation under a set one,
/// so that negative zero comes right below zero.
pub open spec fn key_of_bits(bits: u64) -> int {
    if bits < 0x8000_0000_0000_0000 {
        bits as int
    } else {
        -1 - (bits - 0x8000_0000_0000_0000)
    }
}

/// Keys are ordered as the numbers their bit patterns spell, and distinct
/// patterns get distinct keys.
pub proof fn lemma_keys_keep_order(a: u64, b: u64)
    ensures
        sign_magnitude(a) < sign_magnitude(b) ==> key_of_bits(a) < key_of_bits(b),
        key_of_bits(a) < key_of_bits(b) ==> sign_magnitude(a) <= sign_magnitude(b),
        key_of_bits(a) == key_of_bits(b) <==> a == b,
{
}

/// Turns the bit pattern of a depth, held as a sign bit over a magnitude
/// that grows with the depth, into a key that grows with the depth.
pub fn depth_key(bits: u64) -> (k: i64)
    ensures
        k == key_of_bits(bits),
{
    if bits < 0x8000_0000_0000_0000 {
        bits as i64
    } else {
        -1 - ((bits - 0x8000_0000_0000_0000) as i64)
    }
}

/// Whether sample `p` falls on the pixel stored at linear index `k`.
pub open spec fn hits(p: Sample, w: int, k: int) -> bool {
    col_of(k, w) == p.x && row_of(k, w) == p.y
}

/// The depth grid `d` after sample `p` has been resolved against it.
pub open spec fn resolve_depths(d: Seq<i64>, w: int, p: Sample) -> Seq<i64> {
    Seq::new(
        d.len(),
        |k: int|
            if hits(p, w, k) && p.depth > d[k] {
                p.depth
            } else {
                d[k]
            },
    )
}

/// The colour grid `c` after sample `p` has been resolved against the depth
/// grid `d`.
pub open spec fn resolve_colors(c: Seq<u32>, d: Seq<i64>, w: int, p: Sample) -> Seq<u32> {
    Seq::new(
        c.len(),
        |k: int|
            if hits(p, w, k) && p.depth > d[k] {
                p.color
            } else {
                c[k]
            },
    )
}

/// The depth grid `d` after the samples have been resolved in order.
pub open spec fn resolved_depths(d: Seq<i64>, w: int, samples: Seq<Sample>) -> Seq<i64>
    decreases samples.len(),
{
    if samples.len() == 0 {
        d
    } else {
        resolve_depths(resolved_depths(d, w, samples.drop_last()), w, samples.last())
    }
}

/// The colour grid `c` after the samples have been resolved in order
/// against the depth grid `d`.
pub open spec fn resolved_colors(c: Seq<u32>, d: Seq<i64>, w: int, samples: Seq<Sample>) -> Seq<
    u32,
>
    decreases samples.len(),
{
    if samples.len() == 0 {
        c
    } else {
        resolve_colors(
            resolved_colors(c, d, w, samples.drop_last()),
            resolved_depths(d, w, samples.drop_last()),
            w,
            samples.last(),
        )
    }
}

/// A grid of `len` depth keys on which nothing has been drawn.
pub open spec fn unseen(len: nat) -> Seq<i64> {
    Seq::new(len, |k: int| FARTHEST)
}

/// Resolving samples keeps both grids at their size.
pub proof fn lemma_resolved_len(c: Seq<u32>, d: Seq<i64>, w: int, samples: Seq<Sample>)
    ensures
        resolved_depths(d, w, samples).len() == d.len(),
        resolved_colors(c, d, w, samples).len() == c.len(),
    decreases samples.len(),
{
    if samples.len() > 0 {
        lemma_resolved_len(c, d, w, samples.drop_last());
    }
}

/// After a run of samples, a pixel holds the depth and the colour of a
/// nearest sample that fell on it: its depth key is no smaller than before
/// and no smaller than that of any sample on it, and either nothing nearer
/// than its former content arrived and it is unchanged, or its depth and
/// colour are those of one of the samples.
pub proof fn lemma_nearest_sample_wins(
    c: Seq<u32>,
    d: Seq<i64>,
    w: int,
    samples: Seq<Sample>,
    k: int,
)
    requires
        c.len() == d.len(),
        0 <= k < d.len(),
    ensures
        resolved_depths(d, w, samples)[k] >= d[k],
        forall|i: int|
            0 <= i < samples.len() && hits(#[trigger] samples[i], w, k) ==> samples[i].depth
                <= resolved_depths(d, w, samples)[k],
        (resolved_depths(d, w, samples)[k] == d[k] && resolved_colors(c, d, w, samples)[k] == c[k])
            || (exists|i: int|
            0 <= i < samples.len() && hits(#[trigger] samples[i], w, k) && samples[i].depth
                == resolved_depths(d, w, samples)[k] && samples[i].color == resolved_colors(
                c,
                d,
                w,
                samples,
            )[k] && samples[i].depth > d[k]),
    decreases samples.len(),
{
    if samples.len() > 0 {
        let init = samples.drop_last();
        let p = samples.last();
        lemma_nearest_sample_wins(c, d, w, init, k);
        lemma_resolved_len(c, d, w, init);
        let d1 = resolved_depths(d, w, init);
        let c1 = resolved_colors(c, d, w, init);
        let d2 = resolved_depths(d, w, samples);
        let c2 = resolved_colors(c, d, w, samples);
        assert forall|i: int| 0 <= i < samples.len() && hits(#[trigger] samples[i], w, k) implies
            samples[i].depth <= d2[k] by {
            if i < init.len() {
                assert(samples[i] == init[i]);
            }
        }
        if hits(p, w, k) && p.depth > d1[k] {
            let last = samples.len() - 1;
            assert(hits(samples[last], w, k) && samples[last].depth == d2[k] && samples[last].color
                == c2[k] && samples[last].depth > d[k]);
        } else if !(d1[k] == d[k] && c1[k] == c[k]) {
            let i = choose|i: int|
                0 <= i < init.len() && hits(#[trigger] init[i], w, k) && init[i].depth == d1[k]
                    && init[i].color == c1[k] && init[i].depth > d[k];
            assert(samples[i] == init[i]);
        }
    }
}

/// The outcome at a pixel does not depend on the order in which the samples
/// arrive: two runs that hold the same samples leave the same depth and the
/// same colour there, as long as equally near samples on that pixel agree on
/// their colour.
pub proof fn lemma_arrival_order_irrelevant(
    c: Seq<u32>,
    d: Seq<i64>,
    w: int,
    a: Seq<Sample>,
    b: Seq<Sample>,
    k: int,
)
    requires
        c.len() == d.len(),
        0 <= k < d.len(),
        forall|p: Sample| a.contains(p) <==> b.contains(p),
        forall|i: int, j: int|
            0 <= i < a.len() && 0 <= j < a.len() && hits(#[trigger] a[i], w, k) && hits(
                #[trigger] a[j],
                w,
                k,
            ) && a[i].depth == a[j].depth ==> a[i].color == a[j].color,
    ensures
        resolved_depths(d, w, a)[k] == resolved_depths(d, w, b)[k],
        resolved_colors(c, d, w, a)[k] == resolved_colors(c, d, w, b)[k],
{
    lemma_nearest_sample_wins(c, d, w, a, k);
    lemma_nearest_sample_wins(c, d, w, b, k);
    let da = resolved_depths(d, w, a)[k];
    let db = resolved_depths(d, w, b)[k];
    let ca = resolved_colors(c, d, w, a)[k];
    let cb = resolved_colors(c, d, w, b)[k];
    if !(da == d[k] && ca == c[k]) {
        let i = choose|i: int|
            0 <= i < a.len() && hits(#[trigger] a[i], w, k) && a[i].depth == da && a[i].color == ca
                && a[i].depth > d[k];
        assert(a.contains(a[i]));
        let j = choose|j: int| 0 <= j < b.len() && b[j] == a[i];
        assert(hits(b[j], w, k));
    }
    if !(db == d[k] && cb == c[k]) {
        let j = choose|j: int|
            0 <= j < b.len() && hits(#[trigger] b[j], w, k) && b[j].depth == db && b[j].color == cb
                && b[j].depth > d[k];
        assert(b.contains(b[j]));
        let i = choose|i: int| 0 <= i < a.len() && a[i] == b[j];
        assert(hits(a[i], w, k));
        if !(da == d[k] && ca == c[k]) {
            let i2 = choose|i: int|
                0 <= i < a.len() && hits(#[trigger] a[i], w, k) && a[i].depth == da && a[i].color
                    == ca && a[i].depth > d[k];
            assert(a[i].color == a[i2].color);
        }
    }
}

/// Rearranging a run of samples changes nothing at a pixel, as long as
/// equally near samples on that pixel agree on their colour.
pub proof fn lemma_rearranged_samples(
    c: Seq<u32>,
    d: Seq<i64>,
    w: int,
    a: Seq<Sample>,
    b: Seq<Sample>,
    k: int,
)
    requires
        c.len() == d.len(),
        0 <= k < d.len(),
        a.to_multiset() == b.to_multiset(),
        forall|i: int, j: int|
            0 <= i < a.len() && 0 <= j < a.len() && hits(#[trigger] a[i], w, k) && hits(
                #[trigger] a[j],
                w,
                k,
            ) && a[i].depth == a[j].depth ==> a[i].color == a[j].color,
    ensures
        resolved_depths(d, w, a)[k] == resolved_depths(d, w, b)[k],
        resolved_colors(c, d, w, a)[k] == resolved_colors(c, d, w, b)[k],
{
    a.to_multiset_ensures();
    b.to_multiset_ensures();
    assert forall|p: Sample| a.contains(p) <==> b.contains(p) by {
        assert(a.contains(p) <==> a.to_multiset().count(p) > 0);
        assert(b.contains(p) <==> b.to_multiset().count(p) > 0);
    }
    lemma_arrival_order_irrelevant(c, d, w, a, b, k);
}

/// A colour grid together with the depth key of what each pixel shows.
pub struct DepthFrame {
    pixels: PixelBuffer,
    depths: Vec<i64>,
}

impl DepthFrame {
    /// The colours, row by row.
    pub closed spec fn colors(&self) -> Seq<u32> {
        self.pixels@
    }

    /// The depth keys, row by row.
    pub closed spec fn depths(&self) -> Seq<i64> {
        self.depths@
    }

    pub closed spec fn spec_width(&self) -> usize {
        self.pixels.spec_width()
    }

    pub closed spec fn spec_height(&self) -> usize {
        self.pixels.spec_height()
    }

    /// Both grids hold exactly one entry per pixel.
    pub open spec fn wf(&self) -> bool {
        &&& self.colors().len() == self.spec_width() * self.spec_height()
        &&& self.depths().len() == self.colors().len()
    }

    /// A frame of `width * height` background pixels on which nothing has
    /// been drawn, or `None` when that many pixels cannot be counted in a
    /// `usize`.
    pub fn new(width: usize, height: usize) -> (r: Option<DepthFrame>)
        ensures
            r.is_some() <==> width * height <= usize::MAX,
            r matches Some(f) ==> f.wf() && f.spec_width() == width && f.spec_height() == height
                && f.colors() == blank((width * height) as nat) && f.depths() == unseen(
                (width * height) as nat,
            ),
    {
        match PixelBuffer::new(width, height) {
            Some(pixels) => {
                let n = pixels.pixels().len();
                let depths = vec![FARTHEST; n];
                assert(depths@ =~= unseen((width * height) as nat));
                Some(DepthFrame { pixels, depths })
            },
            None => None,
        }
    }

    #[verifier::when_used_as_spec(spec_width)]
    pub fn width(&self) -> (w: usize)
        ensures
            w == self.spec_width(),
    {
        self.pixels.width()
    }

    #[verifier::when_used_as_spec(spec_height)]
    pub fn height(&self) -> (h: usize)
        ensures
            h == self.spec_height(),
    {
        self.pixels.height()
    }

    /// The colour grid, ready to be handed to a display.
    pub fn pixels(&self) -> (p: &PixelBuffer)
        ensures
            p@ == self.colors(),
            p.width() == self.width(),
            p.height() == self.height(),
            self.wf() ==> p.wf(),
    {
        &self.pixels
    }

    /// Depth key of the pixel `(x, y)`, or `None` outside the grid.
    pub fn depth_at(&self, x: usize, y: usize) -> (r: Option<i64>)
        requires
            self.wf(),
        ensures
            r == if x < self.width() && y < self.height() {
                Some(self.depths()[y * self.width() + x])
            } else {
                None
            },
    {
        let w = self.pixels.width();
        if x < w && y < self.pixels.height() {
            proof {
                vstd::std_specs::vec::axiom_spec_len(&self.depths);
                lemma_grid_index(w as int, self.pixels.height() as int, x as int, y as int);
            }
            Some(self.depths[y * w + x])
        } else {
            None
        }
    }

    /// Starts a frame over: every pixel returns to the background colour
    /// and forgets its depth.
    pub fn clear(&mut self)
        requires
            old(self).wf(),
        ensures
            final(self).wf(),
            final(self).width() == old(self).width(),
            final(self).height() == old(self).height(),
            final(self).colors() == blank(old(self).colors().len()),
            final(self).depths() == unseen(old(self).depths().len()),
    {
        self.pixels.clear();
        let n = self.depths.len();
        let mut i: usize = 0;
        while i < n
            invariant
                i <= n,
                n == self.depths@.len(),
                self.depths@.len() == old(self).depths@.len(),
                self.pixels@ == blank(old(self).pixels@.len()),
                self.pixels.spec_width() == old(self).pixels.spec_width(),
                self.pixels.spec_height() == old(self).pixels.spec_height(),
                forall|k: int| 0 <= k < i ==> self.depths@[k] == FARTHEST,
            decreases n - i,
        {
            self.depths[i] = FARTHEST;
            i += 1;
        }
        assert(self.depths@ =~= unseen(old(self).depths().len()));
    }

    /// Resolves one sample against the frame. A sample that falls on a
    /// pixel of the grid and is strictly nearer than what the pixel holds
    /// replaces both its colour and its depth; any other sample is
    /// discarded. No depth key ever decreases.
    pub fn plot_sample(&mut self, p: Sample)
        requires
            old(self).wf(),
        ensures
            final(self).wf(),
            final(self).width() == old(self).width(),
            final(self).height() == old(self).height(),
            final(self).depths() == resolve_depths(old(self).depths(), old(self).width() as int, p),
            final(self).colors() == resolve_colors(
                old(self).colors(),
                old(self).depths(),
                old(self).width() as int,
                p,
            ),
            forall|k: int|
                0 <= k < old(self).depths().len() ==> old(self).depths()[k] <= #[trigger] final(
                    self
                ).depths()[k],
    {
        let w = self.pixels.width();
        let h = self.pixels.height();
        let ghost d0 = self.depths@;
        let ghost c0 = self.pixels@;
        proof {
            vstd::std_specs::vec::axiom_spec_len(&self.depths);
            assert forall|k: int| 0 <= k < d0.len() && hits(p, w as int, k) implies in_grid(
                w as int,
                h as int,
                p.x as int,
                p.y as int,
            ) && k == p.y * w + p.x by {
                lemma_index_in_grid(w as int, h as int, k);
            }
        }
        if 0 <= p.x && 0 <= p.y && (p.x as u64) < (w as u64) && (p.y as u64) < (h as u64) {
            proof {
                lemma_grid_index(w as int, h as int, p.x as int, p.y as int);
            }
            let idx = (p.y as usize) * w + (p.x as usize);
            if p.depth > self.depths[idx] {
                self.depths[idx] = p.depth;
                self.pixels.put_pixel(p.x as i64, p.y as i64, p.color);
                assert forall|k: int| 0 <= k < c0.len() implies self.pixels@[k] == resolve_colors(
                    c0,
                    d0,
                    w as int,
                    p,
                )[k] by {
                    if hits(p, w as int, k) {
                        assert(k == idx);
                    }
                }
            }
        }
        assert(self.depths@ =~= resolve_depths(d0, w as int, p));
        assert(self.pixels@ =~= resolve_colors(c0, d0, w as int, p));
    }

    /// Draws the outlines of the triangles on the colour grid, in the order
    /// given. Depth plays no part and the depth keys stay as they are.
    pub fn draw_outlines(&mut self, tris: &Vec<Triangle2d>)
        requires
            old(self).wf(),
        ensures
            final(self).wf(),
            final(self).width() == old(self).width(),
            final(self).height() == old(self).height(),
            final(self).colors() == outlines_image(
                old(self).colors(),
                old(self).width() as int,
                tris@,
            ),
            final(self).depths() == old(self).depths(),
    {
        draw_outlines(&mut self.pixels, tris);
    }

    /// Paints the triangles solid on the colour grid, in the order given.
    /// Depth plays no part and the depth keys stay as they are.
    pub fn draw_fills(&mut self, tris: &Vec<Triangle2d>)
        requires
            old(self).wf(),
        ensures
            final(self).wf(),
            final(self).width() == old(self).width(),
            final(self).height() == old(self).height(),
            final(self).colors() == fills_image(
                old(self).colors(),
                old(self).width() as int,
                tris@,
            ),
            final(self).depths() == old(self).depths(),
    {
        draw_fills(&mut self.pixels, tris);
    }

    /// Resolves a run of samples against the frame, one after another.
    pub fn plot_samples(&mut self, samples: &Vec<Sample>)
        requires
            old(self).wf(),
        ensures
            final(self).wf(),
            final(self).width() == old(self).width(),
            final(self).height() == old(self).height(),
            final(self).depths() == resolved_depths(
                old(self).depths(),
                old(self).width() as int,
                samples@,
            ),
            final(self).colors() == resolved_colors(
                old(self).colors(),
                old(self).depths(),
                old(self).width() as int,
                samples@,
            ),
            forall|k: int|
                0 <= k < old(self).depths().len() ==> old(self).depths()[k] <= #[trigger] final(
                    self
                ).depths()[k],
    {
        let ghost w = self.width() as int;
        let ghost d0 = self.depths();
        let ghost c0 = self.colors();
        let mut i: usize = 0;
        while i < samples.len()
            invariant
                i <= samples.len(),
                self.wf(),
                self.width() == old(self).width(),
                self.height() == old(self).height(),
                w == old(self).width(),
                d0 == old(self).depths(),
                c0 == old(self).colors(),
                self.depths() == resolved_depths(d0, w, samples@.take(i as int)),
                self.colors() == resolved_colors(c0, d0, w, samples@.take(i as int)),
                self.depths().len() == d0.len(),
                forall|k: int| 0 <= k < d0.len() ==> d0[k] <= #[trigger] self.depths()[k],
            decreases samples.len() - i,
        {
            proof {
                assert(samples@.take(i + 1).drop_last() =~= samples@.take(i as int));
                assert(samples@.take(i + 1).last() == samples@[i as int]);
            }
            self.plot_sample(samples[i]);
            i += 1;
        }
        assert(samples@.take(i as int) =~= samples@);
    }
}

} // verus!
