//! The pixel buffer: a row-major grid of packed `0xRRGGBB` colours.

use vstd::prelude::*;
use vstd::arithmetic::div_mod::{lemma_fundamental_div_mod, lemma_fundamental_div_mod_converse};

verus! {

/// Background colour of a cleared buffer.
pub const BLACK: u32 = 0x000000;

pub const WHITE: u32 = 0xFFFFFF;

pub const RED: u32 = 0xFF0000;

pub const GREEN: u32 = 0x00FF00;

pub const BLUE: u32 = 0x0000FF;

pub const YELLOW: u32 = 0xFFFF00;

/// Column of the pixel stored at linear index `k` in a grid `w` pixels wide.
pub open spec fn col_of(k: int, w: int) -> int {
    k % w
}

/// Row of the pixel stored at linear index `k` in a grid `w` pixels wide.
pub open spec fn row_of(k: int, w: int) -> int {
    k / w
}

/// Whether `(x, y)` names a pixel of a `w` by `h` grid.
pub open spec fn in_grid(w: int, h: int, x: int, y: int) -> bool {
    0 <= x < w && 0 <= y < h
}

/// The grid `s` with the pixel at `(x, y)` set to `color`. A position that
/// names no pixel of the grid leaves it as it was.
pub open spec fn plot(s: Seq<u32>, w: int, x: int, y: int, color: u32) -> Seq<u32> {
    Seq::new(
        s.len(),
        |k: int|
            if col_of(k, w) == x && row_of(k, w) == y {
                color
            } else {
                s[k]
            },
    )
}

/// A grid of `len` background pixels.
pub open spec fn blank(len: nat) -> Seq<u32> {
    Seq::new(len, |k: int| BLACK)
}

/// Every linear index below `w * h` names a pixel inside the grid, and that
/// pixel's coordinates give the index back.
pub proof fn lemma_index_in_grid(w: int, h: int, k: int)
    requires
        0 <= k < w * h,
        0 <= w,
        0 <= h,
    ensures
        in_grid(w, h, col_of(k, w), row_of(k, w)),
        k == row_of(k, w) * w + col_of(k, w),
{
    assert(w > 0) by (nonlinear_arith)
        requires
            0 <= k < w * h,
            0 <= w,
    ;
    lemma_fundamental_div_mod(k, w);
    let q = k / w;
    let r = k % w;
    assert(w * q == q * w) by (nonlinear_arith);
    assert(0 <= q < h) by (nonlinear_arith)
        requires
            k == q * w + r,
            0 <= r < w,
            0 <= k < w * h,
    ;
}

/// The pixel `(x, y)` of a grid sits at linear index `y * w + x`, which lies
/// inside the grid's storage and maps back to `(x, y)`.
pub proof fn lemma_grid_index(w: int, h: int, x: int, y: int)
    requires
        in_grid(w, h, x, y),
    ensures
        0 <= y * w <= y * w + x < w * h,
        col_of(y * w + x, w) == x,
        row_of(y * w + x, w) == y,
{
    assert(0 <= y * w <= y * w + x < w * h) by (nonlinear_arith)
        requires
            0 <= x < w,
            0 <= y < h,
    ;
    lemma_fundamental_div_mod_converse(y * w + x, w, y, x);
}

/// Plotting at a position outside the grid changes nothing.
pub proof fn lemma_plot_outside(s: Seq<u32>, w: int, h: int, x: int, y: int, color: u32)
    requires
        0 <= w,
        0 <= h,
        s.len() == w * h,
        !in_grid(w, h, x, y),
    ensures
        plot(s, w, x, y, color) == s,
{
    assert forall|k: int| 0 <= k < s.len() implies !(col_of(k, w) == x && row_of(k, w) == y) by {
        lemma_index_in_grid(w, h, k);
    }
    assert(plot(s, w, x, y, color) =~= s);
}

/// Plotting at a position inside the grid replaces exactly the entry at
/// `y * w + x`.
pub proof fn lemma_plot_inside(s: Seq<u32>, w: int, h: int, x: int, y: int, color: u32)
    requires
        s.len() == w * h,
        in_grid(w, h, x, y),
    ensures
        0 <= y * w <= y * w + x < s.len(),
        plot(s, w, x, y, color) == s.update(y * w + x, color),
{
    lemma_grid_index(w, h, x, y);
    assert forall|k: int| 0 <= k < s.len() implies ((col_of(k, w) == x && row_of(k, w) == y) <==> k
        == y * w + x) by {
        lemma_index_in_grid(w, h, k);
    }
    assert(plot(s, w, x, y, color) =~= s.update(y * w + x, color));
}

/// A `width` by `height` grid of packed colours, stored row by row: the pixel
/// `(x, y)` lives at linear index `y * width + x`.
pub struct PixelBuffer {
    width: usize,
    height: usize,
    data: Vec<u32>,
}

impl View for PixelBuffer {
    type V = Seq<u32>;

    closed spec fn view(&self) -> Seq<u32> {
        self.data@
    }
}

impl PixelBuffer {
    pub closed spec fn spec_width(&self) -> usize {
        self.width
    }

    pub closed spec fn spec_height(&self) -> usize {
        self.height
    }

    /// The storage holds exactly one entry per pixel.
    pub open spec fn wf(&self) -> bool {
        self@.len() == self.spec_width() * self.spec_height()
    }

    /// Colour of the pixel `(x, y)`.
    pub open spec fn at(&self, x: int, y: int) -> u32 {
        self@[y * self.spec_width() + x]
    }

    /// A buffer of `width * height` background pixels, or `None` when that
    /// many pixels cannot be counted in a `usize`.
    pub fn new(width: usize, height: usize) -> (r: Option<PixelBuffer>)
        ensures
            r.is_some() <==> width * height <= usize::MAX,
            r matches Some(b) ==> b.wf() && b.spec_width() == width && b.spec_height() == height
                && b@ == blank((width * height) as nat),
    {
        match width.checked_mul(height) {
            Some(n) => {
                let data = vec![BLACK; n];
                assert(data@ =~= blank((width * height) as nat));
                Some(PixelBuffer { width, height, data })
            },
            None => None,
        }
    }

    /// Wraps existing storage. The storage must hold exactly
    /// `width * height` entries; any other length is refused.
    pub fn from_vec(width: usize, height: usize, data: Vec<u32>) -> (r: Option<PixelBuffer>)
        ensures
            r.is_some() <==> data@.len() == width * height,
            r matches Some(b) ==> b.wf() && b.spec_width() == width && b.spec_height() == height
                && b@ == data@,
    {
        let len = data.len();
        match width.checked_mul(height) {
            Some(n) => {
                if len == n {
                    Some(PixelBuffer { width, height, data })
                } else {
                    None
                }
            },
            None => None,
        }
    }

    #[verifier::when_used_as_spec(spec_width)]
    pub fn width(&self) -> (w: usize)
        ensures
            w == self.spec_width(),
    {
        self.width
    }

    #[verifier::when_used_as_spec(spec_height)]
    pub fn height(&self) -> (h: usize)
        ensures
            h == self.spec_height(),
    {
        self.height
    }

    /// The pixels in row-major order, ready to be handed to a display.
    pub fn pixels(&self) -> (s: &Vec<u32>)
        ensures
            s@ == self@,
    {
        &self.data
    }

    /// Colour of the pixel `(x, y)`, or `None` outside the grid.
    pub fn get(&self, x: usize, y: usize) -> (r: Option<u32>)
        requires
            self.wf(),
        ensures
            r == if x < self.width() && y < self.height() {
                Some(self.at(x as int, y as int))
            } else {
                None
            },
    {
        if x < self.width && y < self.height {
            proof {
                vstd::std_specs::vec::axiom_spec_len(&self.data);
                lemma_grid_index(self.width as int, self.height as int, x as int, y as int);
            }
            Some(self.data[y * self.width + x])
        } else {
            None
        }
    }

    /// Resets every pixel to the background colour, whatever it held.
    pub fn clear(&mut self)
        requires
            old(self).wf(),
        ensures
            final(self).wf(),
            final(self).width() == old(self).width(),
            final(self).height() == old(self).height(),
            final(self)@ == blank(old(self)@.len()),
    {
        let n = self.data.len();
        let mut i: usize = 0;
        while i < n
            invariant
                i <= n,
                n == self.data@.len(),
                self.data@.len() == old(self).data@.len(),
                self.width == old(self).width,
                self.height == old(self).height,
                forall|k: int| 0 <= k < i ==> self.data@[k] == BLACK,
            decreases n - i,
        {
            self.data[i] = BLACK;
            i += 1;
        }
        assert(self.data@ =~= blank(old(self)@.len()));
    }

    /// Writes `color` at `(x, y)` when that position lies inside the grid;
    /// any other position is clipped away and nothing changes.
    pub fn put_pixel(&mut self, x: i64, y: i64, color: u32)
        requires
            old(self).wf(),
        ensures
            final(self).wf(),
            final(self).width() == old(self).width(),
            final(self).height() == old(self).height(),
            final(self)@ == plot(old(self)@, old(self).width() as int, x as int, y as int, color),
    {
        if 0 <= x && 0 <= y && (x as u64) < (self.width as u64) && (y as u64) < (self.height as u64) {
            proof {
                vstd::std_specs::vec::axiom_spec_len(&self.data);
                lemma_plot_inside(
                    self.data@,
                    self.width as int,
                    self.height as int,
                    x as int,
                    y as int,
                    color,
                );
            }
            let idx = (y as usize) * self.width + (x as usize);
            self.data[idx] = color;
        } else {
            proof {
                lemma_plot_outside(
                    self.data@,
                    self.width as int,
                    self.height as int,
                    x as int,
                    y as int,
                    color,
                );
            }
        }
    }
}

/// A fresh frame: `width * height` background pixels, or `None` when that
/// many pixels cannot be counted in a `usize`.
pub fn reset_screen(width: usize, height: usize) -> (r: Option<PixelBuffer>)
    ensures
        r.is_some() <==> width * height <= usize::MAX,
        r matches Some(b) ==> b.wf() && b.width() == width && b.height() == height && b@ == blank(
            (width * height) as nat,
        ),
{
    PixelBuffer::new(width, height)
}

} // verus!
