//! One frame from start to hand-over: cleared, populated from the scene's
//! primitives, then released for display.

use vstd::prelude::*;
use crate::buffer::blank;
use crate::depth::{resolved_colors, resolved_depths, unseen, DepthFrame, Sample};
use crate::painter::{fills_image, outlines_image, Triangle2d};

verus! {

/// Where a frame stands on its way to the display.
#[derive(Clone, Copy, Debug, PartialEq, Eq)]
pub enum Stage {
    /// Between frames: the buffers hold whatever the last frame left.
    Idle,
    /// Reset to the background, nothing drawn yet.
    Cleared,
    /// Every primitive of the frame has been drawn.
    Populated,
    /// Released for display.
    Ready,
}

/// Takes a frame through its stages, one step at a time and never out of
/// turn: `Idle`, `Cleared`, `Populated`, `Ready`, and back to `Idle` for the
/// next frame. A step asked for at the wrong stage is refused and changes
/// nothing.
pub struct Compositor {
    stage: Stage,
    frame: DepthFrame,
}

impl Compositor {
    pub closed spec fn spec_stage(&self) -> Stage {
        self.stage
    }

    /// The colours, row by row.
    pub closed spec fn colors(&self) -> Seq<u32> {
        self.frame.colors()
    }

    /// The depth keys, row by row.
    pub closed spec fn depths(&self) -> Seq<i64> {
        self.frame.depths()
    }

    pub closed spec fn spec_width(&self) -> usize {
        self.frame.spec_width()
    }

    pub closed spec fn spec_height(&self) -> usize {
        self.frame.spec_height()
    }

    /// Both grids hold exactly one entry per pixel.
    pub open spec fn wf(&self) -> bool {
        &&& self.colors().len() == self.spec_width() * self.spec_height()
        &&& self.depths().len() == self.colors().len()
    }

    /// Whether two compositors hold the same grids, whatever their stages.
    pub open spec fn same_grids(&self, other: &Compositor) -> bool {
        &&& self.colors() == other.colors()
        &&& self.depths() == other.depths()
        &&& self.spec_width() == other.spec_width()
        &&& self.spec_height() == other.spec_height()
    }

    /// An idle compositor for frames of `width * height` pixels, or `None`
    /// when that many pixels cannot be counted in a `usize`.
    pub fn new(width: usize, height: usize) -> (r: Option<Compositor>)
        ensures
            r.is_some() <==> width * height <= usize::MAX,
            r matches Some(c) ==> c.wf() && c.spec_stage() == Stage::Idle && c.spec_width()
                == width && c.spec_height() == height && c.colors() == blank(
                (width * height) as nat,
            ) && c.depths() == unseen((width * height) as nat),
    {
        match DepthFrame::new(width, height) {
            Some(frame) => Some(Compositor { stage: Stage::Idle, frame }),
            None => None,
        }
    }

    #[verifier::when_used_as_spec(spec_stage)]
    pub fn stage(&self) -> (s: Stage)
        ensures
            s == self.spec_stage(),
    {
        self.stage
    }

    #[verifier::when_used_as_spec(spec_width)]
    pub fn width(&self) -> (w: usize)
        ensures
            w == self.spec_width(),
    {
        self.frame.width()
    }

    #[verifier::when_used_as_spec(spec_height)]
    pub fn height(&self) -> (h: usize)
        ensures
            h == self.spec_height(),
    {
        self.frame.height()
    }

    /// Begins a frame. From `Idle`, every pixel is reset to the background
    /// colour and forgets its depth, and the frame is `Cleared`.
    pub fn clear(&mut self) -> (done: bool)
        requires
            old(self).wf(),
        ensures
            final(self).wf(),
            final(self).width() == old(self).width(),
            final(self).height() == old(self).height(),
            done == (old(self).stage() == Stage::Idle),
            done ==> final(self).stage() == Stage::Cleared && final(self).colors() == blank(
                old(self).colors().len(),
            ) && final(self).depths() == unseen(old(self).depths().len()),
            !done ==> final(self).stage() == old(self).stage() && final(self).same_grids(old(self)),
    {
        match self.stage {
            Stage::Idle => {
                self.frame.clear();
                self.stage = Stage::Cleared;
                true
            },
            _ => false,
        }
    }

    /// Populates a `Cleared` frame with the outlines of the triangles, drawn
    /// in the order given with no regard to depth.
    pub fn populate_outlines(&mut self, tris: &Vec<Triangle2d>) -> (done: bool)
        requires
            old(self).wf(),
        ensures
            final(self).wf(),
            final(self).width() == old(self).width(),
            final(self).height() == old(self).height(),
            done == (old(self).stage() == Stage::Cleared),
            done ==> final(self).stage() == Stage::Populated && final(self).colors()
                == outlines_image(old(self).colors(), old(self).width() as int, tris@)
                && final(self).depths() == old(self).depths(),
            !done ==> final(self).stage() == old(self).stage() && final(self).same_grids(old(self)),
    {
        match self.stage {
            Stage::Cleared => {
                self.frame.draw_outlines(tris);
                self.stage = Stage::Populated;
                true
            },
            _ => false,
        }
    }

    /// Populates a `Cleared` frame with the solid triangles, painted in the
    /// order given with no regard to depth.
    pub fn populate_fills(&mut self, tris: &Vec<Triangle2d>) -> (done: bool)
        requires
            old(self).wf(),
        ensures
            final(self).wf(),
            final(self).width() == old(self).width(),
            final(self).height() == old(self).height(),
            done == (old(self).stage() == Stage::Cleared),
            done ==> final(self).stage() == Stage::Populated && final(self).colors() == fills_image(
                old(self).colors(),
                old(self).width() as int,
                tris@,
            ) && final(self).depths() == old(self).depths(),
            !done ==> final(self).stage() == old(self).stage() && final(self).same_grids(old(self)),
    {
        match self.stage {
            Stage::Cleared => {
                self.frame.draw_fills(tris);
                self.stage = Stage::Populated;
                true
            },
            _ => false,
        }
    }

    /// Populates a `Cleared` frame with point samples, each resolved by
    /// depth against what its pixel already holds.
    pub fn populate_samples(&mut self, samples: &Vec<Sample>) -> (done: bool)
        requires
            old(self).wf(),
        ensures
            final(self).wf(),
            final(self).width() == old(self).width(),
            final(self).height() == old(self).height(),
            done == (old(self).stage() == Stage::Cleared),
            done ==> final(self).stage() == Stage::Populated && final(self).colors()
                == resolved_colors(
                old(self).colors(),
                old(self).depths(),
                old(self).width() as int,
                samples@,
            ) && final(self).depths() == resolved_depths(
                old(self).depths(),
                old(self).width() as int,
                samples@,
            ),
            !done ==> final(self).stage() == old(self).stage() && final(self).same_grids(old(self)),
    {
        match self.stage {
            Stage::Cleared => {
                self.frame.plot_samples(samples);
                self.stage = Stage::Populated;
                true
            },
            _ => false,
        }
    }

    /// Releases a `Populated` frame for display. The grids stay as they are.
    pub fn finish(&mut self) -> (done: bool)
        ensures
            done == (old(self).stage() == Stage::Populated),
            final(self).stage() == if done {
                Stage::Ready
            } else {
                old(self).stage()
            },
            final(self).same_grids(old(self)),
    {
        match self.stage {
            Stage::Populated => {
                self.stage = Stage::Ready;
                true
            },
            _ => false,
        }
    }

    /// The finished frame in row-major order. Only a `Ready` frame is
    /// handed out.
    pub fn present(&self) -> (r: Option<&Vec<u32>>)
        ensures
            r.is_some() <==> self.stage() == Stage::Ready,
            r matches Some(p) ==> p@ == self.colors(),
    {
        match self.stage {
            Stage::Ready => Some(self.frame.pixels().pixels()),
            _ => None,
        }
    }

    /// Returns a `Ready` frame to `Idle`, so that the next frame can begin.
    /// The grids stay as they are until they are cleared.
    pub fn recycle(&mut self) -> (done: bool)
        ensures
            done == (old(self).stage() == Stage::Ready),
            final(self).stage() == if done {
                Stage::Idle
            } else {
                old(self).stage()
            },
            final(self).same_grids(old(self)),
    {
        match self.stage {
            Stage::Ready => {
                self.stage = Stage::Idle;
                true
            },
            _ => false,
        }
    }
}

} // verus!
