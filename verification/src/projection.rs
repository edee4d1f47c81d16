//! Where a projected point lands on the screen, including the fallback for
//! points that cannot be projected.
//!
//! Depths are compared by their keys (see `crate::depth::depth_key`): the
//! larger key is the larger depth.

use vstd::prelude::*;

verus! {

/// Outcome of projecting a point of camera space.
#[derive(Clone, Copy, Debug, PartialEq, Eq)]
pub enum Projected {
    /// The point lies on the camera plane or behind it.
    Behind,
    /// The point projects to these screen coordinates, which may lie
    /// outside the visible area.
    At(i32, i32),
}

/// Half of a screen dimension as a screen coordinate; a dimension too large
/// for that gives the largest coordinate there is.
pub open spec fn half_extent(n: usize) -> int {
    if n / 2 <= i32::MAX {
        (n / 2) as int
    } else {
        i32::MAX as int
    }
}

/// The centre of a `width` by `height` screen.
pub open spec fn center_of(width: usize, height: usize) -> (int, int) {
    (half_extent(width), half_extent(height))
}

/// The screen position that stands for a projected point: its own
/// coordinates, or the centre of the screen for a point behind the camera.
pub open spec fn position_of(p: Projected, width: usize, height: usize) -> (int, int) {
    match p {
        Projected::Behind => center_of(width, height),
        Projected::At(x, y) => (x as int, y as int),
    }
}

/// The outcome for a point whose depth, after the camera offset, has the key
/// `depth`, given the key `near` of the smallest depth that still counts as
/// in front of the camera: a depth at or below `near` puts the point behind
/// the camera, and any other depth lets it keep the coordinates `(x, y)`
/// that the perspective divide gave it.
pub open spec fn outcome_of(depth: i64, near: i64, x: i32, y: i32) -> Projected {
    if depth <= near {
        Projected::Behind
    } else {
        Projected::At(x, y)
    }
}

/// A point at or behind the camera plane lands exactly on the centre of the
/// screen, whatever coordinates came with it.
pub proof fn lemma_behind_lands_on_center(
    depth: i64,
    near: i64,
    x: i32,
    y: i32,
    width: usize,
    height: usize,
)
    requires
        depth <= near,
    ensures
        position_of(outcome_of(depth, near, x, y), width, height) == center_of(width, height),
{
}

/// Decides between the two outcomes of a projection by the depth of the
/// point.
pub fn classify(depth: i64, near: i64, x: i32, y: i32) -> (p: Projected)
    ensures
        p == outcome_of(depth, near, x, y),
{
    if depth <= near {
        Projected::Behind
    } else {
        Projected::At(x, y)
    }
}

fn half_extent_exec(n: usize) -> (r: i32)
    ensures
        r == half_extent(n),
{
    let half = n / 2;
    if half <= i32::MAX as usize {
        half as i32
    } else {
        i32::MAX
    }
}

/// The centre of a `width` by `height` screen.
pub fn screen_center(width: usize, height: usize) -> (r: (i32, i32))
    ensures
        (r.0 as int, r.1 as int) == center_of(width, height),
{
    (half_extent_exec(width), half_extent_exec(height))
}

/// The screen position of a projected point. A point behind the camera is
/// placed at the centre of the screen, whatever its coordinates were.
pub fn screen_position(p: Projected, width: usize, height: usize) -> (r: (i32, i32))
    ensures
        (r.0 as int, r.1 as int) == position_of(p, width, height),
        p == Projected::Behind ==> (r.0 as int, r.1 as int) == center_of(width, height),
{
    match p {
        Projected::Behind => screen_center(width, height),
        Projected::At(x, y) => (x, y),
    }
}

} // verus!
