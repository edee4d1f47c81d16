//! A small software rasterizer: clipped lines, wireframe and filled
//! triangles, squares and depth-resolved point samples drawn into a
//! row-major buffer of packed 24-bit colours.
//!
//! Every drawing routine states the exact buffer it leaves behind as a
//! function of the buffer it was given, so painter-order composition and
//! depth-resolved composition can both be reasoned about pixel by pixel.
//!
//! Everything here works on integers. Rotation and the perspective divide
//! are floating-point work and belong to the caller, who hands over screen
//! coordinates and depth keys.

pub mod buffer;
pub mod projection;
pub mod line;
pub mod triangle;
pub mod shapes;
pub mod painter;
pub mod depth;
pub mod frame;
