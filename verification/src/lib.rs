//! A software renderer's integer core: pixel-level drawing into a flat RGBA
//! byte buffer, the per-frame screen-space pipeline that feeds it, and the
//! loader that turns mesh text into triangles.
//!
//! Every function here is verified against a contract stated over
//! mathematical models: a frame is a `Seq<u8>`, a drawn shape is a
//! `Set<(int, int)>` of pixel positions, a mesh text is a sequence of entries.
//!
//! - [`geometry`]: integer points and sizes.
//! - [`frame`]: the model of the frame buffer and of painting a set of pixels.
//! - [`segment`]: which pixels a line consists of.
//! - [`coverage`]: which pixels a filled triangle consists of.
//! - [`draw`]: clearing the buffer and drawing pixels, lines and triangles.
//! - [`pipeline`]: one frame, from projected triangles to the finished buffer.
//! - [`text`]: lines, words, decimal numbers and indices in the bytes of a text.
//! - [`mesh`]: vertices, faces and the triangles that they amount to.
//! - [`camera`]: the direction that the held movement keys ask for.
//!
//! Arithmetic on coordinates in space and on angles is done in floating
//! point and is left to the caller: projecting points, telling which
//! triangles face the camera, and moving and turning the camera.

pub mod geometry;
pub mod frame;
pub mod segment;
pub mod coverage;
pub mod draw;
pub mod pipeline;
pub mod text;
pub mod mesh;
pub mod camera;
