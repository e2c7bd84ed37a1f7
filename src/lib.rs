//! Integer core of a small software renderer: a rasterizer that records
//! pixel writes, back-to-front drawing of a frame's triangles, a reader for
//! the record structure of Wavefront OBJ meshes and the per-frame state of
//! a render session.

pub mod arith;
pub mod depth;
pub mod draw;
pub mod frame;
pub mod obj;
pub mod session;
