//! A glyph atlas: a skyline rectangle packer that places glyph bitmaps into one
//! shared pixel buffer, together with the small rules of the renderer that
//! uses it: where its resources lie, which shader a resource holds, what an
//! event of the window does to the game, and how a failure is reported.

pub mod arith;
pub mod atlas;
pub mod bitmap;
pub mod blit;
pub mod game;
pub mod laws;
pub mod packing;
pub mod region;
pub mod report;
pub mod resources;
pub mod shaders;
pub mod skyline;
