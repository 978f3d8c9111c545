//! duckforge: the logic of a small 2D/3D game engine, verified.
//!
//! The library holds what the engine decides and computes on whole numbers:
//! colors and their packing, the pixel font, the random number generator,
//! keyboard state, the pixel grid of the canvas with its line drawing and
//! BMP encoding, the triangle layout of the built-in meshes, and the
//! bookkeeping of bodies in a physics world.
pub mod canvas;
pub mod color;
pub mod engine;
pub mod font;
pub mod gpu;
pub mod input;
pub mod physics;
pub mod render3d;
pub mod rng;
