//! Core engine of an interactive image viewer: a composable set of pixel
//! transforms over packed RGBA8 frame buffers, a whole-image executor for
//! shape-changing operations, and a single-pass statistics engine.

pub mod buffer;
pub mod hsv;
pub mod executor;
pub mod ops;
pub mod pipeline;
pub mod settings;
pub mod stats;
pub mod pixel;
