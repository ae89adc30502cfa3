//! A pluggable rendering host library: a pixel-buffer rendering model with
//! run-length compression for a text display, rasterization primitives, and
//! the capability-dispatch policy used to load interchangeable backend
//! modules at runtime.

pub mod graphics;
pub mod line;
pub mod plugin;
pub mod rle;
pub mod sdl2_input;
pub mod tui_graphics;
