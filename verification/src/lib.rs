//! The dragon curve, drawn in software.
//!
//! The library folds the curve, rasterises it into an RGBA canvas, reduces the canvas to
//! palette indices, encodes the recorded frames as a GIF stream, and decides what the
//! animation does on every key press and every tick.
pub mod canvas;
pub mod curve;
pub mod draw;
pub mod gif_stream;
pub mod line;
pub mod model;
pub mod palette;
pub mod quantise;
pub mod text;
