//! Text-to-image rendering: a fixed 5x5 bitmap font, greedy word wrapping
//! with hard column-width limits, multi-column line placement onto a boolean
//! pixel canvas, and palette-indexed raster encoding.

pub mod config;
pub mod font;
pub mod formatter;
pub mod layout;
pub mod raster;
pub mod render;
