//! Renderings of a grid: SVG, an HTML inspector, terminal colours, raster images and sound.
pub mod svg;
pub mod terminal;
pub mod audio;
pub mod html;
pub mod image;
