//! A small 2D rasterizer: a pixel buffer, integer line drawing and
//! scanline polygon filling, with every operation specified over a
//! mathematical model of the picture.
//!
//! - [`canvas`]: the model, a grid of packed colors, and what plotting,
//!   painting and clearing mean on it.
//! - [`color`]: RGB colors, packed and unpacked.
//! - [`framebuffer`]: the buffer that holds a canvas.
//! - [`line_impl`]: straight lines, with their pixels in closed form.
//! - [`polygon`]: outlines and even-odd fills of polygons.
//! - [`bmp`]: the picture as the bytes of a bitmap file.

pub mod bmp;
pub mod canvas;
pub mod color;
pub mod framebuffer;
pub mod line_impl;
pub mod polygon;
