//! A software rasterizer core: pixel buffers, triangle coverage, line
//! stepping and depth resolution, all on integer pixel coordinates; the
//! structure of mesh files; and the steps that draw a finished frame on a
//! text terminal.

pub mod console;
pub mod depth;
pub mod fragment;
pub mod mesh_file;
pub mod raster;
pub mod render_target;
