//! Escape-time fractal frames: partitioning a frame into horizontal bands and
//! turning per-point iteration counts into upscaled RGBA pixel data.

mod color;
mod frame;
mod render;

pub use color::{
    colors_of, image_rows, pixel_bytes, repeat, row_bytes, gray_level,
    ColorTransformation, GrayscaleColorTransformation, HsvBasedColorTransformation,
};
pub use frame::{band_count_of, band_height_of, band_start_of, ConfigError, FramePartConfig, Resolution};
pub use render::{all_accepted, render_frame_part, RenderError};
