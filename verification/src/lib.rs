//! Image kernels for raw development, with the order of every operation
//! fixed and stated.

pub mod error;
pub mod text;
pub mod single;
pub mod smoothing;
pub mod amounts;
pub mod texture;
pub mod hues;
pub mod cubics;
pub mod rotation;
pub mod points;
pub mod responses;
pub mod scaling;
pub mod bells;
pub mod shoulder;
pub mod double;
pub mod arith;
pub mod raster;
pub mod allocation;
pub mod geometry;
pub mod counting;
pub mod histogram;
pub mod remark;
pub mod integral;
pub mod film_grain;
pub mod quantize;
pub mod rounding;
pub mod turning;
pub mod bw;
pub mod exposure;
pub mod encode;
pub mod highlight_rolloff;
pub mod shadow_rolloff;
pub mod lut;
pub mod hot_pixels;
pub mod local_contrast;
pub mod denoise;
pub mod blur;
pub mod resampling;
pub mod widths;
pub mod evenness;
pub mod sharpen;
pub mod glow;
pub mod cuda;
