//! The CUDA backend: which buffers a kernel needs, what is launched on them and
//! in which order.
//!
//! A [`plan::Plan`] is a list of steps for a driver to carry out. It decides
//! everything that the driver is told: sizes, arguments, launch geometry. No
//! step of a plan reads a buffer that an earlier step has not filled.

pub mod context;
pub mod plan;
pub mod launch;
pub mod elementwise;
pub mod analysis;
pub mod geometry;
pub mod blur;
pub mod guided;
pub mod grain;
