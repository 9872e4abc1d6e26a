//! Verified core of a multi-output screen-capture pipeline.
//!
//! The crate covers the logic of taking a screenshot on a compositor-managed
//! desktop: parsing a requested capture region, tracking per-output geometry
//! learned from protocol events, driving one capture as a small state machine,
//! converting raw stride-padded BGR(X) buffers to tightly packed RGBA, and
//! compositing the per-output images onto one canvas with optional cropping,
//! and handing the result to a PNG encoder. The protocol transport and all
//! file handling live outside the library and exchange plain values with it.

pub mod capture;
pub mod compose;
pub mod convert;
pub mod encode;
pub mod error;
pub mod geometry;
pub mod parse;
pub mod raster;
pub mod registry;
