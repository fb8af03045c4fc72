//! The control logic of a small path tracer for scenes of objects under a
//! pinhole camera: the scene with its objects in registration order, the
//! single-slot cache of render parameters, the intersection resolver, the
//! light-transport loop, image assembly and the plain-text raster format.
//!
//! Every quantity here is an integer. The real-valued geometry is the
//! caller's: it hands in, as values or as functions to call, what the
//! decisions depend on: rounded sizes, distance keys that order as the
//! distances do, what a ray meets, and scaled colour channels.

pub mod color;
pub mod create_img_arr;
pub mod error;
pub mod hit;
pub mod image_generators_catalog;
pub mod path;
pub mod ppm;
pub mod render;
pub mod scene;
