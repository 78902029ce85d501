//! Turns the texture images of a model tree into PNG files under a fixed
//! texture directory, and rewrites the image references inside the meshes
//! to match.
//!
//! The library holds the decisions and the text transforms, each with its
//! contract; reading and writing files, progress display and the image codec
//! are left to the program that drives it.

pub mod cli;
pub mod image_processing;
pub mod laws;

pub mod mesh_update;
pub mod scan;
pub mod text;
