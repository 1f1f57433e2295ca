//! Verified core of a viewer for the poly-splat + Weighted Sum Rendering gaussian model.

pub mod bits;
pub mod cli;
pub mod offscreen;
pub mod order;
pub mod ply;
pub mod scene;
pub mod scene_file;
pub mod text;
pub mod upload;
pub mod viewer;
