//! Rusty ray tracer: the verified core.
//!
//! This library holds the integer and structural logic of a small path tracer:
//! how the rays of an image are handed out to worker threads and mapped onto
//! pixels, how the triangles of a scene are assembled from mesh index data,
//! how materials and settings are classified, and the bounding volume
//! hierarchy that every intersection test walks.
pub mod bvh;
pub mod color;
pub mod objects;
pub mod render;
pub mod scene;
pub mod settings;
mod text;
pub mod utilities;
