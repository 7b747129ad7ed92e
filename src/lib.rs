pub mod bvh;
pub mod error;
pub mod job;
pub mod perlin;
mod random;
pub mod texture;
pub mod traversal;
