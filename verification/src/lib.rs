//! Maze solving on raster images: a one-pass graph builder that compresses
//! corridors into a sparse graph of junctions, and a family of verified
//! search strategies over that graph.

pub mod algorithms;
pub mod graph;
pub mod img;
pub mod maze;
pub mod node;
pub mod plan;
pub mod utils;
