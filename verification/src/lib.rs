//! Streaming of square terrain chunks around a moving observer.
//!
//! The crate holds the integer core of a terrain engine: chunk coordinates,
//! the nearest-first set of chunks an observer wants, level-of-detail
//! selection, the registry that tracks every chunk through its life cycle,
//! the index layout of a chunk's vertex grid, and the byte raster behind a
//! heightmap. Every function is verified against the contract it carries,
//! but one: decoding an image is left to the `image` crate.

pub mod config;
pub mod coord;
pub mod desired;
pub mod grid;
pub mod heightmap;
pub mod lod;
pub mod range;
pub mod registry;
pub mod streaming;
