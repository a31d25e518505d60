//! A persistent density map of world-coordinate observations and the image
//! pyramid rendered from it.
//!
//! Observations are routed by key to a map, and within the map to a tile of
//! 1024x1024 cells whose bits record which cells were ever observed. Each
//! tile renders to a level-0 raster; each further level is composed from
//! the rasters of the level below, halved by averaging in linear light.

pub mod collector;
pub mod color;
pub mod error;
pub mod image;
pub mod layout;
pub mod png_layout;
pub mod spatial_map;
pub mod tile;

pub use collector::DataCollector;
pub use error::Error;
