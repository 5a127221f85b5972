//! Grid geometry, supercover ray walks over grayscale maps, and the wire frames
//! that a robot simulation sends to its viewers.

pub mod geometry;
pub mod supercover;
pub mod segment;
pub mod raster;
pub mod server;
pub mod map_feed;
