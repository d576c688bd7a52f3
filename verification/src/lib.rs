//! Corridor join: corridor rings built from offset curves, a bounding-box
//! index over candidate segments, and the matching loop that ties each
//! corridor to the segments crossing it.
//!
//! Coordinates are planar, in metres. The library never does arithmetic on
//! them: it carries them as bit patterns and hands them to the geometry
//! routines of `geo` and `rstar`.

pub mod geometry;
pub mod corridor;
pub mod index;
pub mod join;
pub mod load;
pub mod reproject;
