//! Extraction of administrative places (country, region, city) from an
//! OpenStreetMap-style element graph: reference closure, ring assembly,
//! geometry building, hierarchy resolution and dataset compaction.
pub mod model;
pub mod ring;
pub mod geometry;
pub mod center;
pub mod closure;
pub mod hierarchy;
