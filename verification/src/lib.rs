//! A broad-phase spatial index for entities in unbounded 2D space.
//!
//! Entities are bucketed into a uniform grid of fixed-size cells; a region
//! query returns every entity in every cell the region overlaps (a
//! conservative superset of the entities inside the exact bounds).

pub mod partition;
