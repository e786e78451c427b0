//! Clustering-and-routing engine: tour construction, exact incremental
//! scoring with hill climbing, and per-group edge extraction.
pub mod geometry;
pub mod rng;
pub mod score;
pub mod tour;
pub mod union_find;
pub mod edges;
pub mod protocol;
