//! Incremental clustering of geographic point markers for map rendering.
//!
//! Markers are grouped greedily: each marker joins the cluster whose center is
//! nearest, provided it lies inside that cluster's footprint, and founds a new
//! cluster otherwise. An engine keeps the markers of one map and their
//! clusters, clusters only the markers that are new to the view, and starts
//! afresh when the zoom level changes.
//!
//! Coordinates are binary64 numbers held by their bit patterns. They are
//! compared here and computed elsewhere: the numeric geometry (distance,
//! projection, mean) is supplied by the caller, and the grouping is proved
//! for whatever the geometry gives.

pub mod bounds;
pub mod cluster;
pub mod clustering;
pub mod coincident;
pub mod config;
pub mod counting;
pub mod double;
pub mod engine;
pub mod engine_laws;
pub mod freshness;
pub mod geometry;
pub mod identity;
pub mod marker;
pub mod members;
pub mod nearest;
pub mod store;
