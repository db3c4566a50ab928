//! Topology of a two-dimensional deformable-surface mesh.
//!
//! From vertex connectivity and the polar angles of each vertex's neighbours
//! the crate derives, for every vertex, its angularly ordered neighbour ring,
//! its classification as interior, border or non-manifold, the canonical
//! triangle set, and a distance-constraint table that matches the edges.
//!
//! Geometry enters only as integers: coordinates are carried as IEEE-754 bit
//! patterns that are never interpreted, and angles arrive as order-preserving
//! integer codes measured by the caller.
//!
//! The crate also reads the lines of an authored mesh file into words and
//! records, and leaves the numbers in them to the caller.

pub mod edge;
pub mod ring;
pub mod graph;
pub mod constraints;
pub mod classify;
pub mod report;
pub mod sweep;
pub mod rebuild;
pub mod reconcile;
pub mod faces;
pub mod rawmodel;
pub mod topomodel;
pub mod laws;
pub mod authoring;
