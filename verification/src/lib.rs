//! A road-network graph for an interactively edited city map.
//!
//! The network is kept as two coupled directed graphs: a coarse graph of
//! intersections and a finer graph of lane-nodes, one pair of lane-nodes for
//! every directional connection between two intersections.  Editing
//! operations (connect, disconnect, split, delete) keep the two graphs, the
//! derived lane-node positions and the per-lane traffic-light schedules
//! consistent.  A projection routine classifies an arbitrary world point
//! against the current graph so that an edit layer can decide what a pointer
//! position means.

pub mod geom;
pub mod graph;
pub mod idmap;
pub mod laws;
pub mod lights;
pub mod pattern;
pub mod project;
pub mod road_graph;
pub mod roadbuild;
