//! Markers on the nodes and edges of a dependency graph that has to be valid
//! for several target environments and several combinations of extras at once.
//!
//! A [`UniversalMarker`] pairs a marker on the environment with a marker on
//! the extras that are switched on. [`marker_reachability`] finds for each
//! node of a graph the marker under which some path from a root leads to it.
//! [`simplify_conflict_markers`] drops from the markers on the edges the tests
//! for extras that are known to be switched on where the edge is followed.
//!
//! The markers themselves belong to an engine that this library only calls.
//! The module [`predicate`] states what is taken on trust of the engine, and
//! [`graph`] what is taken on trust of the graph library; the module
//! [`meaning`] says under which conditions on the engine's answers the
//! results mean what one expects, and [`paths`], [`settling`] and [`assumed`]
//! prove that they do.

pub mod assumed;
pub mod conflicts;
pub mod graph;
pub mod meaning;
pub mod paths;
pub mod predicate;
pub mod reachability;
pub mod settling;
pub mod simplify;
pub mod universal_marker;

pub use reachability::marker_reachability;
pub use simplify::simplify_conflict_markers;
pub use universal_marker::UniversalMarker;
