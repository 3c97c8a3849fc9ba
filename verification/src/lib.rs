//! Feature selection for the dependencies of a package: the graph of features
//! that each dependency offers, the rules by which enabling or disabling one
//! feature carries over to others, the inheritance of features from a
//! workspace, and the search for features that a project can do without.

pub mod candidates;
pub mod cascade;
pub mod closure;
pub mod dependency;
pub mod document;
pub mod error;
pub mod feature;
pub mod feature_map;
pub mod filter_view;
pub mod graph;
pub mod inheritance;
pub mod markers;
pub mod name_map;
pub mod names;
pub mod package;
pub mod plan;
pub mod pruner;
pub mod resolve;
pub mod roundtrip;
pub mod save;
pub mod selector;
pub mod util;
pub mod walk;
