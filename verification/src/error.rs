//! What can go wrong in the library.

use vstd::prelude::*;

verus! {

/// The ways in which an operation of the library fails.
#[derive(Debug)]
pub enum Error {
    /// The dependency has no feature of this name.
    FeatureNotFound(String),
    /// The package has no dependency of this name.
    DependencyNotFound(String),
    /// The project has no package of this name.
    PackageNotFound(String),
    /// The project has no package at this place.
    PackageIndexNotFound(usize),
    /// A dependency that inherits from the workspace has no declaration
    /// there; the name is that of the dependency.
    WorkspaceLinkMissing(String),
    /// The only package of the project declares no dependency.
    NoDependencies,
    /// The package has no dependency at this place.
    DependencyIndexNotFound(usize),
    /// A dependency has another number of features than it had when its
    /// states were kept.
    FeatureCountChanged,
    /// The table of features by dependency holds, under this name, what
    /// is no list.
    InvalidFeatureTable(String),
    /// A selection was asked for where there is nothing to select.
    NothingSelected,
}

} // verus!
