//! Release-order resolution for the packages of a multi-package project.
//!
//! The library models a package as a name together with the ordered list of
//! its declared dependency names, builds the implicit dependency graph over a
//! set of in-scope packages, and produces a publication order in which every
//! package appears after all of its in-scope dependencies, or reports a
//! circular dependency.

pub mod options;
pub mod package;
pub mod release_order;
