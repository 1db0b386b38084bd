//! Dependency resolution: packages, their relations, and a SAT solver that
//! picks a consistent selection.

pub mod sat;
pub mod model;
pub mod universe;
pub mod encode;
pub mod certify;
pub mod resolve;

pub use model::{DependencyGroup, DependencySpec, Package, SolverError};
pub use resolve::{InstallPlan, Resolver};
pub use universe::Universe;
