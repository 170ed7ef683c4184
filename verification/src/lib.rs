//! An asset build pipeline: source files are imported into typed assets,
//! saved as artifacts with a length-prefixed metadata header, and tracked
//! through a reverse-dependency index that drives re-import of dependents.

pub mod asset;
pub mod blob;
pub mod dense;
