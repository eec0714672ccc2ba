//! An algebra over edit patches: ordered lists of replace operations that
//! turn one version of a sequence into another, with composition, inversion
//! and a coalescing append.
pub mod edit;
pub mod compose_model;
pub mod patch;
pub mod semantics;
pub mod compose_proof;
pub mod laws;

pub use edit::Edit;
pub use patch::Patch;
