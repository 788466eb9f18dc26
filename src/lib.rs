//! File requirement expressions: a tree of required paths combined by
//! AND / OR, a builder that keeps every path unique and every group
//! non-empty, and an evaluator that explains what is missing.
pub mod text;
pub mod requirement;
pub mod builder;
pub mod check;
pub mod laws;

pub use builder::{FileRequirementBuildError, FileRequirementBuilder, GroupBuilder};
pub use check::{FileRequirementCheckError, ProbeOutcome};
pub use requirement::FileRequirement;
