//! Dependency resolution over an RPM package repository.
//!
//! The crate holds what a constraint solver needs to know of a repository,
//! and nothing of the solver itself:
//!
//! - [`version`], [`requirement`] and [`package`]: how versions relate, when
//!   a package version satisfies a requirement, and how two package versions
//!   are ordered, by epoch first and by version text within an epoch.
//! - [`universe`]: every package version of a repository under an
//!   identifier, filed by its own name and by each name it provides.
//! - [`provider`]: the three questions a solver asks while it searches: the
//!   candidates for a name, the order in which to try them, and the
//!   dependencies of each.
//! - [`resolve`]: the requirements a request starts from, and the form in
//!   which its result is shown.
//!
//! Version texts are parsed and compared by the `version_compare` crate;
//! everything else is verified.

pub mod error;
pub mod index;
pub mod package;
pub mod provider;
pub mod requirement;
pub mod resolve;
pub mod text;
pub mod universe;
pub mod version;

pub use error::DataError;
pub use index::SolvableId;
pub use package::{PackageVersionView, RPMPackageVersion};
pub use provider::{Candidates, Dependencies};
pub use requirement::{RPMRequirement, Requirement, RequirementView};
pub use resolve::{conclude, root_requirement, root_requirements, sorted_unique, Resolution};
pub use universe::{PackageRecord, RPMProvider};
pub use version::{version_order, version_outcome, version_parses, Relation};
