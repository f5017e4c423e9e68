//! Dependency drift analysis across git tags.
//!
//! Reads a Gradle version catalog (`gradle/libs.versions.toml`) at each tag
//! of a git repository and builds a timeline of dependency version changes,
//! which can be embedded into a self-contained HTML report.

pub mod blob;
pub mod catalog;
pub mod drift;
pub mod html;
pub mod tags;
pub mod text;

pub use catalog::{parse_versions, VersionEntry};
pub use drift::{Dependency, DriftPayload};
