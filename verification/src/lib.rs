//! Declared co-change dependencies between files, and the detection of those
//! that a set of changed files leaves unmet.
//!
//! A [`mapping::Mapping`] holds for each root file the files that have to change
//! with it. A [`changes::ChangeSet`] holds the files that did change, as a diff
//! lists them. [`detect::detect`] holds the one against the other and reports
//! every changed root with the dependents that did not change.

pub mod paths;
pub mod document;
pub mod mapping;
pub mod changes;
pub mod detect;
