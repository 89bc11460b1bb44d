//! Verified core of a NixOS package-update reporter.
//!
//! Opaque store paths of the form `<hash>-<name>-<version>[-<suffix>]` are
//! parsed into structured records, ambiguous duplicates are dropped,
//! dependencies shared at one version across the whole system are split out,
//! and two snapshots of the system are compared into ordered change records.

pub mod display;
pub mod error;
pub mod ident;
pub mod keyed;
pub mod packages;
pub mod store;
pub mod text;
