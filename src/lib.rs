//! Sparse loading of conda repodata indexes: a shallow index of each document,
//! keyed by the package part of each archive filename, and on-demand
//! materialization of the records that a set of root packages reaches.

pub mod activation;
pub mod error;
pub mod filename;
pub mod index;
pub mod json;
pub mod materialize;
pub mod order;
pub mod record;
pub mod resolve;
pub mod sparse;

pub use activation::{ActivationResult, ActivationVariables, PathModificationBehavior};
pub use error::SparseError;
pub use filename::PackageFilename;
pub use materialize::compute_package_url;
pub use record::{AddPipToPython, Channel, PackageName, PackageRecord, RecordPatch, RepoDataRecord};
pub use sparse::SparseRepoData;
