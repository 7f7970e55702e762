use vstd::prelude::*;

verus! {

/// Why a repodata document or one of its records could not be used.
#[derive(Debug, Clone, Copy, PartialEq, Eq, Structural)]
pub enum SparseError {
    /// The document is not a JSON object.
    NotAnObject,
    /// The `info` block is neither null nor an object whose `base_url`, if
    /// present, is a string.
    InvalidInfo,
    /// `packages` is missing or not a map, or `packages.conda` is not a map.
    InvalidPackages,
    /// An archive filename has fewer than three `-`-separated fields.
    InvalidFilename,
    /// A raw record does not decode into a package record.
    InvalidRecord,
    /// A package URL could not be resolved.
    InvalidUrl,
}

} // verus!
