use vstd::prelude::*;

verus! {

/// How new entries are combined with an existing `PATH`.
#[derive(Debug, Clone, Copy, PartialEq, Eq, Structural)]
pub enum PathModificationBehavior {
    /// The new entries replace the whole variable.
    Replace,
    /// The new entries come after the existing ones.
    Append,
    /// The new entries come before the existing ones.
    Prepend,
}

impl Default for PathModificationBehavior {
    fn default() -> (r: PathModificationBehavior)
        ensures
            r == PathModificationBehavior::Replace,
    {
        PathModificationBehavior::Replace
    }
}

/// The environment that an activation starts from.
#[derive(Debug, Clone)]
pub struct ActivationVariables {
    /// The prefix that is active now, if any.
    pub conda_prefix: Option<String>,
    /// The entries of `PATH`, if known.
    pub path: Option<Vec<String>>,
    /// How the new entries are combined with `path`.
    pub path_modification_behavior: PathModificationBehavior,
}

impl Default for ActivationVariables {
    fn default() -> (r: ActivationVariables)
        ensures
            r.conda_prefix is None,
            r.path is None,
            r.path_modification_behavior == PathModificationBehavior::Replace,
    {
        ActivationVariables {
            conda_prefix: None,
            path: None,
            path_modification_behavior: PathModificationBehavior::Replace,
        }
    }
}

/// A generated activation script and the `PATH` entries it sets.
#[derive(Debug, Clone)]
pub struct ActivationResult {
    pub script: String,
    pub path: Vec<String>,
}

} // verus!
