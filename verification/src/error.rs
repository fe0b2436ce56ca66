//! Error type shared by the catalog, the layer set and the merge engine.

use vstd::prelude::*;

verus! {

/// Everything that can go wrong while loading configuration or serving a
/// request. Variants carry the offending identifier or a fixed description.
#[derive(Debug)]
pub enum ExperimentError {
    /// A layer id was looked up but is not in the current layer set.
    LayerNotFound(String),
    /// A rollback was asked for but no prior version is recorded.
    InvalidVersion(String),
    /// A group name in a legacy layer config resolves to no known group.
    GroupNotFound(String),
    /// A structural problem: bad bucket range, duplicate id, or a parameter
    /// payload that is not an object.
    InvalidParameter(String),
    /// A rule failed validation or could not be evaluated.
    InvalidRule(String),
}

impl ExperimentError {
    /// A human-readable description; the prefix identifies the variant and
    /// the suffix carries the identifier the variant was built with.
    pub fn message(&self) -> (r: String)
        ensures
            match self {
                ExperimentError::LayerNotFound(id) => r@ == "Layer not found: "@ + id@,
                ExperimentError::InvalidVersion(id) => r@ == "No rollback version available for layer: "@
                    + id@,
                ExperimentError::GroupNotFound(id) => r@ == "Group not found: "@ + id@,
                ExperimentError::InvalidParameter(m) => r@ == m@,
                ExperimentError::InvalidRule(m) => r@ == "Invalid rule: "@ + m@,
            },
    {
        match self {
            ExperimentError::LayerNotFound(id) => {
                let mut s = String::from_str("Layer not found: ");
                s.append(id.as_str());
                s
            },
            ExperimentError::InvalidVersion(id) => {
                let mut s = String::from_str("No rollback version available for layer: ");
                s.append(id.as_str());
                s
            },
            ExperimentError::GroupNotFound(id) => {
                let mut s = String::from_str("Group not found: ");
                s.append(id.as_str());
                s
            },
            ExperimentError::InvalidParameter(m) => m.clone(),
            ExperimentError::InvalidRule(m) => {
                let mut s = String::from_str("Invalid rule: ");
                s.append(m.as_str());
                s
            },
        }
    }
}

} // verus!
