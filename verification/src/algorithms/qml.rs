//! Errors of the machine-learning layer (its numeric kernels work on floating point).
use vstd::prelude::*;

verus! {

/// Errors of the machine-learning layer.
#[derive(Debug)]
pub enum QmlEngineError {
    FeatureMappingMismatch,
    GradientCollapse,
    SubsystemFailure(String),
}

} // verus!
