//! Errors raised when the GPU creates render targets.
use vstd::prelude::*;

verus! {

/// Error raised by the GPU.
#[derive(Clone, Debug, PartialEq, Eq)]
pub enum GPUError {
    TargetError(TargetError),
}

/// Error raised while creating a render target.
#[derive(Clone, Debug, PartialEq, Eq)]
pub enum TargetError {
    /// A texture of the target could not be created; the reason, as text.
    TextureError(String),
    /// The target's framebuffer is incomplete; the reason, as text.
    Incomplete(String),
}

impl From<TargetError> for GPUError {
    fn from(te: TargetError) -> (r: GPUError)
        ensures
            r == GPUError::TargetError(te),
    {
        GPUError::TargetError(te)
    }
}

impl vstd::std_specs::convert::FromSpecImpl<TargetError> for GPUError {
    open spec fn obeys_from_spec() -> bool {
        true
    }

    open spec fn from_spec(te: TargetError) -> GPUError {
        GPUError::TargetError(te)
    }
}

} // verus!
