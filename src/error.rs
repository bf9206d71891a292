use vstd::prelude::*;

verus! {

/// Bad input: image bytes or a raw output tensor that cannot be read.
#[derive(Clone, Copy, Debug, PartialEq, Eq, Structural)]
pub enum DecodeError {
    /// The bytes are not an image in a recognised format, or are corrupt.
    NotAnImage,
    /// The raw output's row width does not fit the layout or its length.
    MalformedTensor,
}

/// A forward pass that did not produce an output.
#[derive(Clone, Copy, Debug, PartialEq, Eq, Structural)]
pub enum InferenceError {
    /// The session's lock could not be taken; the call may be retried.
    LockUnavailable,
    /// The execution itself failed; retrying the same request will not help.
    Execution,
}

/// The stage of the pipeline at which a request failed.
#[derive(Clone, Copy, Debug, PartialEq, Eq, Structural)]
pub enum Stage {
    Encode,
    Inference,
    Decode,
}

/// The first failure of a request, tagged with its stage.
#[derive(Clone, Copy, Debug, PartialEq, Eq, Structural)]
pub enum PipelineError {
    Encode(DecodeError),
    Inference(InferenceError),
    Decode(DecodeError),
}

impl PipelineError {
    pub fn stage(&self) -> (r: Stage)
        ensures
            r == match *self {
                PipelineError::Encode(_) => Stage::Encode,
                PipelineError::Inference(_) => Stage::Inference,
                PipelineError::Decode(_) => Stage::Decode,
            },
    {
        match self {
            PipelineError::Encode(_) => Stage::Encode,
            PipelineError::Inference(_) => Stage::Inference,
            PipelineError::Decode(_) => Stage::Decode,
        }
    }

    /// Bad input from the caller, as opposed to a failure on the server's side.
    pub fn is_client_error(&self) -> (r: bool)
        ensures
            r == !(*self is Inference),
    {
        !matches!(self, PipelineError::Inference(_))
    }

    /// The request may succeed if sent again unchanged.
    pub fn is_retryable(&self) -> (r: bool)
        ensures
            r == (*self == PipelineError::Inference(InferenceError::LockUnavailable)),
    {
        matches!(self, PipelineError::Inference(InferenceError::LockUnavailable))
    }
}

} // verus!
