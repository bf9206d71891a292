use vstd::prelude::*;

use crate::codec::{decodes_as_image, encode, planar, stretched_rgb, InputTensor, INPUT_LEN};
use crate::decoder::{decode, named, survivors, well_shaped, DecodeConfig, Detection, RawOutput};
use crate::error::{DecodeError, InferenceError, PipelineError};

verus! {

/// First stage of a request: the image bytes become the model's input. A
/// failure here means the model is never run.
pub fn prepare(image_bytes: &[u8]) -> (r: Result<InputTensor, PipelineError>)
    ensures
        r is Ok <==> decodes_as_image(image_bytes@),
        r matches Err(e) ==> e == PipelineError::Encode(DecodeError::NotAnImage),
        r matches Ok(t) ==> t.samples@ == planar(stretched_rgb(image_bytes@)) && t.samples@.len() == INPUT_LEN,
{
    match encode(image_bytes) {
        Ok(t) => Ok(t),
        Err(e) => Err(PipelineError::Encode(e)),
    }
}

/// Last stage of a request: what the forward pass gave becomes the detections,
/// or the first failure tagged with its stage.
pub fn conclude(run: Result<RawOutput, InferenceError>, cfg: &DecodeConfig, names: &Vec<String>) -> (r: Result<
    Vec<Detection>,
    PipelineError,
>)
    ensures
        run matches Err(e) ==> r == Err::<Vec<Detection>, PipelineError>(PipelineError::Inference(e)),
        run matches Ok(raw) ==> {
            &&& !well_shaped(raw.values@, raw.width as nat, cfg.layout) ==> r == Err::<
                Vec<Detection>,
                PipelineError,
            >(PipelineError::Decode(DecodeError::MalformedTensor))
            &&& well_shaped(raw.values@, raw.width as nat, cfg.layout) ==> (r matches Ok(d) && named(
                d@,
                survivors(raw.values@, raw.width as nat, *cfg),
                names@,
            ))
        },
{
    match run {
        Err(e) => Err(PipelineError::Inference(e)),
        Ok(raw) => match decode(&raw, cfg, names) {
            Ok(d) => Ok(d),
            Err(e) => Err(PipelineError::Decode(e)),
        },
    }
}

} // verus!
