use idcard_detect::decoder::{DecodeConfig, RawOutput, ScoreLayout, UNIT};
use idcard_detect::error::{DecodeError, InferenceError, PipelineError, Stage};
use idcard_detect::models::LoginResponse;
use idcard_detect::pipeline::{conclude, prepare};

fn config() -> DecodeConfig {
    DecodeConfig {
        layout: ScoreLayout::ClassIndex,
        frame_width: 640,
        frame_height: 640,
        score_threshold: 500_000,
        iou_threshold: 450_000,
    }
}

#[test]
fn non_image_fails_before_inference() {
    let e = prepare(b"definitely not an image").unwrap_err();
    assert_eq!(e, PipelineError::Encode(DecodeError::NotAnImage));
    assert_eq!(e.stage(), Stage::Encode);
    assert!(e.is_client_error());
    assert!(!e.is_retryable());
}

#[test]
fn image_prepares_full_tensor() {
    let mut out = std::io::Cursor::new(Vec::new());
    image::RgbImage::new(2, 2).write_to(&mut out, image::ImageFormat::Png).unwrap();
    let t = prepare(&out.into_inner()).unwrap();
    assert_eq!(t.samples.len(), 1_228_800);
}

#[test]
fn inference_errors_are_tagged() {
    let names = vec!["id_card".to_string()];
    let busy = conclude(Err(InferenceError::LockUnavailable), &config(), &names).unwrap_err();
    assert_eq!(busy, PipelineError::Inference(InferenceError::LockUnavailable));
    assert_eq!(busy.stage(), Stage::Inference);
    assert!(busy.is_retryable());
    assert!(!busy.is_client_error());
    let failed = conclude(Err(InferenceError::Execution), &config(), &names).unwrap_err();
    assert!(!failed.is_retryable());
    assert!(!failed.is_client_error());
}

#[test]
fn malformed_output_is_a_decode_error() {
    let names = vec!["id_card".to_string()];
    let raw = RawOutput { values: vec![1, 2, 3], width: 2 };
    let e = conclude(Ok(raw), &config(), &names).unwrap_err();
    assert_eq!(e, PipelineError::Decode(DecodeError::MalformedTensor));
    assert_eq!(e.stage(), Stage::Decode);
    assert!(e.is_client_error());
}

#[test]
fn output_becomes_detections() {
    let names = vec!["id_card".to_string()];
    let u = UNIT as i64;
    let raw = RawOutput { values: vec![10 * u, 10 * u, 50 * u, 50 * u, 900_000, 0], width: 6 };
    let d = conclude(Ok(raw), &config(), &names).unwrap();
    assert_eq!(d.len(), 1);
    assert_eq!(d[0].class_name, "id_card");
}

#[test]
fn bearer_response() {
    let r = LoginResponse::bearer("abc".to_string());
    assert_eq!(r.access_token, "abc");
    assert_eq!(r.token_type, "Bearer");
}
