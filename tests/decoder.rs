use idcard_detect::decoder::{decode, overlaps_beyond, DecodeConfig, RawOutput, ScoreLayout, ScoredBox, UNIT};
use idcard_detect::error::DecodeError;

fn px(v: i64) -> i64 {
    v * UNIT as i64
}

fn config(layout: ScoreLayout, score_threshold: u64, iou_threshold: u64) -> DecodeConfig {
    DecodeConfig { layout, frame_width: 640, frame_height: 640, score_threshold, iou_threshold }
}

fn names() -> Vec<String> {
    vec!["id_card".to_string(), "face".to_string()]
}

fn row(x1: i64, y1: i64, x2: i64, y2: i64, score: i64, class: i64) -> Vec<i64> {
    vec![px(x1), px(y1), px(x2), px(y2), score, px(class)]
}

fn raw_of(rows: Vec<Vec<i64>>) -> RawOutput {
    let mut values = Vec::new();
    for r in rows {
        values.extend(r);
    }
    RawOutput { values, width: 6 }
}

#[test]
fn single_row_above_threshold_is_named() {
    let raw = raw_of(vec![row(10, 10, 50, 50, 900_000, 0)]);
    let d = decode(&raw, &config(ScoreLayout::ClassIndex, 500_000, 450_000), &names()).unwrap();
    assert_eq!(d.len(), 1);
    assert_eq!((d[0].x1, d[0].y1, d[0].x2, d[0].y2), (px(10) as u64, px(10) as u64, px(50) as u64, px(50) as u64));
    assert_eq!(d[0].score, 900_000);
    assert_eq!(d[0].class_id, 0);
    assert_eq!(d[0].class_name, "id_card");
}

#[test]
fn zero_rows_give_empty_list() {
    let raw = RawOutput { values: vec![], width: 6 };
    let d = decode(&raw, &config(ScoreLayout::ClassIndex, 500_000, 450_000), &names()).unwrap();
    assert!(d.is_empty());
}

#[test]
fn all_below_threshold_give_empty_list() {
    let raw = raw_of(vec![row(10, 10, 50, 50, 300_000, 0), row(100, 100, 200, 200, 499_999, 1)]);
    let d = decode(&raw, &config(ScoreLayout::ClassIndex, 500_000, 450_000), &names()).unwrap();
    assert!(d.is_empty());
}

#[test]
fn score_at_threshold_is_kept() {
    let raw = raw_of(vec![row(10, 10, 50, 50, 500_000, 0)]);
    let d = decode(&raw, &config(ScoreLayout::ClassIndex, 500_000, 450_000), &names()).unwrap();
    assert_eq!(d.len(), 1);
}

#[test]
fn raising_threshold_never_adds_detections() {
    let raw = raw_of(vec![
        row(10, 10, 50, 50, 900_000, 0),
        row(100, 100, 200, 200, 600_000, 1),
        row(300, 300, 400, 400, 750_000, 0),
    ]);
    let mut last = usize::MAX;
    for t in [0u64, 500_000, 650_000, 800_000, 950_000] {
        let n = decode(&raw, &config(ScoreLayout::ClassIndex, t, 450_000), &names()).unwrap().len();
        assert!(n <= last);
        last = n;
    }
    assert_eq!(decode(&raw, &config(ScoreLayout::ClassIndex, 650_000, 450_000), &names()).unwrap().len(), 2);
    assert_eq!(last, 0);
}

#[test]
fn overlapping_boxes_of_one_class_are_suppressed() {
    let raw = raw_of(vec![row(10, 10, 50, 50, 800_000, 0), row(12, 12, 52, 52, 900_000, 0)]);
    let d = decode(&raw, &config(ScoreLayout::ClassIndex, 500_000, 450_000), &names()).unwrap();
    assert_eq!(d.len(), 1);
    assert_eq!(d[0].score, 900_000);
    assert_eq!(d[0].x1, px(12) as u64);
}

#[test]
fn overlapping_boxes_of_two_classes_both_stay() {
    let raw = raw_of(vec![row(10, 10, 50, 50, 800_000, 0), row(12, 12, 52, 52, 900_000, 1)]);
    let d = decode(&raw, &config(ScoreLayout::ClassIndex, 500_000, 450_000), &names()).unwrap();
    assert_eq!(d.len(), 2);
    assert_eq!(d[0].class_name, "face");
    assert_eq!(d[1].class_name, "id_card");
}

#[test]
fn survivors_of_one_class_stay_within_iou_threshold() {
    let raw = raw_of(vec![
        row(0, 0, 100, 100, 900_000, 0),
        row(50, 0, 150, 100, 800_000, 0),
        row(10, 0, 110, 100, 700_000, 0),
        row(200, 200, 300, 300, 600_000, 0),
    ]);
    let cfg = config(ScoreLayout::ClassIndex, 100_000, 400_000);
    let d = decode(&raw, &cfg, &names()).unwrap();
    // The second box overlaps the first by one third, below the threshold.
    assert_eq!(d.len(), 3);
    for i in 0..d.len() {
        for j in 0..d.len() {
            if i != j && d[i].class_id == d[j].class_id {
                let a = ScoredBox { x1: d[i].x1, y1: d[i].y1, x2: d[i].x2, y2: d[i].y2, score: d[i].score, class_id: d[i].class_id };
                let b = ScoredBox { x1: d[j].x1, y1: d[j].y1, x2: d[j].x2, y2: d[j].y2, score: d[j].score, class_id: d[j].class_id };
                assert!(!overlaps_beyond(&a, &b, cfg.iou_threshold));
            }
        }
    }
}

#[test]
fn output_is_by_descending_score() {
    let raw = raw_of(vec![
        row(10, 10, 50, 50, 600_000, 0),
        row(100, 100, 200, 200, 950_000, 1),
        row(300, 300, 400, 400, 750_000, 0),
    ]);
    let d = decode(&raw, &config(ScoreLayout::ClassIndex, 0, 450_000), &names()).unwrap();
    let scores: Vec<u64> = d.iter().map(|x| x.score).collect();
    assert_eq!(scores, vec![950_000, 750_000, 600_000]);
}

#[test]
fn unknown_class_gets_sentinel_label() {
    let raw = raw_of(vec![row(10, 10, 50, 50, 900_000, 7)]);
    let d = decode(&raw, &config(ScoreLayout::ClassIndex, 500_000, 450_000), &names()).unwrap();
    assert_eq!(d[0].class_id, 7);
    assert_eq!(d[0].class_name, "unknown");
}

#[test]
fn boxes_are_clamped_to_frame_and_empty_ones_dropped() {
    let raw = raw_of(vec![
        row(-5, -5, 700, 50, 900_000, 0),
        row(650, 10, 700, 50, 900_000, 0),
        row(30, 30, 20, 40, 900_000, 0),
    ]);
    let d = decode(&raw, &config(ScoreLayout::ClassIndex, 500_000, 450_000), &names()).unwrap();
    assert_eq!(d.len(), 1);
    assert_eq!((d[0].x1, d[0].y1, d[0].x2, d[0].y2), (0, 0, px(640) as u64, px(50) as u64));
}

#[test]
fn scores_are_clamped_to_one() {
    let raw = raw_of(vec![row(10, 10, 50, 50, 3_000_000, 0)]);
    let d = decode(&raw, &config(ScoreLayout::ClassIndex, 500_000, 450_000), &names()).unwrap();
    assert_eq!(d[0].score, UNIT);
}

#[test]
fn negative_class_value_drops_row() {
    let raw = raw_of(vec![row(10, 10, 50, 50, 900_000, -1)]);
    let d = decode(&raw, &config(ScoreLayout::ClassIndex, 500_000, 450_000), &names()).unwrap();
    assert!(d.is_empty());
}

#[test]
fn per_class_layout_takes_best_score() {
    let raw = RawOutput {
        values: vec![px(10), px(10), px(50), px(50), 200_000, 800_000, px(100), px(100), px(200), px(200), 700_000, 700_000],
        width: 6,
    };
    let d = decode(&raw, &config(ScoreLayout::PerClass, 500_000, 450_000), &names()).unwrap();
    assert_eq!(d.len(), 2);
    assert_eq!((d[0].class_id, d[0].score), (1, 800_000));
    assert_eq!(d[0].class_name, "face");
    assert_eq!((d[1].class_id, d[1].score), (0, 700_000));
}

#[test]
fn malformed_tensor_is_rejected() {
    let short_rows = RawOutput { values: vec![0; 10], width: 5 };
    assert_eq!(
        decode(&short_rows, &config(ScoreLayout::ClassIndex, 0, 450_000), &names()).unwrap_err(),
        DecodeError::MalformedTensor
    );
    let ragged = RawOutput { values: vec![0; 13], width: 6 };
    assert_eq!(
        decode(&ragged, &config(ScoreLayout::ClassIndex, 0, 450_000), &names()).unwrap_err(),
        DecodeError::MalformedTensor
    );
    let no_width = RawOutput { values: vec![], width: 0 };
    assert_eq!(
        decode(&no_width, &config(ScoreLayout::PerClass, 0, 450_000), &names()).unwrap_err(),
        DecodeError::MalformedTensor
    );
}

#[test]
fn iou_test_matches_exact_ratio() {
    let a = ScoredBox { x1: 0, y1: 0, x2: 100, y2: 100, score: 0, class_id: 0 };
    let b = ScoredBox { x1: 50, y1: 0, x2: 150, y2: 100, score: 0, class_id: 0 };
    // Intersection 5000, union 15000: IoU is one third.
    assert!(overlaps_beyond(&a, &b, 333_333));
    assert!(!overlaps_beyond(&a, &b, 333_334));
    assert!(!overlaps_beyond(&a, &a, UNIT));
    assert!(overlaps_beyond(&a, &a, UNIT - 1));
}

#[test]
fn decoding_twice_gives_same_result() {
    let raw = raw_of(vec![row(10, 10, 50, 50, 900_000, 0), row(12, 12, 52, 52, 900_000, 0)]);
    let cfg = config(ScoreLayout::ClassIndex, 500_000, 450_000);
    let a = decode(&raw, &cfg, &names()).unwrap();
    let b = decode(&raw, &cfg, &names()).unwrap();
    assert_eq!(format!("{:?}", a), format!("{:?}", b));
    assert_eq!(a.len(), 1);
    assert_eq!(a[0].x1, px(10) as u64);
}

#[test]
fn detections_rescale_to_original_image() {
    let raw = raw_of(vec![row(10, 10, 50, 51, 900_000, 0)]);
    let d = decode(&raw, &config(ScoreLayout::ClassIndex, 500_000, 450_000), &names()).unwrap();
    let r = d[0].rescaled(640, 640, 1280, 320);
    assert_eq!((r.x1, r.y1, r.x2, r.y2), (px(20) as u64, px(5) as u64, px(100) as u64, 25_500_000));
    assert_eq!((r.score, r.class_id), (900_000, 0));
    assert_eq!(r.class_name, "id_card");
    let small = d[0].rescaled(640, 640, 3, 3);
    assert_eq!(small.x1, 10 * 1_000_000 * 3 / 640);
}
