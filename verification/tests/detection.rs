use cs2_bot::detection::{retain_marked, select_target_index, suppression_mask, DetectionClass};

#[test]
fn class_ids_decode_in_order() {
    assert_eq!(DetectionClass::from_id(0), Some(DetectionClass::THead));
    assert_eq!(DetectionClass::from_id(1), Some(DetectionClass::CtHead));
    assert_eq!(DetectionClass::from_id(2), Some(DetectionClass::TBody));
    assert_eq!(DetectionClass::from_id(3), Some(DetectionClass::CtBody));
    assert_eq!(DetectionClass::from_id(4), None);
    assert_eq!(DetectionClass::from_id(u32::MAX), None);
}

#[test]
fn heads_are_heads_bodies_are_not() {
    assert!(DetectionClass::THead.is_head());
    assert!(DetectionClass::CtHead.is_head());
    assert!(!DetectionClass::TBody.is_head());
    assert!(!DetectionClass::CtBody.is_head());
}

fn iou(a: (f64, f64, f64, f64), b: (f64, f64, f64, f64)) -> f64 {
    let (ax, ay, aw, ah) = a;
    let (bx, by, bw, bh) = b;
    let iw = ((ax + aw / 2.0).min(bx + bw / 2.0) - (ax - aw / 2.0).max(bx - bw / 2.0)).max(0.0);
    let ih = ((ay + ah / 2.0).min(by + bh / 2.0) - (ay - ah / 2.0).max(by - bh / 2.0)).max(0.0);
    let inter = iw * ih;
    inter / (aw * ah + bw * bh - inter)
}

#[test]
fn test_nms_removes_overlapping() {
    // Boxes sorted by confidence 0.9, 0.8, 0.7; the first two overlap (IoU 0.68).
    let boxes = [
        (100.0, 100.0, 50.0, 50.0),
        (105.0, 105.0, 50.0, 50.0),
        (300.0, 300.0, 50.0, 50.0),
    ];
    let mut overlap = vec![vec![false; 3]; 3];
    for i in 0..3 {
        for j in 0..3 {
            overlap[i][j] = iou(boxes[i], boxes[j]) > 0.5;
        }
    }
    let keep = suppression_mask(&overlap);
    assert_eq!(keep, vec![true, false, true]);
    let mut confidences = vec![0.9f64, 0.8, 0.7];
    retain_marked(&mut confidences, &keep);
    assert_eq!(confidences.len(), 2);
    assert!((confidences[0] - 0.9).abs() < 1e-5);
    assert!((confidences[1] - 0.7).abs() < 1e-5);
}

#[test]
fn suppressed_box_does_not_suppress_others() {
    // 0 overlaps 1, 1 overlaps 2, but 0 and 2 are apart: 1 goes, 2 stays.
    let overlap = vec![
        vec![false, true, false],
        vec![false, false, true],
        vec![false, false, false],
    ];
    assert_eq!(suppression_mask(&overlap), vec![true, false, true]);
}

#[test]
fn suppression_of_nothing_is_nothing() {
    let overlap: Vec<Vec<bool>> = Vec::new();
    assert!(suppression_mask(&overlap).is_empty());
}

#[test]
fn test_nms_filters_low_confidence() {
    let confidences = [0.3f64, 0.1];
    let keep: Vec<bool> = confidences.iter().map(|c| *c >= 0.5).collect();
    let mut dets = vec![0u32, 1];
    retain_marked(&mut dets, &keep);
    assert!(dets.is_empty());
}

#[test]
fn retain_keeps_marked_in_order() {
    let mut items = vec!['a', 'b', 'c', 'd', 'e'];
    retain_marked(&mut items, &vec![false, true, true, false, true]);
    assert_eq!(items, vec!['b', 'c', 'e']);
}

fn farther_matrix(d: &[f64]) -> Vec<Vec<bool>> {
    d.iter().map(|a| d.iter().map(|b| a > b).collect()).collect()
}

#[test]
fn test_select_target_prefers_heads() {
    // Body at (200, 150) and head at (195, 145); crosshair at (192, 144),
    // field of view radius 45 / 90 * 192 = 96 pixels.
    let dist = [
        ((200.0f64 - 192.0).powi(2) + (150.0f64 - 144.0).powi(2)).sqrt(),
        ((195.0f64 - 192.0).powi(2) + (145.0f64 - 144.0).powi(2)).sqrt(),
    ];
    let in_fov: Vec<bool> = dist.iter().map(|d| *d <= 96.0).collect();
    let is_head = vec![DetectionClass::TBody.is_head(), DetectionClass::THead.is_head()];
    let target = select_target_index(&in_fov, &is_head, &farther_matrix(&dist));
    assert!(target.is_some());
    assert!(is_head[target.unwrap()]);
    assert_eq!(target, Some(1));
}

#[test]
fn farther_head_beats_nearer_body() {
    let dist2 = [3.0f64, 50.0];
    assert_eq!(select_target_index(&vec![true, true], &vec![false, true], &farther_matrix(&dist2)), Some(1));
}

#[test]
fn nearest_body_when_no_head_and_first_among_ties() {
    let dist = [30.0f64, 10.0, 10.0, 5.0];
    let in_fov = vec![true, true, true, false];
    let is_head = vec![false, false, false, false];
    // Index 3 is nearest but outside the field of view; 1 and 2 tie, 1 comes first.
    assert_eq!(select_target_index(&in_fov, &is_head, &farther_matrix(&dist)), Some(1));
}

#[test]
fn no_target_outside_field_of_view() {
    let dist = [300.0f64, 400.0];
    assert_eq!(select_target_index(&vec![false, false], &vec![true, false], &farther_matrix(&dist)), None);
    assert_eq!(select_target_index(&vec![], &vec![], &vec![]), None);
}

#[test]
fn second_suppression_pass_changes_nothing() {
    // 0 overlaps 1 and 3; 2 overlaps 4; 3 overlaps 4.
    let mut overlap = vec![vec![false; 5]; 5];
    overlap[0][1] = true;
    overlap[0][3] = true;
    overlap[2][4] = true;
    overlap[3][4] = true;
    let keep = suppression_mask(&overlap);
    assert_eq!(keep, vec![true, false, true, false, false]);
    let mut items = vec![10, 11, 12, 13, 14];
    retain_marked(&mut items, &keep);
    assert_eq!(items, vec![10, 12]);
    // The overlap among the kept ones: positions 0 and 2 of the first pass.
    let kept_at = [0usize, 2];
    let again: Vec<Vec<bool>> =
        kept_at.iter().map(|&a| kept_at.iter().map(|&b| overlap[a][b]).collect()).collect();
    let keep2 = suppression_mask(&again);
    assert_eq!(keep2, vec![true, true]);
    let before = items.clone();
    retain_marked(&mut items, &keep2);
    assert_eq!(items, before);
}
