use cs2_bot::onnx_inference::{repvit_fields, yolo_detection_rows};
use cs2_bot::screen_capture::{bgra_to_rgb_planes, CapturedFrame};

#[test]
fn test_bgra_to_chw() {
    // 2x2 image, all red pixels (BGRA: 0, 0, 255, 255).
    let data = vec![0u8, 0, 255, 255, 0, 0, 255, 255, 0, 0, 255, 255, 0, 0, 255, 255];
    let planes = bgra_to_rgb_planes(&data, 2, 2);
    assert_eq!(planes.len(), 3 * 4);
    let result: Vec<f32> = planes.iter().map(|b| *b as f32 / 255.0).collect();
    assert!((result[0] - 1.0).abs() < 1e-5);
    assert!((result[1] - 1.0).abs() < 1e-5);
    assert!((result[4] - 0.0).abs() < 1e-5);
    assert!((result[8] - 0.0).abs() < 1e-5);
}

#[test]
fn planes_split_channels_in_pixel_order() {
    // Two pixels: (B, G, R, A) = (1, 2, 3, 4) and (5, 6, 7, 8), plus trailing bytes.
    let data = vec![1u8, 2, 3, 4, 5, 6, 7, 8, 9, 9];
    assert_eq!(bgra_to_rgb_planes(&data, 2, 1), vec![3, 7, 2, 6, 1, 5]);
    assert!(bgra_to_rgb_planes(&data, 0, 5).is_empty());
}

#[test]
fn blank_frame_is_black() {
    let f = CapturedFrame::blank(3, 2);
    assert_eq!(f.width, 3);
    assert_eq!(f.height, 2);
    assert_eq!(f.data, vec![0u8; 24]);
}

#[test]
fn yolo_rows_take_first_six_attributes() {
    let data: Vec<f32> = (0..14).map(|i| i as f32).collect();
    let rows = yolo_detection_rows(&[1, 2, 7], &data);
    assert_eq!(rows, vec![[0.0, 1.0, 2.0, 3.0, 4.0, 5.0], [7.0, 8.0, 9.0, 10.0, 11.0, 12.0]]);
}

#[test]
fn yolo_rows_need_rank_three_and_six_attributes() {
    let data = vec![1u8; 12];
    assert!(yolo_detection_rows(&[2, 6], &data).is_empty());
    assert!(yolo_detection_rows(&[1, 2, 5], &data).is_empty());
    assert!(yolo_detection_rows(&[1, 0, 6], &data).is_empty());
    assert_eq!(yolo_detection_rows(&[1, 2, 6], &data).len(), 2);
}

#[test]
fn repvit_fields_gather_position_and_angles() {
    let (pos, ang) = repvit_fields(&[1.5f32, 2.5], &[3.5], &[0.1, 0.2, 0.3, 0.4, 9.0]);
    assert_eq!(pos, [1.5, 2.5, 3.5]);
    assert_eq!(ang, [0.1, 0.2, 0.3, 0.4]);
}
