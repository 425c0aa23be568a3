use fan_controller::frame::encode_frame;

#[test]
fn frame_without_report_id() {
    let f = encode_frame(95, false);
    assert_eq!(f.len(), 64);
    assert_eq!(f[0], 1);
    assert_eq!(f[1], 95);
    assert!(f[2..].iter().all(|&b| b == 0));
}

#[test]
fn frame_with_report_id() {
    let f = encode_frame(200, true);
    assert_eq!(f.len(), 64);
    assert_eq!(f[0], 1);
    assert_eq!(f[1], 1);
    assert_eq!(f[2], 200);
    assert!(f[3..].iter().all(|&b| b == 0));
}
