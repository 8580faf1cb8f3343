use force_graph::ramp::{ForceScale, FULL_SCALE};

#[test]
fn scale_starts_at_one_hundredth() {
    let scale = ForceScale::new();
    assert_eq!(scale.hundredths(), 1);
    assert!(!scale.is_full());
}

#[test]
fn scale_grows_by_one_hundredth_per_tick() {
    let mut scale = ForceScale::new();
    for tick in 1..=99u32 {
        scale.advance();
        assert_eq!(scale.hundredths(), 1 + tick);
    }
    assert_eq!(scale.hundredths(), 100);
    assert!(scale.is_full());
}

#[test]
fn scale_never_exceeds_full() {
    let mut scale = ForceScale::new();
    let mut last = scale.hundredths();
    for _ in 0..500 {
        scale.advance();
        assert!(scale.hundredths() >= last);
        assert!(scale.hundredths() <= FULL_SCALE);
        last = scale.hundredths();
    }
    assert_eq!(scale.hundredths(), 100);
    scale.advance();
    assert_eq!(scale.hundredths(), 100);
}
