use gleipnir::bucket::{Bucket, PERIOD_MILLIS};

#[test]
fn period_is_half_a_second() {
    assert_eq!(PERIOD_MILLIS, 500);
}

#[test]
fn three_packets_then_a_new_window() {
    let mut b = Bucket::new(1000);
    assert!(b.stuff_at(0, 400));
    assert!(b.stuff_at(10, 400));
    assert!(!b.stuff_at(20, 400));
    assert!(b.stuff_at(521, 400));
    assert_eq!(b.bytes_at(521), 400);
}

#[test]
fn charge_adds_exactly_the_size() {
    let mut b = Bucket::new(1000);
    assert_eq!(b.bytes_at(0), 0);
    assert!(b.stuff_at(0, 123));
    assert_eq!(b.bytes_at(0), 123);
    assert!(b.stuff_at(0, 77));
    assert_eq!(b.bytes_at(0), 200);
}

#[test]
fn refused_charge_changes_nothing() {
    let mut b = Bucket::new(1000);
    assert!(b.stuff_at(0, 999));
    assert!(!b.stuff_at(1, 1));
    assert_eq!(b.bytes_at(1), 999);
    assert!(!b.stuff_at(2, usize::MAX));
    assert_eq!(b.bytes_at(2), 999);
}

#[test]
fn reaching_the_limit_exactly_is_refused() {
    let mut b = Bucket::new(1000);
    assert!(!b.stuff_at(0, 1000));
    assert!(b.stuff_at(0, 999));
    let mut zero = Bucket::new(0);
    assert!(!zero.stuff_at(0, 0));
    let mut one = Bucket::new(1);
    assert!(one.stuff_at(0, 0));
    assert!(!one.stuff_at(0, 1));
}

#[test]
fn window_ends_strictly_after_the_period() {
    let mut b = Bucket::new(1000);
    assert!(b.stuff_at(100, 600));
    assert_eq!(b.bytes_at(500), 600);
    assert_eq!(b.bytes_at(501), 0);
    assert!(b.stuff_at(501, 600));
    assert_eq!(b.bytes_at(1001), 600);
    assert_eq!(b.bytes_at(1002), 0);
}

#[test]
fn earlier_reading_does_not_reset() {
    let mut b = Bucket::new(1000);
    assert!(b.stuff_at(2000, 10));
    assert_eq!(b.bytes_at(5), 10);
    assert_eq!(b.bytes_at(2500), 10);
}

#[test]
fn limit_is_kept() {
    assert_eq!(Bucket::new(4096).limit(), 4096);
}

#[test]
fn clocked_calls_agree_with_a_fresh_window() {
    let mut b = Bucket::new(1000);
    assert_eq!(b.bytes(), 0);
    assert!(b.stuff(400));
    assert!(b.stuff(400));
    assert!(!b.stuff(400));
    assert_eq!(b.bytes(), 800);
}
