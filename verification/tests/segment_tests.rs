use spade_bulk::segment::{ceil_bucket, floor_bucket, Segment, HALF_TURN, TURN};

const Q1: u32 = 0x4000_0000; // a quarter turn
const Q3: u32 = 0xC000_0000; // three quarters

#[test]
fn segment_contains_non_wrapping() {
    let s = Segment::new(100, 200);
    assert!(s.is_non_wrapping_segment());
    assert!(s.contains_angle(100));
    assert!(s.contains_angle(199));
    assert!(!s.contains_angle(200));
    assert!(!s.contains_angle(99));
    assert!(!s.contains_angle(u32::MAX));
}

#[test]
fn segment_contains_wrapping() {
    let s = Segment::new(Q3, Q1);
    assert!(!s.is_non_wrapping_segment());
    assert!(s.contains_angle(Q3));
    assert!(s.contains_angle(u32::MAX));
    assert!(s.contains_angle(0));
    assert!(s.contains_angle(Q1 - 1));
    assert!(!s.contains_angle(Q1));
    assert!(!s.contains_angle(Q3 - 1));
}

#[test]
fn segment_greater_than_half_turn() {
    assert!(!Segment::new(0, HALF_TURN as u32).is_greater_than_180_degree());
    assert!(Segment::new(0, HALF_TURN as u32 + 1).is_greater_than_180_degree());
    // wrapping: from three quarters round to a quarter is exactly half a turn
    assert!(!Segment::new(Q3, Q1).is_greater_than_180_degree());
    assert!(Segment::new(Q3, Q1 + 1).is_greater_than_180_degree());
    assert!(Segment::new(Q1, 0).is_greater_than_180_degree());
}

#[test]
fn bucket_numbers() {
    assert_eq!(TURN, 1u64 << 32);
    // 0.375 of a turn with 8 buckets lies exactly on the start of bucket 3
    assert_eq!(floor_bucket(0x6000_0000, 8), 3);
    assert_eq!(ceil_bucket(0x6000_0000, 8), 3);
    // 0.4 of a turn: between bucket 3 and bucket 4
    assert_eq!(floor_bucket(1717986918, 8), 3);
    assert_eq!(ceil_bucket(1717986918, 8), 4);
    // just below a full turn: the ceiling wraps to bucket 0
    assert_eq!(floor_bucket(u32::MAX, 8), 7);
    assert_eq!(ceil_bucket(u32::MAX, 8), 0);
    assert_eq!(floor_bucket(0, 16), 0);
    assert_eq!(ceil_bucket(0, 16), 0);
    assert_eq!(ceil_bucket(1, 16), 1);
}

#[test]
fn ceiled_bucket_is_floored_or_next() {
    // on a bucket start the two agree
    assert_eq!(floor_bucket(0x2000_0000, 8), 1);
    assert_eq!(ceil_bucket(0x2000_0000, 8), 1);
    // between starts the ceiling is the next bucket, wrapping after the last one
    assert_eq!(floor_bucket(0x2000_0001, 8), 1);
    assert_eq!(ceil_bucket(0x2000_0001, 8), 2);
    assert_eq!(floor_bucket(0xF000_0000, 8), 7);
    assert_eq!(ceil_bucket(0xF000_0000, 8), 0);
}
