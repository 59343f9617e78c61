use tin::tf_bucket::{quantize_tf_count, representative_tf_count, TfBucket, BUCKET_COUNT, BUCKET_MAX};

const RANGES: [(u8, u32, u32); BUCKET_COUNT] = [
    (0, 0, 1),
    (1, 2, 2),
    (2, 3, 4),
    (3, 5, 9),
    (4, 10, 19),
    (5, 20, 40),
    (6, 41, 84),
    (7, 85, 176),
    (8, 177, 370),
    (9, 371, 776),
    (10, 777, 1_625),
    (11, 1_626, 3_404),
    (12, 3_405, 7_131),
    (13, 7_132, 14_937),
    (14, 14_938, 31_287),
    (15, 31_288, u32::MAX),
];

#[test]
fn every_boundary_maps_to_the_expected_bucket() {
    for &(bucket, first, last) in &RANGES {
        assert_eq!(quantize_tf_count(first), bucket, "first={first}");
        assert_eq!(quantize_tf_count(last), bucket, "last={last}");
        assert_eq!(representative_tf_count(bucket), first.max(1));
    }
}

#[test]
fn quantization_is_monotonic_across_all_non_saturated_counts() {
    let mut previous = 0;
    for count in 0..=u16::MAX as u32 {
        let bucket = quantize_tf_count(count);
        assert!(bucket >= previous, "count={count}");
        previous = bucket;
    }
    assert_eq!(quantize_tf_count(u32::MAX), BUCKET_MAX);
}

#[test]
fn validates_raw_bucket_values() {
    for value in 0..=BUCKET_MAX {
        assert_eq!(TfBucket::new(value).map(TfBucket::value), Some(value));
    }
    assert_eq!(TfBucket::new(BUCKET_MAX + 1), None);
    assert_eq!(TfBucket::new(u8::MAX), None);
}

#[test]
fn representative_round_trips_through_quantization() {
    for value in 0..=BUCKET_MAX {
        assert_eq!(quantize_tf_count(representative_tf_count(value)), value);
    }
}

#[test]
fn bucket_from_count_and_representative() {
    let b = TfBucket::from_count(100);
    assert_eq!(b.value(), 7);
    assert_eq!(b.representative_count(), 85);
    assert_eq!(TfBucket::from_count(0).representative_count(), 1);
}
