use extendable_hashmap::{Bucket, BucketValue, BUCKET_CAP};
use std::ops::RangeInclusive;

#[test]
fn bucket_value() {
    let bucket: Bucket<()> = Bucket::new(&[1, 1]);

    assert_eq!(
        bucket.value(3),
        BucketValue::Range(RangeInclusive::new(6, 7))
    );
    assert_eq!(bucket.value(2), BucketValue::EqualTo(3));
}

#[test]
fn bucket_value_spans_the_unused_low_bits() {
    let bucket: Bucket<()> = Bucket::new(&[0, 1]);
    assert_eq!(
        bucket.value(5),
        BucketValue::Range(RangeInclusive::new(8, 15))
    );
    assert_eq!(bucket.value(2), BucketValue::EqualTo(1));
}

#[test]
fn last_half_range_is_the_upper_half() {
    let value = BucketValue::Range(RangeInclusive::new(8, 15));
    assert_eq!(value.last_half_range(), Some(RangeInclusive::new(12, 15)));
    let pair = BucketValue::Range(RangeInclusive::new(6, 7));
    assert_eq!(pair.last_half_range(), Some(RangeInclusive::new(7, 7)));
    assert_eq!(BucketValue::EqualTo(3).last_half_range(), None);
}

#[test]
fn new_bucket_is_empty_with_its_bits() {
    let bucket: Bucket<u8> = Bucket::new(&[1, 0, 1]);
    assert_eq!(bucket.local_depth(), 3);
    assert!(!bucket.is_full());
    assert!(!bucket.contains(&7));
    assert_eq!(bucket.position(&7), None);
}

#[test]
fn bucket_is_full_at_capacity() {
    let mut bucket: Bucket<u8> = Bucket::new(&[0]);
    for k in 0..BUCKET_CAP as i32 {
        assert!(!bucket.is_full());
        bucket.data.push((k, 0));
    }
    assert!(bucket.is_full());
    assert!(bucket.contains(&1));
    assert_eq!(bucket.position(&2), Some(2));
}
