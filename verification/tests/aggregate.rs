use stat_rank::aggregate::{Aggregation, Bucket, Observation};
use stat_rank::decimal::Decimal;
use stat_rank::reader::Selection;
use stat_rank::stat::StatValue;

fn number(mantissa: u64) -> StatValue {
    StatValue::Numeric {
        value: Decimal { positive: true, mantissa, exponent: 0 },
        text: mantissa.to_string(),
    }
}

fn opaque(text: &str) -> StatValue {
    StatValue::Opaque { text: text.to_string() }
}

#[test]
fn new_aggregation_is_empty() {
    let aggregation = Aggregation::new();
    assert!(aggregation.is_empty());
    assert_eq!(aggregation.len(), 0);
    assert_eq!(aggregation.position("any"), 0);
}

#[test]
fn record_opens_bucket_and_fixes_numeric_flag() {
    let mut aggregation = Aggregation::new();
    aggregation.record("jump".to_string(), "id1".to_string(), number(4));
    aggregation.record("jump".to_string(), "id2".to_string(), opaque("many"));
    aggregation.record("name".to_string(), "id1".to_string(), opaque("x"));
    aggregation.record("name".to_string(), "id2".to_string(), number(1));
    assert!(!aggregation.is_empty());
    assert_eq!(aggregation.len(), 2);
    let jump = aggregation.bucket(0);
    assert_eq!(jump.key(), "jump");
    assert!(jump.is_numeric());
    assert_eq!(jump.len(), 2);
    assert_eq!(jump.observation(0), &Observation { identifier: "id1".to_string(), value: number(4) });
    assert_eq!(jump.observation(1), &Observation { identifier: "id2".to_string(), value: opaque("many") });
    let name = aggregation.bucket(1);
    assert_eq!(name.key(), "name");
    assert!(!name.is_numeric());
    assert_eq!(name.len(), 2);
    assert_eq!(aggregation.position("jump"), 0);
    assert_eq!(aggregation.position("name"), 1);
    assert_eq!(aggregation.position("Jump"), 2);
}

#[test]
fn buckets_differ_by_case_of_key() {
    let mut aggregation = Aggregation::new();
    aggregation.record("Jump".to_string(), "id1".to_string(), number(1));
    aggregation.record("jump".to_string(), "id1".to_string(), number(2));
    assert_eq!(aggregation.len(), 2);
    assert_eq!(aggregation.bucket(0).len(), 1);
    assert_eq!(aggregation.bucket(1).len(), 1);
}

#[test]
fn record_all_records_in_order() {
    let mut aggregation = Aggregation::new();
    aggregation.record_all(
        "id1",
        vec![
            Selection { key: "a".to_string(), value: number(1) },
            Selection { key: "b".to_string(), value: number(2) },
        ],
    );
    aggregation.record_all(
        "id2",
        vec![
            Selection { key: "b".to_string(), value: number(3) },
            Selection { key: "a".to_string(), value: number(4) },
        ],
    );
    aggregation.record_all("id3", vec![]);
    assert_eq!(aggregation.len(), 2);
    assert_eq!(aggregation.bucket(0).key(), "a");
    assert_eq!(aggregation.bucket(0).observation(1).identifier, "id2");
    assert_eq!(aggregation.bucket(0).observation(1).value, number(4));
    assert_eq!(aggregation.bucket(1).key(), "b");
    assert_eq!(aggregation.bucket(1).observation(0).identifier, "id1");
    assert_eq!(aggregation.bucket(1).observation(1).value, number(3));
}

#[test]
fn bucket_open_and_push() {
    let mut bucket = Bucket::open(
        "k".to_string(),
        Observation { identifier: "id1".to_string(), value: opaque("t") },
    );
    assert!(!bucket.is_numeric());
    bucket.push(Observation { identifier: "id2".to_string(), value: number(9) });
    assert!(!bucket.is_numeric());
    assert_eq!(bucket.len(), 2);
    assert_eq!(bucket.key(), "k");
    assert_eq!(bucket.observation(1).identifier, "id2");
}

#[test]
fn default_aggregation_is_empty() {
    let aggregation = Aggregation::default();
    assert!(aggregation.is_empty());
}
