use stat_rank::aggregate::{Aggregation, Bucket, Observation};
use stat_rank::decimal::Decimal;
use stat_rank::identity::IdMap;
use stat_rank::ranking::{label, leaderboard, rank, render_line, report};
use stat_rank::stat::StatValue;

fn number(positive: bool, mantissa: u64, exponent: i16) -> StatValue {
    let value = json::JsonValue::Number(json::number::Number::from_parts(positive, mantissa, exponent));
    StatValue::Numeric { value: Decimal { positive, mantissa, exponent }, text: value.to_string() }
}

fn opaque(text: &str) -> StatValue {
    StatValue::Opaque { text: text.to_string() }
}

fn bucket_of(values: Vec<StatValue>) -> Bucket {
    let mut aggregation = Aggregation::new();
    let mut i = 0;
    for value in values {
        aggregation.record("key".to_string(), format!("id{}", i), value);
        i += 1;
    }
    aggregation.bucket(0).clone()
}

#[test]
fn lower_value_takes_rank_one_by_default() {
    let mut aggregation = Aggregation::new();
    assert_eq!(aggregation.add_record("first", "{\"playOneMinute\":100}", "playOneMinute", true), Ok(()));
    assert_eq!(aggregation.add_record("second", "{\"playOneMinute\":50}", "playOneMinute", true), Ok(()));
    let bucket = aggregation.bucket(0);
    let order = rank(bucket, false);
    assert_eq!(order, vec![1, 0]);
    assert_eq!(bucket.observation(order[0]).identifier, "second");
    let lines = leaderboard(bucket, &IdMap::new(), 10, false, false);
    assert_eq!(lines, vec!["(1) second: 50".to_string(), "(2) first: 100".to_string()]);
}

#[test]
fn inverse_flag_ranks_higher_value_first() {
    let mut aggregation = Aggregation::new();
    assert_eq!(aggregation.add_record("first", "{\"playOneMinute\":100}", "playOneMinute", true), Ok(()));
    assert_eq!(aggregation.add_record("second", "{\"playOneMinute\":50}", "playOneMinute", true), Ok(()));
    assert_eq!(aggregation.add_record("third", "{\"playOneMinute\":75}", "playOneMinute", true), Ok(()));
    let bucket = aggregation.bucket(0);
    assert_eq!(rank(bucket, true), vec![0, 2, 1]);
    assert_eq!(rank(bucket, false), vec![1, 2, 0]);
}

#[test]
fn ranking_rises_with_value_over_signs_and_exponents() {
    let bucket = bucket_of(vec![
        number(true, 5, 0),
        number(false, 3, 0),
        number(true, 25, -1),
        number(true, 1, 2),
        number(false, 31, -1),
        number(true, 0, 0),
        number(true, 99, 0),
    ]);
    assert_eq!(rank(&bucket, false), vec![4, 1, 5, 2, 0, 6, 3]);
    assert_eq!(rank(&bucket, true), vec![3, 6, 0, 2, 5, 1, 4]);
}

#[test]
fn equal_values_keep_order_of_recording() {
    let bucket = bucket_of(vec![
        number(true, 2, 0),
        number(true, 1, 0),
        number(true, 20, -1),
        number(true, 10, -1),
        number(true, 2, 0),
    ]);
    assert_eq!(rank(&bucket, false), vec![1, 3, 0, 2, 4]);
    assert_eq!(rank(&bucket, true), vec![0, 2, 4, 1, 3]);
}

#[test]
fn bucket_that_is_not_numeric_keeps_order_of_recording() {
    let bucket = bucket_of(vec![opaque("zeta"), number(true, 3, 0), opaque("alpha"), number(true, 1, 0)]);
    assert!(!bucket.is_numeric());
    assert_eq!(rank(&bucket, false), vec![0, 1, 2, 3]);
    assert_eq!(rank(&bucket, true), vec![0, 1, 2, 3]);
}

#[test]
fn numeric_bucket_with_a_value_that_is_no_number_is_not_sorted() {
    let bucket = bucket_of(vec![number(true, 3, 0), opaque("x"), number(true, 1, 0)]);
    assert!(bucket.is_numeric());
    assert_eq!(rank(&bucket, false), vec![0, 1, 2]);
    assert_eq!(rank(&bucket, true), vec![0, 1, 2]);
}

#[test]
fn leaderboard_shows_no_more_than_the_limit() {
    let bucket = bucket_of(vec![number(true, 30, 0), number(true, 10, 0), number(true, 20, 0)]);
    let names = IdMap::new();
    assert_eq!(leaderboard(&bucket, &names, 0, false, false), Vec::<String>::new());
    assert_eq!(
        leaderboard(&bucket, &names, 2, false, false),
        vec!["(1) id1: 10".to_string(), "(2) id2: 20".to_string()]
    );
    assert_eq!(leaderboard(&bucket, &names, 3, false, false).len(), 3);
    assert_eq!(
        leaderboard(&bucket, &names, 9961, false, false),
        vec!["(1) id1: 10".to_string(), "(2) id2: 20".to_string(), "(3) id0: 30".to_string()]
    );
}

#[test]
fn ranks_count_from_one_past_nine() {
    let mut values = Vec::new();
    for i in 0..12u64 {
        values.push(number(true, i, 0));
    }
    let bucket = bucket_of(values);
    let lines = leaderboard(&bucket, &IdMap::new(), 100, false, false);
    assert_eq!(lines.len(), 12);
    assert_eq!(lines[0], "(1) id0: 0");
    assert_eq!(lines[9], "(10) id9: 9");
    assert_eq!(lines[11], "(12) id11: 11");
}

#[test]
fn unknown_identifier_is_shown_as_it_is() {
    let mut aggregation = Aggregation::new();
    aggregation.record("k".to_string(), "abc-123".to_string(), number(true, 7, 0));
    let names = IdMap::new();
    assert_eq!(leaderboard(aggregation.bucket(0), &names, 10, false, false), vec!["(1) abc-123: 7".to_string()]);
    assert_eq!(leaderboard(aggregation.bucket(0), &names, 10, false, true), vec!["(1) abc-123: 7".to_string()]);
    assert_eq!(label(&names, "abc-123", false), "abc-123");
    assert_eq!(label(&names, "abc-123", true), "abc-123");
}

#[test]
fn known_identifier_is_shown_by_name() {
    let mut names = IdMap::new();
    names.insert("abc-123".to_string(), "Steve".to_string());
    assert_eq!(label(&names, "abc-123", false), "Steve");
    assert_eq!(label(&names, "abc-123", true), "Steve(abc-123)");
    assert_eq!(label(&names, "other", true), "other");
}

#[test]
fn line_has_rank_label_and_value() {
    assert_eq!(render_line(1, "Steve", "42"), "(1) Steve: 42");
    assert_eq!(render_line(1203, "a(b)", ""), "(1203) a(b): ");
    assert_eq!(render_line(0, "", "x"), "(0) : x");
}

#[test]
fn report_of_nothing_is_a_notice() {
    let lines = report(&Aggregation::new(), &IdMap::new(), 10, false, false);
    assert_eq!(lines, vec!["Got empty ranked.".to_string()]);
}

#[test]
fn report_has_a_section_for_each_bucket() {
    let mut aggregation = Aggregation::new();
    assert_eq!(aggregation.add_record("u1", "{\"stat.jump\":5,\"stat.junk\":\"b\"}", "ju", false), Ok(()));
    assert_eq!(aggregation.add_record("u2", "{\"stat.jump\":2,\"stat.junk\":\"a\"}", "ju", false), Ok(()));
    let mut names = IdMap::new();
    names.insert("u1".to_string(), "Alex".to_string());
    let lines = report(&aggregation, &names, 1, true, true);
    assert_eq!(
        lines,
        vec![
            "In stats stat.jump:".to_string(),
            "(1) Alex(u1): 5".to_string(),
            "".to_string(),
            "In stats stat.junk:".to_string(),
            "(1) Alex(u1): b".to_string(),
            "".to_string(),
        ]
    );
    let all = report(&aggregation, &names, 5, false, false);
    assert_eq!(
        all,
        vec![
            "In stats stat.jump:".to_string(),
            "(1) u2: 2".to_string(),
            "(2) Alex: 5".to_string(),
            "".to_string(),
            "In stats stat.junk:".to_string(),
            "(1) Alex: b".to_string(),
            "(2) u2: a".to_string(),
            "".to_string(),
        ]
    );
}

#[test]
fn single_observation_ranks_first() {
    let bucket = Bucket::open(
        "k".to_string(),
        Observation { identifier: "solo".to_string(), value: number(false, 15, -1) },
    );
    assert_eq!(rank(&bucket, false), vec![0]);
    assert_eq!(leaderboard(&bucket, &IdMap::new(), 5, true, false), vec!["(1) solo: -1.5".to_string()]);
}
