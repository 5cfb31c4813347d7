use stat_rank::aggregate::Aggregation;
use stat_rank::decimal::Decimal;
use stat_rank::reader::{classify, read_record, select, select_exact, select_matching, RecordError, Schema, Selection};
use stat_rank::stat::StatValue;

fn number(positive: bool, mantissa: u64, exponent: i16, text: &str) -> StatValue {
    StatValue::Numeric { value: Decimal { positive, mantissa, exponent }, text: text.to_string() }
}

fn opaque(text: &str) -> StatValue {
    StatValue::Opaque { text: text.to_string() }
}

fn selection(key: &str, value: StatValue) -> Selection {
    Selection { key: key.to_string(), value }
}

#[test]
fn flat_record_substring_query_fills_numeric_bucket() {
    let mut aggregation = Aggregation::new();
    let result = aggregation.add_record("id", "{\"stat.deaths\": 3}", "death", false);
    assert_eq!(result, Ok(()));
    assert_eq!(aggregation.len(), 1);
    let bucket = aggregation.bucket(0);
    assert_eq!(bucket.key(), "stat.deaths");
    assert!(bucket.is_numeric());
    assert_eq!(bucket.len(), 1);
    assert_eq!(bucket.observation(0).identifier, "id");
    assert_eq!(bucket.observation(0).value, number(true, 3, 0, "3"));
}

#[test]
fn nested_record_substring_query_keys_by_category_and_field() {
    let content = "{\"stats\":{\"minecraft:custom\":{\"minecraft:jump\":42}}}";
    let mut aggregation = Aggregation::new();
    assert_eq!(aggregation.add_record("id", content, "jump", false), Ok(()));
    assert_eq!(aggregation.len(), 1);
    let bucket = aggregation.bucket(0);
    assert_eq!(bucket.key(), "minecraft:custom.minecraft:jump");
    assert_eq!(bucket.len(), 1);
    assert_eq!(bucket.observation(0).identifier, "id");
    assert_eq!(bucket.observation(0).value, number(true, 42, 0, "42"));
}

#[test]
fn schema_is_nested_only_where_stats_is_an_object() {
    let nested = json::parse("{\"stats\":{}}").unwrap();
    let number_under_stats = json::parse("{\"stats\":5}").unwrap();
    let flat = json::parse("{\"stat.jump\":1}").unwrap();
    let array = json::parse("[1,2]").unwrap();
    assert_eq!(classify(&nested), Schema::Nested);
    assert_eq!(classify(&number_under_stats), Schema::Flat);
    assert_eq!(classify(&flat), Schema::Flat);
    assert_eq!(classify(&array), Schema::Flat);
}

#[test]
fn exact_query_on_nested_record_takes_first_category_only() {
    let record = json::parse(
        "{\"stats\":{\"a\":{\"other\":1},\"b\":{\"jump\":2},\"c\":{\"jump\":3}}}",
    ).unwrap();
    let out = select_exact(&record, "jump");
    assert_eq!(out, vec![selection("jump", number(true, 2, 0, "2"))]);
}

#[test]
fn exact_query_passes_over_a_category_whose_field_is_null() {
    let record = json::parse("{\"stats\":{\"a\":{\"jump\":null},\"b\":{\"jump\":7}}}").unwrap();
    let out = select(&record, "jump", true);
    assert_eq!(out, vec![selection("jump", number(true, 7, 0, "7"))]);
}

#[test]
fn exact_query_is_literal() {
    let record = json::parse("{\"stats\":{\"a\":{\"Jump\":1,\"jumps\":2}}}").unwrap();
    assert_eq!(select_exact(&record, "jump"), vec![]);
    let flat = json::parse("{\"stat.jump\":4,\"stat.jumps\":5}").unwrap();
    assert_eq!(select_exact(&flat, "stat.jump"), vec![selection("stat.jump", number(true, 4, 0, "4"))]);
    assert_eq!(select_exact(&flat, "jump"), vec![]);
}

#[test]
fn exact_query_on_flat_record_skips_null_and_missing() {
    let flat = json::parse("{\"a\":null,\"b\":1}").unwrap();
    assert_eq!(select_exact(&flat, "a"), vec![]);
    assert_eq!(select_exact(&flat, "zzz"), vec![]);
}

#[test]
fn substring_query_ignores_case_of_query_and_name() {
    let record = json::parse("{\"Stat.Deaths\":3,\"stat.jump\":1}").unwrap();
    let expected = vec![selection("Stat.Deaths", number(true, 3, 0, "3"))];
    assert_eq!(select_matching(&record, "DEATH"), expected);
    assert_eq!(select_matching(&record, "death"), expected);
    assert_eq!(select_matching(&record, "dEaTh"), expected);
}

#[test]
fn substring_query_gives_none_one_or_many() {
    let record = json::parse(
        "{\"stats\":{\"mined\":{\"stone\":5,\"sandstone\":2},\"used\":{\"stone_axe\":1,\"bow\":9}}}",
    ).unwrap();
    assert_eq!(select_matching(&record, "diamond"), vec![]);
    assert_eq!(select_matching(&record, "bow"), vec![selection("used.bow", number(true, 9, 0, "9"))]);
    assert_eq!(
        select_matching(&record, "stone"),
        vec![
            selection("mined.stone", number(true, 5, 0, "5")),
            selection("mined.sandstone", number(true, 2, 0, "2")),
            selection("used.stone_axe", number(true, 1, 0, "1")),
        ]
    );
}

#[test]
fn empty_query_selects_every_field_that_is_not_null() {
    let record = json::parse("{\"a\":1,\"b\":null,\"c\":\"x\"}").unwrap();
    assert_eq!(
        select_matching(&record, ""),
        vec![selection("a", number(true, 1, 0, "1")), selection("c", opaque("x"))]
    );
}

#[test]
fn null_field_gives_no_selection_under_substring_query() {
    let flat = json::parse("{\"stat.deaths\":null}").unwrap();
    assert_eq!(select_matching(&flat, "death"), vec![]);
    let nested = json::parse("{\"stats\":{\"c\":{\"deaths\":null,\"death_count\":1}}}").unwrap();
    assert_eq!(
        select_matching(&nested, "death"),
        vec![selection("c.death_count", number(true, 1, 0, "1"))]
    );
}

#[test]
fn null_field_adds_no_bucket() {
    let mut aggregation = Aggregation::new();
    assert_eq!(aggregation.add_record("id", "{\"stat.deaths\":null}", "death", false), Ok(()));
    assert!(aggregation.is_empty());
    assert_eq!(aggregation.add_record("id", "{\"stat.deaths\":null}", "stat.deaths", true), Ok(()));
    assert!(aggregation.is_empty());
}

#[test]
fn values_of_every_kind_are_read() {
    let record = json::parse(
        "{\"n\":-1.50,\"t\":\"text\",\"b\":true,\"a\":[1,\"x\"],\"o\":{\"k\":2},\"e\":1e3}",
    ).unwrap();
    assert_eq!(
        select_matching(&record, ""),
        vec![
            selection("n", number(false, 150, -2, "-1.50")),
            selection("t", opaque("text")),
            selection("b", opaque("true")),
            selection("a", opaque("[1,\"x\"]")),
            selection("o", opaque("{\"k\":2}")),
            selection("e", number(true, 1, 3, "1000")),
        ]
    );
}

#[test]
fn not_a_number_is_opaque() {
    let value = json::JsonValue::from(f64::NAN);
    let read = StatValue::read(&value).unwrap();
    assert!(!read.is_numeric());
    assert_eq!(read.number(), None);
    assert_eq!(read.text(), "nan");
}

#[test]
fn stat_value_accessors() {
    let value = json::parse("12").unwrap();
    let read = StatValue::read(&value).unwrap();
    assert!(read.is_numeric());
    assert_eq!(read.number(), Some(Decimal { positive: true, mantissa: 12, exponent: 0 }));
    assert_eq!(read.text(), "12");
    assert_eq!(StatValue::read(&json::JsonValue::Null), None);
}

#[test]
fn record_that_is_no_object_gives_nothing() {
    assert_eq!(read_record("[1,2,3]", "a", false), Ok(vec![]));
    assert_eq!(read_record("5", "a", true), Ok(vec![]));
}

#[test]
fn malformed_record_is_an_error_and_changes_nothing() {
    assert_eq!(read_record("{\"a\":", "a", false), Err(RecordError::MalformedPayload));
    let mut aggregation = Aggregation::new();
    assert_eq!(aggregation.add_record("id1", "{\"a\":1}", "a", false), Ok(()));
    assert_eq!(aggregation.add_record("id2", "not json", "a", false), Err(RecordError::MalformedPayload));
    assert_eq!(aggregation.len(), 1);
    assert_eq!(aggregation.bucket(0).len(), 1);
    assert_eq!(aggregation.add_record("id3", "{\"a\":2}", "a", false), Ok(()));
    assert_eq!(aggregation.bucket(0).len(), 2);
}

#[test]
fn duplicate_field_keeps_last_value_at_first_place() {
    let record = json::parse("{\"a\":1,\"b\":2,\"a\":3}").unwrap();
    assert_eq!(
        select_matching(&record, ""),
        vec![selection("a", number(true, 3, 0, "3")), selection("b", number(true, 2, 0, "2"))]
    );
    assert_eq!(select_exact(&record, "a"), vec![selection("a", number(true, 3, 0, "3"))]);
}
