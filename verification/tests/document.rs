use stat_rank::aggregate::Aggregation;
use stat_rank::decimal::Decimal;
use stat_rank::document::{is_digit_char, read_document, runs_fit, MAX_DIGIT_RUN};
use stat_rank::identity::{IdMap, LoadError};
use stat_rank::ranking::report;
use stat_rank::reader::{read_record, RecordError};
use stat_rank::stat::StatValue;

fn zeros(count: usize) -> String {
    "0".repeat(count)
}

#[test]
fn digits_are_the_ten_digits() {
    for c in ['0', '1', '5', '9'] {
        assert!(is_digit_char(c));
    }
    for c in ['/', ':', 'a', ' ', '.', '-', '\u{660}', '\u{ff10}'] {
        assert!(!is_digit_char(c));
    }
}

#[test]
fn runs_of_digits_fit_up_to_the_bound() {
    assert_eq!(MAX_DIGIT_RUN, 32767);
    assert!(runs_fit(""));
    assert!(runs_fit("no digits at all"));
    assert!(runs_fit("{\"a\": 12, \"b\": 3.25e10}"));
    assert!(runs_fit(&zeros(32767)));
    assert!(!runs_fit(&zeros(32768)));
    assert!(runs_fit(&format!("{}.{}", zeros(32767), zeros(32767))));
    assert!(runs_fit(&format!("{} {}", zeros(20000), zeros(20000))));
    assert!(!runs_fit(&format!("x{}1y", zeros(32767))));
    assert!(!runs_fit(&format!("[1, 2, \"{}\"]", "7".repeat(40000))));
}

#[test]
fn text_with_too_long_a_fraction_is_refused() {
    let text = format!("0.{}", zeros(32769));
    assert!(read_document(&text).is_none());
    assert_eq!(read_record(&text, "a", false), Err(RecordError::MalformedPayload));
    let record = format!("{{\"a\":0.{}}}", zeros(32769));
    assert_eq!(read_record(&record, "a", true), Err(RecordError::MalformedPayload));
    let mut aggregation = Aggregation::new();
    assert_eq!(aggregation.add_record("id", &record, "a", false), Err(RecordError::MalformedPayload));
    assert!(aggregation.is_empty());
}

#[test]
fn identity_source_with_too_long_a_fraction_is_refused() {
    let mut names = IdMap::new();
    names.insert("u1".to_string(), "Alex".to_string());
    let list = format!("[{{\"uuid\":\"u1\",\"name\":\"New\",\"n\":0.{}}}]", zeros(32769));
    assert_eq!(names.load_whitelist(&list), Err(LoadError::MalformedPayload));
    assert_eq!(names.load_user_name(&list), Err(LoadError::MalformedPayload));
    let cache = format!("{{\"u1\":\"New\",\"n\":0.{}}}", zeros(40000));
    assert_eq!(names.load_user_name_cache(&cache), Err(LoadError::MalformedPayload));
    assert_eq!(names.get("u1"), Some("Alex"));
}

#[test]
fn longest_fraction_that_fits_is_read() {
    let record = format!("{{\"a\":0.{}1,\"b\":2}}", zeros(32766));
    let out = read_record(&record, "", false).unwrap();
    assert_eq!(out.len(), 2);
    assert_eq!(out[0].key, "a");
    assert_eq!(out[0].value.number(), Some(Decimal { positive: true, mantissa: 1, exponent: -32767 }));
    assert_eq!(out[1].value.number(), Some(Decimal { positive: true, mantissa: 2, exponent: 0 }));
    let zero = format!("{{\"a\":0.{}}}", zeros(32767));
    let out = read_record(&zero, "a", true).unwrap();
    assert_eq!(out[0].value.number(), Some(Decimal { positive: true, mantissa: 0, exponent: -32767 }));
    assert_eq!(out[0].value.text(), "0");
}

#[test]
fn tiny_and_huge_numbers_are_ranked_by_value() {
    let mut aggregation = Aggregation::new();
    let tiny = format!("{{\"a\":0.{}1}}", zeros(32766));
    assert_eq!(aggregation.add_record("tiny", &tiny, "a", true), Ok(()));
    assert_eq!(aggregation.add_record("zero", "{\"a\":0}", "a", true), Ok(()));
    assert_eq!(aggregation.add_record("huge", "{\"a\":1e32767}", "a", true), Ok(()));
    assert_eq!(aggregation.add_record("minus", "{\"a\":-1e-32767}", "a", true), Ok(()));
    let lines = report(&aggregation, &IdMap::new(), 10, false, false);
    assert_eq!(lines.len(), 6);
    assert!(lines[1].starts_with("(1) minus: "));
    assert!(lines[2].starts_with("(2) zero: "));
    assert!(lines[3].starts_with("(3) tiny: "));
    assert!(lines[4].starts_with("(4) huge: "));
}

#[test]
fn read_document_gives_the_document_or_nothing() {
    let document = read_document("{\"a\":[1,2]}").unwrap();
    assert_eq!(document.dump(), "{\"a\":[1,2]}");
    assert!(read_document("{\"a\":").is_none());
    assert!(read_document("").is_none());
    assert_eq!(StatValue::read(&read_document("7").unwrap()).unwrap().text(), "7");
}
