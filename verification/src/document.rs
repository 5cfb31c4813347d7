//! JSON documents. A document is parsed and held by the `json` crate; this
//! module gives it a mathematical model and the accessors through which the
//! rest of the library reads it. No item here looks inside a value by itself:
//! each accessor states what the `json` crate hands back.
//!
//! A text goes to the parser through `read_document`, which first makes
//! sure that no run of digits in it is longer than the parser can count.

use crate::text::chars_of;
use vstd::prelude::*;

verus! {

/// The longest run of digits that a text may hold to be parsed. The parser
/// counts the digits of a fraction in a 16-bit exponent, which a longer
/// run would take below its least value.
pub const MAX_DIGIT_RUN: usize = 32767;

/// `json::JsonValue`, a value of a JSON document. The library carries such
/// a value and reads it through the accessors below; `json_model` names what
/// it holds.
#[verifier::external_type_specification]
#[verifier::external_body]
pub struct ExJsonValue(json::JsonValue);

/// `json::Error`, which `json::parse` gives for a text that is no JSON
/// document. Nothing is read from it.
#[verifier::external_type_specification]
#[verifier::external_body]
pub struct ExJsonError(json::Error);

/// The parts that the `json` crate keeps of a number. Unless `nan` is set the
/// number is `mantissa * 10^exponent`, negated when `positive` is false.
#[derive(Clone, Copy, Debug)]
pub struct NumberParts {
    pub nan: bool,
    pub positive: bool,
    pub mantissa: u64,
    pub exponent: i16,
}

/// What a JSON value holds. The entries of an object stand in the order in
/// which they were first inserted.
pub enum JsonModel {
    Null,
    Boolean(bool),
    Number(NumberParts),
    Text(Seq<char>),
    Array(Seq<JsonModel>),
    Object(Seq<(Seq<char>, JsonModel)>),
}

/// The outermost layer of a value: its kind, and its content where that is a
/// scalar.
pub enum Shape<'a> {
    Null,
    Boolean(bool),
    Number(NumberParts),
    Text(&'a str),
    Array,
    Object,
}

/// What the value `value` holds.
pub uninterp spec fn json_model(value: json::JsonValue) -> JsonModel;

/// What `json::parse` makes of `text`: the document's content, or `None`
/// where the text is no JSON document.
pub uninterp spec fn parsed(text: Seq<char>) -> Option<JsonModel>;

/// The text that the `json` crate's `Display` writes for a number that has
/// a value, for an array or for an object.
pub uninterp spec fn displayed(model: JsonModel) -> Seq<char>;

/// Whether the text that is shown for a value can be told in a word: so it
/// is for a text, for null, for the booleans and for not-a-number.
pub open spec fn is_plain(model: JsonModel) -> bool {
    match model {
        JsonModel::Null => true,
        JsonModel::Boolean(_) => true,
        JsonModel::Text(_) => true,
        JsonModel::Number(parts) => parts.nan,
        _ => false,
    }
}

/// The text that is shown for a value: a text as it is; `null`, `true`,
/// `false` and not-a-number by their names; any other number, an array or
/// an object as the `json` crate writes it.
pub open spec fn shown_text(model: JsonModel) -> Seq<char> {
    match model {
        JsonModel::Null => "null"@,
        JsonModel::Boolean(b) => if b {
            "true"@
        } else {
            "false"@
        },
        JsonModel::Text(text) => text,
        JsonModel::Number(parts) if parts.nan => "nan"@,
        _ => displayed(model),
    }
}

/// The entries of an object; no entries for any other value.
pub open spec fn entries_of(model: JsonModel) -> Seq<(Seq<char>, JsonModel)> {
    match model {
        JsonModel::Object(entries) => entries,
        _ => Seq::empty(),
    }
}

/// The members of an array; no members for any other value.
pub open spec fn members_of(model: JsonModel) -> Seq<JsonModel> {
    match model {
        JsonModel::Array(members) => members,
        _ => Seq::empty(),
    }
}

/// The position of the first entry called `name`, or the number of entries
/// where there is none.
pub open spec fn position_of(entries: Seq<(Seq<char>, JsonModel)>, name: Seq<char>) -> int
    decreases entries.len(),
{
    if entries.len() == 0 {
        0
    } else if entries[0].0 == name {
        0
    } else {
        1 + position_of(entries.drop_first(), name)
    }
}

/// The value of the entry called `name`, and `Null` where `model` is no
/// object or has no such entry.
pub open spec fn field_of(model: JsonModel, name: Seq<char>) -> JsonModel {
    let entries = entries_of(model);
    let at = position_of(entries, name);
    if at < entries.len() {
        entries[at].1
    } else {
        JsonModel::Null
    }
}

/// Whether `shape` is the outermost layer of `model`.
pub open spec fn shape_matches(shape: Shape<'_>, model: JsonModel) -> bool {
    match model {
        JsonModel::Null => shape is Null,
        JsonModel::Boolean(b) => shape == Shape::Boolean(b),
        JsonModel::Number(parts) => shape == Shape::Number(parts),
        JsonModel::Text(text) => shape matches Shape::Text(t) && t@ == text,
        JsonModel::Array(_) => shape is Array,
        JsonModel::Object(_) => shape is Object,
    }
}

/// Whether `c` is one of the ten digits.
pub open spec fn is_digit(c: char) -> bool {
    0x30 <= c as u32 <= 0x39
}

/// Whether the characters of `text` from `from` up to `to` are all digits.
pub open spec fn digit_run(text: Seq<char>, from: int, to: int) -> bool {
    &&& 0 <= from <= to <= text.len()
    &&& forall|k: int| from <= k < to ==> is_digit(#[trigger] text[k])
}

/// Whether no run of digits in `text` is longer than `MAX_DIGIT_RUN`.
pub open spec fn digit_runs_fit(text: Seq<char>) -> bool {
    forall|from: int, to: int| #[trigger] digit_run(text, from, to) ==> to - from <= MAX_DIGIT_RUN
}

/// The document that a text holds: what `json::parse` makes of it, and
/// none where the text has a run of digits that the parser cannot count.
pub open spec fn document_of(text: Seq<char>) -> Option<JsonModel> {
    if digit_runs_fit(text) {
        parsed(text)
    } else {
        None
    }
}

/// `json::parse`: the result is `Ok` exactly where the text is a JSON
/// document, and then holds what `parsed` names. The parser lowers a 16-bit
/// exponent by one for each digit of a fraction while the mantissa is
/// small, without a check; a text with a run of more than `MAX_DIGIT_RUN`
/// digits can take that exponent out of its range and is left out here.
pub assume_specification[ json::parse ](source: &str) -> (result: Result<
    json::JsonValue,
    json::Error,
>)
    requires
        digit_runs_fit(source@),
    ensures
        match result {
            Ok(value) => parsed(source@) == Some(json_model(value)),
            Err(_) => parsed(source@) is None,
        },
;

/// A match on the variants of `json::JsonValue`: tells the kind of `value`
/// and hands out a scalar's content. A number comes as `Number::as_parts` and
/// `Number::is_nan` give it; both string variants are `Text`.
#[verifier::external_body]
pub(crate) fn shape<'a>(value: &'a json::JsonValue) -> (result: Shape<'a>)
    ensures
        shape_matches(result, json_model(*value)),
{
    match value {
        json::JsonValue::Null => Shape::Null,
        json::JsonValue::Boolean(b) => Shape::Boolean(*b),
        json::JsonValue::Number(n) => {
            let (positive, mantissa, exponent) = n.as_parts();
            Shape::Number(NumberParts { nan: n.is_nan(), positive, mantissa, exponent })
        },
        json::JsonValue::Short(s) => Shape::Text(s.as_str()),
        json::JsonValue::String(s) => Shape::Text(s.as_str()),
        json::JsonValue::Array(_) => Shape::Array,
        json::JsonValue::Object(_) => Shape::Object,
    }
}

/// `JsonValue::entries`: the entries of an object in insertion order, each
/// with its name; nothing for a value that is no object.
#[verifier::external_body]
pub(crate) fn entries<'a>(value: &'a json::JsonValue) -> (result: Vec<
    (&'a str, &'a json::JsonValue),
>)
    ensures
        result@.len() == entries_of(json_model(*value)).len(),
        forall|i: int|
            0 <= i < result@.len() ==> (#[trigger] result@[i]).0@ == entries_of(
                json_model(*value),
            )[i].0 && json_model(*result@[i].1) == entries_of(json_model(*value))[i].1,
{
    value.entries().collect()
}

/// `JsonValue::members`: the members of an array in order; nothing for a
/// value that is no array.
#[verifier::external_body]
pub(crate) fn members<'a>(value: &'a json::JsonValue) -> (result: Vec<&'a json::JsonValue>)
    ensures
        result@.len() == members_of(json_model(*value)).len(),
        forall|i: int|
            0 <= i < result@.len() ==> json_model(*#[trigger] result@[i]) == members_of(
                json_model(*value),
            )[i],
{
    value.members().collect()
}

/// Indexing a `JsonValue` by a name: the value of the entry of that name, and
/// a null value where there is no such entry or `value` is no object. An
/// object of the `json` crate has no two entries of one name, so the entry
/// is the first of its name.
#[verifier::external_body]
pub(crate) fn field<'a>(value: &'a json::JsonValue, name: &str) -> (result: &'a json::JsonValue)
    ensures
        json_model(*result) == field_of(json_model(*value), name@),
{
    &value[name]
}

/// `Display` of a `JsonValue`, through `to_string`: a string is written as
/// it is, without quotes; null, the booleans and not-a-number by their
/// names; any other number, an array or an object in the crate's compact
/// form, which `displayed` names.
#[verifier::external_body]
pub(crate) fn display(value: &json::JsonValue) -> (result: String)
    ensures
        result@ == shown_text(json_model(*value)),
        is_plain(json_model(*value)) || result@ == displayed(json_model(*value)),
{
    value.to_string()
}

/// Whether `c` is one of the ten digits.
pub fn is_digit_char(c: char) -> (digit: bool)
    ensures
        digit == is_digit(c),
{
    let code: u32 = c as u32;
    0x30 <= code && code <= 0x39
}

/// Whether no run of digits in `text` is longer than `MAX_DIGIT_RUN`.
pub fn runs_fit(text: &str) -> (fits: bool)
    ensures
        fits == digit_runs_fit(text@),
{
    let chars = chars_of(text);
    let mut run: usize = 0;
    let mut i: usize = 0;
    while i < chars.len()
        invariant
            chars@ == text@,
            run <= i <= chars@.len(),
            run <= MAX_DIGIT_RUN,
            digit_run(chars@, i - run, i as int),
            i - run > 0 ==> !is_digit(chars@[i - run - 1]),
            forall|from: int, to: int|
                to <= i && #[trigger] digit_run(chars@, from, to) ==> to - from <= MAX_DIGIT_RUN,
        decreases chars@.len() - i,
    {
        let ghost start = i - run;
        if is_digit_char(chars[i]) {
            if run == MAX_DIGIT_RUN {
                assert(digit_run(chars@, start, i + 1));
                return false;
            }
            run += 1;
        } else {
            run = 0;
        }
        proof {
            assert forall|from: int, to: int|
                to <= i + 1 && #[trigger] digit_run(chars@, from, to) implies to - from
                <= MAX_DIGIT_RUN by {
                if to == i + 1 && from < to {
                    assert(is_digit(chars@[i as int]));
                    if from < start {
                        assert(is_digit(chars@[start - 1]));
                    }
                }
            }
        }
        i += 1;
    }
    true
}

/// Parses a text. The text is given to `json::parse` where its runs of
/// digits fit; any other text, and any that the parser refuses, gives
/// nothing.
pub fn read_document(text: &str) -> (document: Option<json::JsonValue>)
    ensures
        match document {
            Some(value) => document_of(text@) == Some(json_model(value)),
            None => document_of(text@) is None,
        },
{
    if !runs_fit(text) {
        return None;
    }
    match json::parse(text) {
        Ok(value) => Some(value),
        Err(_) => None,
    }
}

} // verus!
