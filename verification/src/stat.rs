//! The value of one statistic, as it is ranked and shown.

use crate::decimal::Decimal;
use crate::document::{display, json_model, shape, shown_text, JsonModel, Shape};
use vstd::prelude::*;

verus! {

/// The value of a statistic. A numeric value is ranked by its number; any
/// other value is kept as the text that is shown for it.
#[derive(Clone, Debug, PartialEq, Eq)]
pub enum StatValue {
    Numeric { value: Decimal, text: String },
    Opaque { text: String },
}

/// What a `StatValue` stands for.
pub enum StatValueView {
    Numeric { value: Decimal, text: Seq<char> },
    Opaque { text: Seq<char> },
}

impl View for StatValue {
    type V = StatValueView;

    open spec fn view(&self) -> StatValueView {
        match self {
            StatValue::Numeric { value, text } => StatValueView::Numeric {
                value: *value,
                text: text@,
            },
            StatValue::Opaque { text } => StatValueView::Opaque { text: text@ },
        }
    }
}

impl StatValueView {
    /// The text that is shown for the value.
    pub open spec fn text(self) -> Seq<char> {
        match self {
            StatValueView::Numeric { text, .. } => text,
            StatValueView::Opaque { text } => text,
        }
    }
}

/// The stat value that a JSON value gives. Null gives none. A number gives a
/// numeric value; the one number that has no value, not-a-number, is opaque
/// like every other kind. The text is the one that is shown for the value.
pub open spec fn stat_value_of(model: JsonModel) -> Option<StatValueView> {
    match model {
        JsonModel::Null => None,
        JsonModel::Number(parts) if !parts.nan => Some(
            StatValueView::Numeric {
                value: Decimal {
                    positive: parts.positive,
                    mantissa: parts.mantissa,
                    exponent: parts.exponent,
                },
                text: shown_text(model),
            },
        ),
        _ => Some(StatValueView::Opaque { text: shown_text(model) }),
    }
}

impl StatValue {
    /// Whether the value is a number.
    pub fn is_numeric(&self) -> (numeric: bool)
        ensures
            numeric == (self@ is Numeric),
    {
        match self {
            StatValue::Numeric { .. } => true,
            StatValue::Opaque { .. } => false,
        }
    }

    /// The number, where the value is one.
    pub fn number(&self) -> (number: Option<Decimal>)
        ensures
            number == match self@ {
                StatValueView::Numeric { value, .. } => Some(value),
                StatValueView::Opaque { .. } => None,
            },
    {
        match self {
            StatValue::Numeric { value, .. } => Some(*value),
            StatValue::Opaque { .. } => None,
        }
    }

    /// The text that is shown for the value.
    pub fn text(&self) -> (text: &str)
        ensures
            text@ == self@.text(),
    {
        match self {
            StatValue::Numeric { text, .. } => text.as_str(),
            StatValue::Opaque { text } => text.as_str(),
        }
    }

    /// Reads the stat value off a JSON value: none where the value is null.
    pub fn read(value: &json::JsonValue) -> (read: Option<StatValue>)
        ensures
            match read {
                Some(v) => stat_value_of(json_model(*value)) == Some(v@),
                None => stat_value_of(json_model(*value)) is None,
            },
    {
        match shape(value) {
            Shape::Null => None,
            Shape::Number(parts) => {
                let text = display(value);
                if parts.nan {
                    Some(StatValue::Opaque { text })
                } else {
                    Some(
                        StatValue::Numeric {
                            value: Decimal {
                                positive: parts.positive,
                                mantissa: parts.mantissa,
                                exponent: parts.exponent,
                            },
                            text,
                        },
                    )
                }
            },
            _ => Some(StatValue::Opaque { text: display(value) }),
        }
    }
}

} // verus!
