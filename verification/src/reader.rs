//! Reading one player's stat record: which layout it has, and which of its
//! fields a query selects.
//!
//! A record is nested where its field `stats` is an object: the entries of
//! that object are categories, and the entries of a category are the stat
//! fields. Any other record is flat: its own entries are the stat fields.

use crate::document::{
    document_of, entries, entries_of, field, field_of, json_model, read_document, shape,
    JsonModel, Shape,
};
use crate::stat::{stat_value_of, StatValue, StatValueView};
use crate::text::{chars_of, contains, lowercase, occurs_in, to_lowercase};
use vstd::prelude::*;
use vstd::string::StringExecFns;

verus! {

/// The two layouts of a stat record.
#[derive(Clone, Copy, Debug, PartialEq, Eq, Structural)]
pub enum Schema {
    Nested,
    Flat,
}

/// One selected field: the stat key that it counts under, and its value.
#[derive(Clone, Debug, PartialEq, Eq)]
pub struct Selection {
    pub key: String,
    pub value: StatValue,
}

/// What a `Selection` stands for.
pub struct SelectionView {
    pub key: Seq<char>,
    pub value: StatValueView,
}

impl View for Selection {
    type V = SelectionView;

    open spec fn view(&self) -> SelectionView {
        SelectionView { key: self.key@, value: self.value@ }
    }
}

/// Why a record gave nothing.
#[derive(Clone, Copy, Debug, PartialEq, Eq, Structural)]
pub enum RecordError {
    /// The text of the record is no JSON document, or has a run of digits
    /// too long to be parsed.
    MalformedPayload,
}

/// What each of `selections` stands for.
pub open spec fn views_of(selections: Seq<Selection>) -> Seq<SelectionView> {
    selections.map_values(|s: Selection| s@)
}

/// The layout of a record.
pub open spec fn schema_of(record: JsonModel) -> Schema {
    if field_of(record, "stats"@) is Object {
        Schema::Nested
    } else {
        Schema::Flat
    }
}

/// Whether a field called `name` answers the query: its name holds the
/// query, both taken in lower case.
pub open spec fn answers(name: Seq<char>, query: Seq<char>) -> bool {
    occurs_in(lowercase(query), lowercase(name))
}

/// What one field gives under a query: a selection keyed by `prefix` and the
/// field's name where the name answers the query and the value is not null,
/// and nothing otherwise.
pub open spec fn field_match(
    prefix: Seq<char>,
    entry: (Seq<char>, JsonModel),
    query: Seq<char>,
) -> Seq<SelectionView> {
    match stat_value_of(entry.1) {
        Some(value) if answers(entry.0, query) => seq![
            SelectionView { key: prefix + entry.0, value },
        ],
        _ => Seq::empty(),
    }
}

/// What the fields `entries` give under a query, in their order.
pub open spec fn matches_in(
    prefix: Seq<char>,
    entries: Seq<(Seq<char>, JsonModel)>,
    query: Seq<char>,
) -> Seq<SelectionView>
    decreases entries.len(),
{
    if entries.len() == 0 {
        Seq::empty()
    } else {
        matches_in(prefix, entries.drop_last(), query) + field_match(
            prefix,
            entries.last(),
            query,
        )
    }
}

/// What the categories give under a query, category by category; a field's
/// key is the category's name, a dot and the field's name.
pub open spec fn nested_matches(
    categories: Seq<(Seq<char>, JsonModel)>,
    query: Seq<char>,
) -> Seq<SelectionView>
    decreases categories.len(),
{
    if categories.len() == 0 {
        Seq::empty()
    } else {
        nested_matches(categories.drop_last(), query) + matches_in(
            categories.last().0 + "."@,
            entries_of(categories.last().1),
            query,
        )
    }
}

/// The position of the first category that has a field `key` with a value
/// that is not null, or the number of categories where none has.
pub open spec fn first_holding(categories: Seq<(Seq<char>, JsonModel)>, key: Seq<char>) -> int
    decreases categories.len(),
{
    if categories.len() == 0 {
        0
    } else if !(field_of(categories[0].1, key) is Null) {
        0
    } else {
        1 + first_holding(categories.drop_first(), key)
    }
}

/// What the field `key` of `holder` gives: one selection under the key
/// itself, or nothing where the field is missing or null.
pub open spec fn exact_match(holder: JsonModel, key: Seq<char>) -> Seq<SelectionView> {
    match stat_value_of(field_of(holder, key)) {
        Some(value) => seq![SelectionView { key, value }],
        None => Seq::empty(),
    }
}

/// What the categories give for the exact key: the field of the first
/// category that holds it, and nothing from any later category.
pub open spec fn nested_exact(
    categories: Seq<(Seq<char>, JsonModel)>,
    key: Seq<char>,
) -> Seq<SelectionView> {
    let at = first_holding(categories, key);
    if at < categories.len() {
        exact_match(categories[at].1, key)
    } else {
        Seq::empty()
    }
}

/// What a record gives for a query. With `exact` the query is the name of
/// one field; without, every field whose name holds the query is selected.
pub open spec fn selected(record: JsonModel, query: Seq<char>, exact: bool) -> Seq<SelectionView> {
    match schema_of(record) {
        Schema::Nested => {
            let categories = entries_of(field_of(record, "stats"@));
            if exact {
                nested_exact(categories, query)
            } else {
                nested_matches(categories, query)
            }
        },
        Schema::Flat => {
            if exact {
                exact_match(record, query)
            } else {
                matches_in(Seq::empty(), entries_of(record), query)
            }
        },
    }
}

/// What the text of a record gives for a query: an error where the text is
/// no JSON document.
pub open spec fn record_selection(
    content: Seq<char>,
    query: Seq<char>,
    exact: bool,
) -> Result<Seq<SelectionView>, RecordError> {
    match document_of(content) {
        Some(record) => Ok(selected(record, query, exact)),
        None => Err(RecordError::MalformedPayload),
    }
}

/// Tells the layout of a record.
pub fn classify(record: &json::JsonValue) -> (schema: Schema)
    ensures
        schema == schema_of(json_model(*record)),
{
    match shape(field(record, "stats")) {
        Shape::Object => Schema::Nested,
        _ => Schema::Flat,
    }
}

/// Appends to `out` what the fields of `holder` give under the query, whose
/// lower-case form is `needle`.
fn push_matches(
    out: &mut Vec<Selection>,
    prefix: &str,
    holder: &json::JsonValue,
    needle: &Vec<char>,
    Ghost(query): Ghost<Seq<char>>,
)
    requires
        needle@ == lowercase(query),
    ensures
        views_of(final(out)@) == views_of(old(out)@) + matches_in(
            prefix@,
            entries_of(json_model(*holder)),
            query,
        ),
{
    let fields = entries(holder);
    let ghost all = entries_of(json_model(*holder));
    let ghost before = views_of(out@);
    let mut i: usize = 0;
    assert(all.take(0) =~= Seq::empty());
    assert(before + matches_in(prefix@, all.take(0), query) =~= before);
    while i < fields.len()
        invariant
            i <= fields@.len(),
            fields@.len() == all.len(),
            needle@ == lowercase(query),
            forall|k: int|
                0 <= k < fields@.len() ==> (#[trigger] fields@[k]).0@ == all[k].0 && json_model(
                    *fields@[k].1,
                ) == all[k].1,
            views_of(out@) == before + matches_in(prefix@, all.take(i as int), query),
        decreases fields@.len() - i,
    {
        let name: &str = fields[i].0;
        let value: &json::JsonValue = fields[i].1;
        let ghost entry = all[i as int];
        let ghost done = views_of(out@);
        proof {
            assert(fields@[i as int].0@ == entry.0);
            assert(all.take(i + 1).drop_last() =~= all.take(i as int));
            assert(all.take(i + 1).last() == entry);
        }
        let lower = to_lowercase(name);
        let haystack = chars_of(lower.as_str());
        if contains(&haystack, needle) {
            match StatValue::read(value) {
                Some(read) => {
                    let mut key = String::from_str(prefix);
                    key.append(name);
                    let selection = Selection { key, value: read };
                    out.push(selection);
                    proof {
                        assert(views_of(out@) =~= done.push(selection@));
                        assert(field_match(prefix@, entry, query) =~= seq![selection@]);
                        assert(done.push(selection@) =~= done + seq![selection@]);
                    }
                },
                None => {},
            }
        }
        proof {
            assert(views_of(out@) =~= done + field_match(prefix@, entry, query));
            assert(views_of(out@) =~= before + matches_in(prefix@, all.take(i + 1), query));
        }
        i += 1;
    }
    assert(all.take(fields@.len() as int) =~= all);
}

/// Selects every field of the record whose name holds the query, whatever
/// the case of either; null values are passed over.
pub fn select_matching(record: &json::JsonValue, query: &str) -> (out: Vec<Selection>)
    ensures
        views_of(out@) == selected(json_model(*record), query@, false),
{
    let needle = chars_of(to_lowercase(query).as_str());
    let mut out: Vec<Selection> = Vec::new();
    assert(views_of(out@) =~= Seq::empty());
    match classify(record) {
        Schema::Flat => {
            proof {
                reveal_strlit("");
                assert(""@ =~= Seq::<char>::empty());
            }
            push_matches(&mut out, "", record, &needle, Ghost(query@));
            assert(views_of(out@) =~= matches_in(
                Seq::empty(),
                entries_of(json_model(*record)),
                query@,
            ));
        },
        Schema::Nested => {
            let categories = entries(field(record, "stats"));
            let ghost all = entries_of(field_of(json_model(*record), "stats"@));
            let mut i: usize = 0;
            assert(all.take(0) =~= Seq::empty());
            while i < categories.len()
                invariant
                    i <= categories@.len(),
                    categories@.len() == all.len(),
                    needle@ == lowercase(query@),
                    forall|k: int|
                        0 <= k < categories@.len() ==> (#[trigger] categories@[k]).0@ == all[k].0
                            && json_model(*categories@[k].1) == all[k].1,
                    views_of(out@) == nested_matches(all.take(i as int), query@),
                decreases categories@.len() - i,
            {
                let name: &str = categories[i].0;
                let fields: &json::JsonValue = categories[i].1;
                proof {
                    assert(categories@[i as int].0@ == all[i as int].0);
                    assert(all.take(i + 1).drop_last() =~= all.take(i as int));
                    assert(all.take(i + 1).last() == all[i as int]);
                }
                let mut prefix = String::from_str(name);
                prefix.append(".");
                push_matches(&mut out, prefix.as_str(), fields, &needle, Ghost(query@));
                i += 1;
            }
            assert(all.take(categories@.len() as int) =~= all);
        },
    }
    out
}

/// Reads the field `key` of `holder` as a selection under that key.
fn read_exact(holder: &json::JsonValue, key: &str) -> (out: Option<Selection>)
    ensures
        match out {
            Some(selection) => exact_match(json_model(*holder), key@) == seq![selection@],
            None => exact_match(json_model(*holder), key@) == Seq::<SelectionView>::empty(),
        },
        out is None <==> field_of(json_model(*holder), key@) is Null,
{
    match StatValue::read(field(holder, key)) {
        Some(value) => Some(Selection { key: String::from_str(key), value }),
        None => None,
    }
}

/// Selects the field whose name is `key`. A nested record gives the field
/// of the first category that holds it, and at most that one; a flat record
/// gives its own field. A missing or null field gives nothing.
pub fn select_exact(record: &json::JsonValue, key: &str) -> (out: Vec<Selection>)
    ensures
        views_of(out@) == selected(json_model(*record), key@, true),
{
    let mut out: Vec<Selection> = Vec::new();
    assert(views_of(out@) =~= Seq::empty());
    match classify(record) {
        Schema::Flat => {
            match read_exact(record, key) {
                Some(selection) => {
                    out.push(selection);
                    assert(views_of(out@) =~= seq![selection@]);
                },
                None => {},
            }
        },
        Schema::Nested => {
            let categories = entries(field(record, "stats"));
            let ghost all = entries_of(field_of(json_model(*record), "stats"@));
            let mut i: usize = 0;
            assert(all.skip(0) =~= all);
            while i < categories.len()
                invariant
                    i <= categories@.len(),
                    categories@.len() == all.len(),
                    forall|k: int|
                        0 <= k < categories@.len() ==> (#[trigger] categories@[k]).0@ == all[k].0
                            && json_model(*categories@[k].1) == all[k].1,
                    schema_of(json_model(*record)) == Schema::Nested,
                    all == entries_of(field_of(json_model(*record), "stats"@)),
                    first_holding(all, key@) == i + first_holding(all.skip(i as int), key@),
                    views_of(out@) == Seq::<SelectionView>::empty(),
                decreases categories@.len() - i,
            {
                let fields: &json::JsonValue = categories[i].1;
                proof {
                    assert(json_model(*categories@[i as int].1) == all[i as int].1);
                    assert(all.skip(i as int)[0] == all[i as int]);
                    assert(all.skip(i as int).drop_first() =~= all.skip(i + 1));
                }
                match read_exact(fields, key) {
                    Some(selection) => {
                        out.push(selection);
                        assert(views_of(out@) =~= seq![selection@]);
                        proof {
                            assert(json_model(*fields) == all[i as int].1);
                            assert(first_holding(all.skip(i as int), key@) == 0);
                            assert(first_holding(all, key@) == i);
                            assert(nested_exact(all, key@) == exact_match(all[i as int].1, key@));
                        }
                        return out;
                    },
                    None => {},
                }
                i += 1;
            }
        },
    }
    out
}

/// Selects the fields of a record that a query names: the one field of that
/// name with `exact`, every field whose name holds the query without.
pub fn select(record: &json::JsonValue, query: &str, exact: bool) -> (out: Vec<Selection>)
    ensures
        views_of(out@) == selected(json_model(*record), query@, exact),
{
    if exact {
        select_exact(record, query)
    } else {
        select_matching(record, query)
    }
}

/// Reads the text of one player's record and selects the fields that the
/// query names. A text that is no JSON document is an error of this record
/// alone.
pub fn read_record(content: &str, query: &str, exact: bool) -> (result: Result<
    Vec<Selection>,
    RecordError,
>)
    ensures
        match result {
            Ok(out) => record_selection(content@, query@, exact) == Ok::<
                Seq<SelectionView>,
                RecordError,
            >(views_of(out@)),
            Err(e) => record_selection(content@, query@, exact) == Err::<
                Seq<SelectionView>,
                RecordError,
            >(e),
        },
{
    match read_document(content) {
        Some(record) => Ok(select(&record, query, exact)),
        None => Err(RecordError::MalformedPayload),
    }
}

/// An exact query gives at most one selection for a record, however many
/// categories hold a field of that name.
pub proof fn lemma_exact_gives_at_most_one(record: JsonModel, key: Seq<char>)
    ensures
        selected(record, key, true).len() <= 1,
        forall|k: int| 0 <= k < selected(record, key, true).len() ==> (#[trigger] selected(
            record,
            key,
            true,
        )[k]).key == key,
{
}

/// The position that `first_holding` gives is that of a category that holds
/// the key, and no category before it holds the key.
pub proof fn lemma_first_holding(categories: Seq<(Seq<char>, JsonModel)>, key: Seq<char>)
    ensures
        0 <= first_holding(categories, key) <= categories.len(),
        first_holding(categories, key) < categories.len() ==> !(field_of(
            categories[first_holding(categories, key)].1,
            key,
        ) is Null),
        forall|i: int|
            0 <= i < first_holding(categories, key) ==> field_of(
                (#[trigger] categories[i]).1,
                key,
            ) is Null,
    decreases categories.len(),
{
    if categories.len() > 0 && field_of(categories[0].1, key) is Null {
        let rest = categories.drop_first();
        lemma_first_holding(rest, key);
        assert forall|i: int| 0 <= i < first_holding(categories, key) implies field_of(
            (#[trigger] categories[i]).1,
            key,
        ) is Null by {
            if i > 0 {
                assert(rest[i - 1] == categories[i]);
            }
        }
    }
}

/// An exact query on a nested record is answered by the first category
/// that holds the key: where category `at` holds it and none before does,
/// the selection is the field of that category, whatever stands in the
/// categories behind it.
pub proof fn lemma_first_category_answers(
    categories: Seq<(Seq<char>, JsonModel)>,
    key: Seq<char>,
    at: int,
)
    requires
        0 <= at < categories.len(),
        !(field_of(categories[at].1, key) is Null),
        forall|i: int| 0 <= i < at ==> field_of((#[trigger] categories[i]).1, key) is Null,
    ensures
        nested_exact(categories, key) == exact_match(categories[at].1, key),
        nested_exact(categories, key).len() == 1,
{
    lemma_first_holding(categories, key);
    let first = first_holding(categories, key);
    if first < at {
        assert(field_of(categories[first].1, key) is Null);
    } else if first > at {
        assert(field_of(categories[at].1, key) is Null);
    }
}

/// A field whose value is null gives nothing, under every query.
pub proof fn lemma_null_field_gives_nothing(prefix: Seq<char>, name: Seq<char>, query: Seq<char>)
    ensures
        field_match(prefix, (name, JsonModel::Null), query) == Seq::<SelectionView>::empty(),
        exact_match(JsonModel::Object(seq![(name, JsonModel::Null)]), name) == Seq::<
            SelectionView,
        >::empty(),
{
    let entries = seq![(name, JsonModel::Null)];
    assert(crate::document::position_of(entries, name) == 0);
}

/// Fields that are all null give nothing, under every query.
pub proof fn lemma_null_fields_give_nothing(
    prefix: Seq<char>,
    entries: Seq<(Seq<char>, JsonModel)>,
    query: Seq<char>,
)
    requires
        forall|i: int| 0 <= i < entries.len() ==> (#[trigger] entries[i]).1 is Null,
    ensures
        matches_in(prefix, entries, query) == Seq::<SelectionView>::empty(),
    decreases entries.len(),
{
    if entries.len() > 0 {
        let rest = entries.drop_last();
        assert forall|i: int| 0 <= i < rest.len() implies (#[trigger] rest[i]).1 is Null by {
            assert(rest[i] == entries[i]);
        }
        lemma_null_fields_give_nothing(prefix, rest, query);
        assert(entries.last() == entries[entries.len() - 1]);
        assert(matches_in(prefix, entries, query) =~= Seq::<SelectionView>::empty());
    }
}

/// Every selection of a query that is not exact stems from a field whose
/// name answers the query and whose value is not null, and no more
/// selections are made than there are fields.
pub proof fn lemma_matches_stem_from_fields(
    prefix: Seq<char>,
    entries: Seq<(Seq<char>, JsonModel)>,
    query: Seq<char>,
)
    ensures
        matches_in(prefix, entries, query).len() <= entries.len(),
        forall|k: int|
            0 <= k < matches_in(prefix, entries, query).len() ==> exists|i: int|
                0 <= i < entries.len() && answers(entries[i].0, query) && !(entries[i].1 is Null)
                    && #[trigger] field_match(prefix, entries[i], query) == seq![
                    #[trigger] matches_in(prefix, entries, query)[k],
                ],
    decreases entries.len(),
{
    if entries.len() > 0 {
        let rest = entries.drop_last();
        let last = entries.last();
        lemma_matches_stem_from_fields(prefix, rest, query);
        let head = matches_in(prefix, rest, query);
        let all = matches_in(prefix, entries, query);
        assert forall|k: int| 0 <= k < all.len() implies exists|i: int|
            0 <= i < entries.len() && answers(entries[i].0, query) && !(entries[i].1 is Null)
                && #[trigger] field_match(prefix, entries[i], query) == seq![#[trigger] all[k]] by {
            if k < head.len() {
                assert(all[k] == head[k]);
                let i = choose|i: int|
                    0 <= i < rest.len() && answers(rest[i].0, query) && !(rest[i].1 is Null)
                        && #[trigger] field_match(prefix, rest[i], query) == seq![head[k]];
                assert(rest[i] == entries[i]);
            } else {
                let i = entries.len() - 1;
                assert(entries[i] == last);
                assert(field_match(prefix, last, query) =~= seq![all[k]]);
            }
        }
    }
}

/// A query that is not exact is read without regard to case: two queries
/// with one lower-case form select the same.
pub proof fn lemma_query_case(record: JsonModel, first: Seq<char>, second: Seq<char>)
    requires
        lowercase(first) == lowercase(second),
    ensures
        selected(record, first, false) == selected(record, second, false),
{
    match schema_of(record) {
        Schema::Nested => {
            lemma_nested_query_case(entries_of(field_of(record, "stats"@)), first, second);
        },
        Schema::Flat => {
            lemma_fields_query_case(Seq::empty(), entries_of(record), first, second);
        },
    }
}

proof fn lemma_fields_query_case(
    prefix: Seq<char>,
    entries: Seq<(Seq<char>, JsonModel)>,
    first: Seq<char>,
    second: Seq<char>,
)
    requires
        lowercase(first) == lowercase(second),
    ensures
        matches_in(prefix, entries, first) == matches_in(prefix, entries, second),
    decreases entries.len(),
{
    if entries.len() > 0 {
        lemma_fields_query_case(prefix, entries.drop_last(), first, second);
    }
}

proof fn lemma_nested_query_case(
    categories: Seq<(Seq<char>, JsonModel)>,
    first: Seq<char>,
    second: Seq<char>,
)
    requires
        lowercase(first) == lowercase(second),
    ensures
        nested_matches(categories, first) == nested_matches(categories, second),
    decreases categories.len(),
{
    if categories.len() > 0 {
        lemma_nested_query_case(categories.drop_last(), first, second);
        lemma_fields_query_case(
            categories.last().0 + "."@,
            entries_of(categories.last().1),
            first,
            second,
        );
    }
}

/// The name of a field is read without regard to case as well: whether it
/// answers a query rests on its lower-case form alone.
pub proof fn lemma_name_case(first: Seq<char>, second: Seq<char>, query: Seq<char>)
    requires
        lowercase(first) == lowercase(second),
    ensures
        answers(first, query) == answers(second, query),
{
}

} // verus!
