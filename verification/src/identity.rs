//! The identity table: which display name belongs to which player
//! identifier.
//!
//! The table is filled from up to three sources. A source is taken whole or
//! not at all: where one of its entries lacks a field, nothing of that source
//! reaches the table.

use crate::document::{
    document_of, entries, entries_of, field, field_of, json_model, members, members_of,
    read_document, shape, JsonModel, Shape,
};
use vstd::hash_map::StringHashMap;
use vstd::prelude::*;
use vstd::string::StringExecFns;

verus! {

/// Why a source was not loaded.
#[derive(Clone, Copy, Debug, PartialEq, Eq, Structural)]
pub enum LoadError {
    /// The text of the source is no JSON document, or has a run of digits
    /// too long to be parsed.
    MalformedPayload,
    /// An entry has no text under `uuid`.
    MissingUuid,
    /// An entry has no text for the name.
    MissingName,
}

/// An identifier with its display name.
pub type Pair = (Seq<char>, Seq<char>);

/// The text that the entry `name` of `holder` holds, where it holds one.
pub open spec fn text_field(holder: JsonModel, name: Seq<char>) -> Option<Seq<char>> {
    match field_of(holder, name) {
        JsonModel::Text(text) => Some(text),
        _ => None,
    }
}

/// The pair that one entry of a list source gives, from its fields `uuid`
/// and `name`; the identifier is looked at first.
pub open spec fn listed_pair(member: JsonModel) -> Result<Pair, LoadError> {
    match text_field(member, "uuid"@) {
        None => Err(LoadError::MissingUuid),
        Some(identifier) => match text_field(member, "name"@) {
            None => Err(LoadError::MissingName),
            Some(name) => Ok((identifier, name)),
        },
    }
}

/// The pairs of a list source in order, or the error of the first entry
/// that gives no pair.
pub open spec fn listed_pairs(members: Seq<JsonModel>) -> Result<Seq<Pair>, LoadError>
    decreases members.len(),
{
    if members.len() == 0 {
        Ok(Seq::empty())
    } else {
        match listed_pairs(members.drop_last()) {
            Err(e) => Err(e),
            Ok(pairs) => match listed_pair(members.last()) {
                Err(e) => Err(e),
                Ok(pair) => Ok(pairs.push(pair)),
            },
        }
    }
}

/// The pairs of a name cache in order: each entry maps an identifier to a
/// name, which must be a text.
pub open spec fn cached_pairs(entries: Seq<(Seq<char>, JsonModel)>) -> Result<Seq<Pair>, LoadError>
    decreases entries.len(),
{
    if entries.len() == 0 {
        Ok(Seq::empty())
    } else {
        match cached_pairs(entries.drop_last()) {
            Err(e) => Err(e),
            Ok(pairs) => match entries.last().1 {
                JsonModel::Text(name) => Ok(pairs.push((entries.last().0, name))),
                _ => Err(LoadError::MissingName),
            },
        }
    }
}

/// The table after `pairs` are added one by one. With `overwrite` a pair
/// replaces the name that its identifier had; without, a pair is dropped
/// where its identifier has a name already.
pub open spec fn merged(
    table: Map<Seq<char>, Seq<char>>,
    pairs: Seq<Pair>,
    overwrite: bool,
) -> Map<Seq<char>, Seq<char>>
    decreases pairs.len(),
{
    if pairs.len() == 0 {
        table
    } else {
        let before = merged(table, pairs.drop_last(), overwrite);
        if !overwrite && before.contains_key(pairs.last().0) {
            before
        } else {
            before.insert(pairs.last().0, pairs.last().1)
        }
    }
}

/// What loading a source does: the result that is reported, and the table
/// afterwards. An error leaves the table as it was.
pub open spec fn loaded(
    table: Map<Seq<char>, Seq<char>>,
    pairs: Result<Seq<Pair>, LoadError>,
    overwrite: bool,
) -> (Result<(), LoadError>, Map<Seq<char>, Seq<char>>) {
    match pairs {
        Ok(pairs) => (Ok(()), merged(table, pairs, overwrite)),
        Err(e) => (Err(e), table),
    }
}

/// The pairs that the text of a list source holds.
pub open spec fn list_source(content: Seq<char>) -> Result<Seq<Pair>, LoadError> {
    match document_of(content) {
        Some(document) => listed_pairs(members_of(document)),
        None => Err(LoadError::MalformedPayload),
    }
}

/// The pairs that the text of a name cache holds.
pub open spec fn cache_source(content: Seq<char>) -> Result<Seq<Pair>, LoadError> {
    match document_of(content) {
        Some(document) => cached_pairs(entries_of(document)),
        None => Err(LoadError::MalformedPayload),
    }
}

/// What each of `pairs` stands for.
pub open spec fn pair_views(pairs: Seq<(String, String)>) -> Seq<Pair> {
    pairs.map_values(|p: (String, String)| (p.0@, p.1@))
}

/// The text under `name` in `holder`, where there is one.
fn read_text<'a>(holder: &'a json::JsonValue, name: &str) -> (text: Option<&'a str>)
    ensures
        match text {
            Some(t) => text_field(json_model(*holder), name@) == Some(t@),
            None => text_field(json_model(*holder), name@) is None,
        },
{
    match shape(field(holder, name)) {
        Shape::Text(t) => Some(t),
        _ => None,
    }
}

/// Reads the pairs of a list source.
pub fn read_list(document: &json::JsonValue) -> (result: Result<Vec<(String, String)>, LoadError>)
    ensures
        match result {
            Ok(pairs) => listed_pairs(members_of(json_model(*document))) == Ok::<
                Seq<Pair>,
                LoadError,
            >(pair_views(pairs@)),
            Err(e) => listed_pairs(members_of(json_model(*document))) == Err::<
                Seq<Pair>,
                LoadError,
            >(e),
        },
{
    let items = members(document);
    let ghost all = members_of(json_model(*document));
    let mut pairs: Vec<(String, String)> = Vec::new();
    let mut i: usize = 0;
    assert(all.take(0) =~= Seq::empty());
    assert(pair_views(pairs@) =~= Seq::empty());
    while i < items.len()
        invariant
            i <= items@.len(),
            items@.len() == all.len(),
            all == members_of(json_model(*document)),
            forall|k: int| 0 <= k < items@.len() ==> json_model(*#[trigger] items@[k]) == all[k],
            listed_pairs(all.take(i as int)) == Ok::<Seq<Pair>, LoadError>(pair_views(pairs@)),
        decreases items@.len() - i,
    {
        let member: &json::JsonValue = items[i];
        let ghost upto = all.take(i + 1);
        proof {
            assert(json_model(*items@[i as int]) == all[i as int]);
            assert(upto.drop_last() =~= all.take(i as int));
            assert(upto.last() == all[i as int]);
        }
        let identifier = match read_text(member, "uuid") {
            Some(t) => t,
            None => {
                proof {
                    assert(listed_pairs(upto) == Err::<Seq<Pair>, LoadError>(
                        LoadError::MissingUuid,
                    ));
                    lemma_listed_pairs_fail(all, i + 1);
                }
                return Err(LoadError::MissingUuid);
            },
        };
        let name = match read_text(member, "name") {
            Some(t) => t,
            None => {
                proof {
                    assert(listed_pairs(upto) == Err::<Seq<Pair>, LoadError>(
                        LoadError::MissingName,
                    ));
                    lemma_listed_pairs_fail(all, i + 1);
                }
                return Err(LoadError::MissingName);
            },
        };
        let ghost before = pair_views(pairs@);
        pairs.push((String::from_str(identifier), String::from_str(name)));
        assert(pair_views(pairs@) =~= before.push((identifier@, name@)));
        i += 1;
    }
    assert(all.take(items@.len() as int) =~= all);
    Ok(pairs)
}

/// Reads the pairs of a name cache.
pub fn read_cache(document: &json::JsonValue) -> (result: Result<Vec<(String, String)>, LoadError>)
    ensures
        match result {
            Ok(pairs) => cached_pairs(entries_of(json_model(*document))) == Ok::<
                Seq<Pair>,
                LoadError,
            >(pair_views(pairs@)),
            Err(e) => cached_pairs(entries_of(json_model(*document))) == Err::<
                Seq<Pair>,
                LoadError,
            >(e),
        },
{
    let items = entries(document);
    let ghost all = entries_of(json_model(*document));
    let mut pairs: Vec<(String, String)> = Vec::new();
    let mut i: usize = 0;
    assert(all.take(0) =~= Seq::empty());
    assert(pair_views(pairs@) =~= Seq::empty());
    while i < items.len()
        invariant
            i <= items@.len(),
            items@.len() == all.len(),
            forall|k: int|
                0 <= k < items@.len() ==> (#[trigger] items@[k]).0@ == all[k].0 && json_model(
                    *items@[k].1,
                ) == all[k].1,
            all == entries_of(json_model(*document)),
            cached_pairs(all.take(i as int)) == Ok::<Seq<Pair>, LoadError>(pair_views(pairs@)),
        decreases items@.len() - i,
    {
        let identifier: &str = items[i].0;
        let value: &json::JsonValue = items[i].1;
        let ghost upto = all.take(i + 1);
        proof {
            assert(items@[i as int].0@ == all[i as int].0);
            assert(upto.drop_last() =~= all.take(i as int));
            assert(upto.last() == all[i as int]);
        }
        let name = match shape(value) {
            Shape::Text(t) => t,
            _ => {
                proof {
                    assert(cached_pairs(upto) == Err::<Seq<Pair>, LoadError>(
                        LoadError::MissingName,
                    ));
                    lemma_cached_pairs_fail(all, i + 1);
                }
                return Err(LoadError::MissingName);
            },
        };
        let ghost before = pair_views(pairs@);
        pairs.push((String::from_str(identifier), String::from_str(name)));
        assert(pair_views(pairs@) =~= before.push((identifier@, name@)));
        i += 1;
    }
    assert(all.take(items@.len() as int) =~= all);
    Ok(pairs)
}

/// A list source whose first `n` entries fail, fails as they do.
proof fn lemma_listed_pairs_fail(members: Seq<JsonModel>, n: int)
    requires
        0 <= n <= members.len(),
        listed_pairs(members.take(n)) is Err,
    ensures
        listed_pairs(members) == listed_pairs(members.take(n)),
    decreases members.len() - n,
{
    if n < members.len() {
        assert(members.take(n + 1).drop_last() =~= members.take(n));
        lemma_listed_pairs_fail(members, n + 1);
    } else {
        assert(members.take(n) =~= members);
    }
}

/// A name cache whose first `n` entries fail, fails as they do.
proof fn lemma_cached_pairs_fail(entries: Seq<(Seq<char>, JsonModel)>, n: int)
    requires
        0 <= n <= entries.len(),
        cached_pairs(entries.take(n)) is Err,
    ensures
        cached_pairs(entries) == cached_pairs(entries.take(n)),
    decreases entries.len() - n,
{
    if n < entries.len() {
        assert(entries.take(n + 1).drop_last() =~= entries.take(n));
        lemma_cached_pairs_fail(entries, n + 1);
    } else {
        assert(entries.take(n) =~= entries);
    }
}

/// Without `overwrite` a name that the table has is never replaced, and an
/// identifier that the table did not name has its name from one of the
/// pairs.
pub proof fn lemma_merged_fills(table: Map<Seq<char>, Seq<char>>, pairs: Seq<Pair>)
    ensures
        forall|identifier: Seq<char>| #[trigger]
            table.contains_key(identifier) ==> merged(table, pairs, false).contains_key(
                identifier,
            ) && merged(table, pairs, false)[identifier] == table[identifier],
        forall|identifier: Seq<char>| #[trigger]
            merged(table, pairs, false).contains_key(identifier) ==> table.contains_key(
                identifier,
            ) || exists|i: int|
                0 <= i < pairs.len() && #[trigger] pairs[i] == (
                    identifier,
                    merged(table, pairs, false)[identifier],
                ),
    decreases pairs.len(),
{
    if pairs.len() > 0 {
        let rest = pairs.drop_last();
        let last = pairs.last();
        lemma_merged_fills(table, rest);
        let before = merged(table, rest, false);
        let after = merged(table, pairs, false);
        assert forall|identifier: Seq<char>| #[trigger]
            after.contains_key(identifier) implies table.contains_key(identifier) || exists|
            i: int,
        |
            0 <= i < pairs.len() && #[trigger] pairs[i] == (identifier, after[identifier]) by {
            if before.contains_key(identifier) {
                if !table.contains_key(identifier) {
                    let i = choose|i: int|
                        0 <= i < rest.len() && #[trigger] rest[i] == (
                            identifier,
                            before[identifier],
                        );
                    assert(pairs[i] == rest[i]);
                }
            } else {
                assert(pairs[pairs.len() - 1] == last);
            }
        }
    }
}

/// With `overwrite` an identifier has the name of the last pair that names
/// it, and any other identifier has what it had.
pub proof fn lemma_merged_overwrites(
    table: Map<Seq<char>, Seq<char>>,
    pairs: Seq<Pair>,
    identifier: Seq<char>,
)
    ensures
        (forall|i: int| 0 <= i < pairs.len() ==> (#[trigger] pairs[i]).0 != identifier) ==> merged(
            table,
            pairs,
            true,
        ).contains_key(identifier) == table.contains_key(identifier) && (table.contains_key(
            identifier,
        ) ==> merged(table, pairs, true)[identifier] == table[identifier]),
        forall|i: int|
            0 <= i < pairs.len() && (#[trigger] pairs[i]).0 == identifier && (forall|j: int|
                i < j < pairs.len() ==> (#[trigger] pairs[j]).0 != identifier) ==> merged(
                table,
                pairs,
                true,
            ).contains_key(identifier) && merged(table, pairs, true)[identifier] == pairs[i].1,
    decreases pairs.len(),
{
    if pairs.len() > 0 {
        let rest = pairs.drop_last();
        lemma_merged_overwrites(table, rest, identifier);
        assert forall|i: int|
            0 <= i < pairs.len() && (#[trigger] pairs[i]).0 == identifier && (forall|j: int|
                i < j < pairs.len() ==> (#[trigger] pairs[j]).0 != identifier) implies merged(
            table,
            pairs,
            true,
        ).contains_key(identifier) && merged(table, pairs, true)[identifier] == pairs[i].1 by {
            if i < pairs.len() - 1 {
                assert(rest[i] == pairs[i]);
                assert(pairs[pairs.len() - 1].0 != identifier);
                assert forall|j: int| i < j < rest.len() implies (#[trigger] rest[j]).0
                    != identifier by {
                    assert(rest[j] == pairs[j]);
                }
            }
        }
        if forall|i: int| 0 <= i < pairs.len() ==> (#[trigger] pairs[i]).0 != identifier {
            assert forall|i: int| 0 <= i < rest.len() implies (#[trigger] rest[i]).0
                != identifier by {
                assert(rest[i] == pairs[i]);
            }
            assert(pairs[pairs.len() - 1].0 != identifier);
        }
    }
}

/// The identity table.
pub struct IdMap {
    map: StringHashMap<String>,
}

impl View for IdMap {
    type V = Map<Seq<char>, Seq<char>>;

    closed spec fn view(&self) -> Map<Seq<char>, Seq<char>> {
        Map::new(|k: Seq<char>| self.map@.contains_key(k), |k: Seq<char>| self.map@[k]@)
    }
}

impl Default for IdMap {
    /// The empty table.
    fn default() -> (table: IdMap)
        ensures
            table@ == Map::<Seq<char>, Seq<char>>::empty(),
    {
        IdMap::new()
    }
}

impl IdMap {
    /// The empty table.
    pub fn new() -> (table: IdMap)
        ensures
            table@ == Map::<Seq<char>, Seq<char>>::empty(),
    {
        let table = IdMap { map: StringHashMap::new() };
        assert(table@ =~= Map::empty());
        table
    }

    /// The display name of `identifier`, where the table has one.
    pub fn get(&self, identifier: &str) -> (name: Option<&str>)
        ensures
            match name {
                Some(n) => self@.contains_key(identifier@) && self@[identifier@] == n@,
                None => !self@.contains_key(identifier@),
            },
    {
        match self.map.get(identifier) {
            Some(name) => Some(name.as_str()),
            None => None,
        }
    }

    /// Whether the table has a name for `identifier`.
    pub fn contains(&self, identifier: &str) -> (found: bool)
        ensures
            found == self@.contains_key(identifier@),
    {
        self.map.contains_key(identifier)
    }

    /// Gives `identifier` the display name `name`, whatever it had.
    pub fn insert(&mut self, identifier: String, name: String)
        ensures
            final(self)@ == old(self)@.insert(identifier@, name@),
    {
        self.map.insert(identifier, name);
        assert(self@ =~= old(self)@.insert(identifier@, name@));
    }

    /// Adds `pairs` one by one: with `overwrite` each replaces what its
    /// identifier had, without it only identifiers that have no name yet
    /// are given one.
    pub fn merge(&mut self, pairs: Vec<(String, String)>, overwrite: bool)
        ensures
            final(self)@ == merged(old(self)@, pair_views(pairs@), overwrite),
    {
        let ghost all = pair_views(pairs@);
        assert(all.take(0) =~= Seq::empty());
        for pair in it: pairs
            invariant
                it.seq() == pairs@,
                all == pair_views(pairs@),
                self@ == merged(old(self)@, all.take(it.index()), overwrite),
        {
            proof {
                let k = it.index();
                assert(all.take(k + 1).drop_last() =~= all.take(k));
                assert(all.take(k + 1).last() == (pair.0@, pair.1@));
            }
            let (identifier, name) = pair;
            if overwrite || !self.contains(identifier.as_str()) {
                self.insert(identifier, name);
            }
        }
        assert(all.take(pairs@.len() as int) =~= all);
    }

    /// Applies the pairs of a source that was read, or reports why it was
    /// not read.
    fn apply(
        &mut self,
        source: Result<Vec<(String, String)>, LoadError>,
        overwrite: bool,
    ) -> (result: Result<(), LoadError>)
        ensures
            match source {
                Ok(pairs) => (result, final(self)@) == loaded(
                    old(self)@,
                    Ok(pair_views(pairs@)),
                    overwrite,
                ),
                Err(e) => (result, final(self)@) == loaded(old(self)@, Err(e), overwrite),
            },
    {
        match source {
            Ok(pairs) => {
                self.merge(pairs, overwrite);
                Ok(())
            },
            Err(e) => Err(e),
        }
    }

    /// Loads the whitelist, a list of entries with `uuid` and `name`: an
    /// identifier is given its name only where it has none yet.
    pub fn load_whitelist(&mut self, content: &str) -> (result: Result<(), LoadError>)
        ensures
            (result, final(self)@) == loaded(old(self)@, list_source(content@), false),
    {
        let source = match read_document(content) {
            Some(document) => read_list(&document),
            None => Err(LoadError::MalformedPayload),
        };
        self.apply(source, false)
    }

    /// Loads the name cache, an object that maps identifiers to names:
    /// every entry replaces the name that its identifier had.
    pub fn load_user_name_cache(&mut self, content: &str) -> (result: Result<(), LoadError>)
        ensures
            (result, final(self)@) == loaded(old(self)@, cache_source(content@), true),
    {
        let source = match read_document(content) {
            Some(document) => read_cache(&document),
            None => Err(LoadError::MalformedPayload),
        };
        self.apply(source, true)
    }

    /// Loads the user registry, a list of entries with `uuid` and `name`:
    /// every entry replaces the name that its identifier had.
    pub fn load_user_name(&mut self, content: &str) -> (result: Result<(), LoadError>)
        ensures
            (result, final(self)@) == loaded(old(self)@, list_source(content@), true),
    {
        let source = match read_document(content) {
            Some(document) => read_list(&document),
            None => Err(LoadError::MalformedPayload),
        };
        self.apply(source, true)
    }
}

} // verus!
