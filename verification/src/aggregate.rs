//! Gathering observations into one bucket per stat key.
//!
//! Buckets stand in the order in which their keys were first seen, and the
//! observations of a bucket in the order in which they were recorded.

use crate::reader::{read_record, record_selection, RecordError, Selection, SelectionView};
use crate::stat::{StatValue, StatValueView};
use crate::text::same_text;
use vstd::prelude::*;

verus! {

/// One player's value for one statistic.
#[derive(Clone, Debug, PartialEq, Eq)]
pub struct Observation {
    pub identifier: String,
    pub value: StatValue,
}

/// What an `Observation` stands for.
pub struct ObservationView {
    pub identifier: Seq<char>,
    pub value: StatValueView,
}

impl View for Observation {
    type V = ObservationView;

    open spec fn view(&self) -> ObservationView {
        ObservationView { identifier: self.identifier@, value: self.value@ }
    }
}

/// The observations of one stat key. The bucket is numeric where the first
/// value that it was given is a number; values given later do not change
/// that.
#[derive(Clone, Debug, PartialEq, Eq)]
pub struct Bucket {
    key: String,
    numeric: bool,
    observations: Vec<Observation>,
}

/// What a `Bucket` stands for.
pub struct BucketView {
    pub key: Seq<char>,
    pub numeric: bool,
    pub observations: Seq<ObservationView>,
}

impl BucketView {
    /// A bucket holds at least one observation, and is numeric exactly
    /// where the value of its first observation is a number.
    pub open spec fn wf(self) -> bool {
        &&& self.observations.len() > 0
        &&& self.numeric == (self.observations[0].value is Numeric)
    }

    /// The bucket with one more observation at its end.
    pub open spec fn with(self, observation: ObservationView) -> BucketView {
        BucketView {
            key: self.key,
            numeric: self.numeric,
            observations: self.observations.push(observation),
        }
    }

    /// The bucket that a first observation opens.
    pub open spec fn opened(key: Seq<char>, observation: ObservationView) -> BucketView {
        BucketView {
            key,
            numeric: observation.value is Numeric,
            observations: seq![observation],
        }
    }
}

impl View for Bucket {
    type V = BucketView;

    closed spec fn view(&self) -> BucketView {
        BucketView {
            key: self.key@,
            numeric: self.numeric,
            observations: self.observations@.map_values(|o: Observation| o@),
        }
    }
}

impl Bucket {
    /// Opens a bucket with its first observation.
    pub fn open(key: String, observation: Observation) -> (bucket: Bucket)
        ensures
            bucket@ == BucketView::opened(key@, observation@),
            bucket@.wf(),
    {
        let numeric = observation.value.is_numeric();
        let mut observations: Vec<Observation> = Vec::new();
        observations.push(observation);
        let bucket = Bucket { key, numeric, observations };
        assert(bucket@.observations =~= seq![observation@]);
        bucket
    }

    /// Adds an observation at the end.
    pub fn push(&mut self, observation: Observation)
        ensures
            final(self)@ == old(self)@.with(observation@),
            old(self)@.wf() ==> final(self)@.wf(),
    {
        self.observations.push(observation);
        assert(self@.observations =~= old(self)@.observations.push(observation@));
    }

    /// The stat key.
    pub fn key(&self) -> (key: &str)
        ensures
            key@ == self@.key,
    {
        self.key.as_str()
    }

    /// Whether the bucket is numeric.
    pub fn is_numeric(&self) -> (numeric: bool)
        ensures
            numeric == self@.numeric,
    {
        self.numeric
    }

    /// The number of observations.
    pub fn len(&self) -> (len: usize)
        ensures
            len == self@.observations.len(),
    {
        self.observations.len()
    }

    /// The observation at position `at`, counted in the order of recording.
    pub fn observation(&self, at: usize) -> (observation: &Observation)
        requires
            at < self@.observations.len(),
        ensures
            observation@ == self@.observations[at as int],
    {
        &self.observations[at]
    }
}

/// The position of the first bucket for `key`, or the number of buckets
/// where there is none.
pub open spec fn bucket_position(buckets: Seq<BucketView>, key: Seq<char>) -> int
    decreases buckets.len(),
{
    if buckets.len() == 0 {
        0
    } else if buckets[0].key == key {
        0
    } else {
        1 + bucket_position(buckets.drop_first(), key)
    }
}

/// The buckets after one observation is recorded under `key`: it joins the
/// bucket of that key at its end, or opens a new bucket behind the others.
pub open spec fn recorded(
    buckets: Seq<BucketView>,
    key: Seq<char>,
    observation: ObservationView,
) -> Seq<BucketView> {
    let at = bucket_position(buckets, key);
    if at < buckets.len() {
        buckets.update(at, buckets[at].with(observation))
    } else {
        buckets.push(BucketView::opened(key, observation))
    }
}

/// The buckets after each of `selections` is recorded for the player
/// `identifier`, in their order.
pub open spec fn recorded_all(
    buckets: Seq<BucketView>,
    identifier: Seq<char>,
    selections: Seq<SelectionView>,
) -> Seq<BucketView>
    decreases selections.len(),
{
    if selections.len() == 0 {
        buckets
    } else {
        recorded(
            recorded_all(buckets, identifier, selections.drop_last()),
            selections.last().key,
            ObservationView { identifier, value: selections.last().value },
        )
    }
}

/// No two of `buckets` have the same key.
pub open spec fn distinct_keys(buckets: Seq<BucketView>) -> bool {
    forall|i: int, j: int|
        0 <= i < j < buckets.len() ==> (#[trigger] buckets[i]).key != (#[trigger] buckets[j]).key
}

/// The buckets of one run.
#[derive(Clone, Debug, PartialEq, Eq)]
pub struct Aggregation {
    buckets: Vec<Bucket>,
}

impl View for Aggregation {
    type V = Seq<BucketView>;

    closed spec fn view(&self) -> Seq<BucketView> {
        self.buckets@.map_values(|b: Bucket| b@)
    }
}

/// Where `position` is that of a bucket, the bucket has the key; no bucket
/// before `position` has it.
pub proof fn lemma_bucket_position(buckets: Seq<BucketView>, key: Seq<char>)
    ensures
        0 <= bucket_position(buckets, key) <= buckets.len(),
        bucket_position(buckets, key) < buckets.len() ==> buckets[bucket_position(
            buckets,
            key,
        )].key == key,
        forall|i: int|
            0 <= i < bucket_position(buckets, key) ==> (#[trigger] buckets[i]).key != key,
    decreases buckets.len(),
{
    if buckets.len() > 0 && buckets[0].key != key {
        let rest = buckets.drop_first();
        lemma_bucket_position(rest, key);
        assert forall|i: int| 0 <= i < bucket_position(buckets, key) implies (
        #[trigger] buckets[i]).key != key by {
            if i > 0 {
                assert(rest[i - 1] == buckets[i]);
            }
        }
    }
}

impl Default for Aggregation {
    /// No buckets.
    fn default() -> (aggregation: Aggregation)
        ensures
            aggregation@ == Seq::<BucketView>::empty(),
            aggregation.wf(),
    {
        Aggregation::new()
    }
}

impl Aggregation {
    /// Every bucket is well formed, and no two buckets have the same key.
    pub open spec fn wf(&self) -> bool {
        &&& forall|i: int| 0 <= i < self@.len() ==> (#[trigger] self@[i]).wf()
        &&& distinct_keys(self@)
    }

    /// No buckets.
    pub fn new() -> (aggregation: Aggregation)
        ensures
            aggregation@ == Seq::<BucketView>::empty(),
            aggregation.wf(),
    {
        let aggregation = Aggregation { buckets: Vec::new() };
        assert(aggregation@ =~= Seq::empty());
        aggregation
    }

    /// Whether nothing was recorded.
    pub fn is_empty(&self) -> (empty: bool)
        ensures
            empty == (self@.len() == 0),
    {
        self.buckets.len() == 0
    }

    /// The number of buckets.
    pub fn len(&self) -> (len: usize)
        ensures
            len == self@.len(),
    {
        self.buckets.len()
    }

    /// The bucket at position `at`, counted in the order in which the keys
    /// were first seen.
    pub fn bucket(&self, at: usize) -> (bucket: &Bucket)
        requires
            at < self@.len(),
        ensures
            bucket@ == self@[at as int],
    {
        &self.buckets[at]
    }

    /// The position of the bucket for `key`, or the number of buckets where
    /// there is none.
    pub fn position(&self, key: &str) -> (at: usize)
        ensures
            at == bucket_position(self@, key@),
            at <= self@.len(),
    {
        let mut at: usize = 0;
        assert(self@.skip(0) =~= self@);
        while at < self.buckets.len()
            invariant
                at <= self.buckets@.len(),
                self.buckets@.len() == self@.len(),
                bucket_position(self@, key@) == at + bucket_position(self@.skip(at as int), key@),
            decreases self.buckets@.len() - at,
        {
            proof {
                assert(self@.skip(at as int)[0] == self@[at as int]);
                assert(self@.skip(at as int).drop_first() =~= self@.skip(at + 1));
                assert(self@[at as int] == self.buckets@[at as int]@);
            }
            if same_text(self.buckets[at].key(), key) {
                return at;
            }
            at += 1;
        }
        at
    }

    /// Records one observation under `stat_key`. The bucket of that key is
    /// opened where this is its first observation, and is then numeric
    /// exactly where `value` is a number.
    pub fn record(&mut self, stat_key: String, identifier: String, value: StatValue)
        requires
            old(self).wf(),
        ensures
            final(self)@ == recorded(
                old(self)@,
                stat_key@,
                ObservationView { identifier: identifier@, value: value@ },
            ),
            final(self).wf(),
    {
        let observation = Observation { identifier, value };
        let at = self.position(stat_key.as_str());
        proof {
            lemma_bucket_position(self@, stat_key@);
        }
        if at < self.buckets.len() {
            self.buckets[at].push(observation);
            proof {
                assert(self@ =~= old(self)@.update(
                    at as int,
                    old(self)@[at as int].with(observation@),
                ));
                assert forall|i: int| 0 <= i < self@.len() implies (#[trigger] self@[i]).wf() by {
                    assert(old(self)@[i].wf());
                }
                assert forall|i: int, j: int| 0 <= i < j < self@.len() implies (
                #[trigger] self@[i]).key != (#[trigger] self@[j]).key by {
                    assert(old(self)@[i].key != old(self)@[j].key);
                }
            }
        } else {
            let bucket = Bucket::open(stat_key, observation);
            self.buckets.push(bucket);
            proof {
                assert(self@ =~= old(self)@.push(bucket@));
                assert forall|i: int| 0 <= i < self@.len() implies (#[trigger] self@[i]).wf() by {
                    if i < old(self)@.len() {
                        assert(old(self)@[i].wf());
                    }
                }
                assert forall|i: int, j: int| 0 <= i < j < self@.len() implies (
                #[trigger] self@[i]).key != (#[trigger] self@[j]).key by {
                    if j < old(self)@.len() {
                        assert(old(self)@[i].key != old(self)@[j].key);
                    } else {
                        assert(old(self)@[i].key != stat_key@);
                    }
                }
            }
        }
    }

    /// Records what one player's record gave, selection by selection.
    pub fn record_all(&mut self, identifier: &str, selections: Vec<Selection>)
        requires
            old(self).wf(),
        ensures
            final(self)@ == recorded_all(
                old(self)@,
                identifier@,
                crate::reader::views_of(selections@),
            ),
            final(self).wf(),
    {
        let ghost all = crate::reader::views_of(selections@);
        assert(all.take(0) =~= Seq::empty());
        for selection in it: selections
            invariant
                self.wf(),
                it.seq() == selections@,
                all == crate::reader::views_of(selections@),
                self@ == recorded_all(old(self)@, identifier@, all.take(it.index())),
        {
            proof {
                let k = it.index();
                assert(all.take(k + 1).drop_last() =~= all.take(k));
                assert(all.take(k + 1).last() == selection@);
            }
            let Selection { key, value } = selection;
            self.record(key, identifier.to_owned(), value);
        }
        assert(all.take(selections@.len() as int) =~= all);
    }

    /// Reads the text of one player's record and records what the query
    /// selects in it. A text that is no JSON document is reported and
    /// changes nothing.
    pub fn add_record(
        &mut self,
        identifier: &str,
        content: &str,
        query: &str,
        exact: bool,
    ) -> (result: Result<(), RecordError>)
        requires
            old(self).wf(),
        ensures
            final(self).wf(),
            match record_selection(content@, query@, exact) {
                Ok(selections) => result is Ok && final(self)@ == recorded_all(
                    old(self)@,
                    identifier@,
                    selections,
                ),
                Err(e) => result == Err::<(), RecordError>(e) && final(self)@ == old(self)@,
            },
    {
        match read_record(content, query, exact) {
            Ok(selections) => {
                self.record_all(identifier, selections);
                Ok(())
            },
            Err(e) => Err(e),
        }
    }
}

/// Recording keeps what was there: every bucket keeps its place, its key
/// and its numeric flag, and its observations stay at the front of the
/// bucket in their order.
pub proof fn lemma_recorded_keeps(
    buckets: Seq<BucketView>,
    key: Seq<char>,
    observation: ObservationView,
    i: int,
)
    requires
        0 <= i < buckets.len(),
    ensures
        recorded(buckets, key, observation).len() >= buckets.len(),
        recorded(buckets, key, observation)[i].key == buckets[i].key,
        recorded(buckets, key, observation)[i].numeric == buckets[i].numeric,
        buckets[i].observations.is_prefix_of(recorded(buckets, key, observation)[i].observations),
{
    lemma_bucket_position(buckets, key);
    let at = bucket_position(buckets, key);
    if at == i {
        assert(buckets[i].observations =~= buckets[i].with(observation).observations.subrange(
            0,
            buckets[i].observations.len() as int,
        ));
    }
}

/// Recording adds exactly one observation: it stands last in the bucket of
/// its key, and every other bucket is as it was.
pub proof fn lemma_recorded_adds(
    buckets: Seq<BucketView>,
    key: Seq<char>,
    observation: ObservationView,
)
    ensures
        bucket_position(buckets, key) < recorded(buckets, key, observation).len(),
        recorded(buckets, key, observation)[bucket_position(buckets, key)].key == key,
        recorded(buckets, key, observation)[bucket_position(buckets, key)].observations.last()
            == observation,
        forall|i: int|
            0 <= i < buckets.len() && i != bucket_position(buckets, key) ==> recorded(
                buckets,
                key,
                observation,
            )[i] == #[trigger] buckets[i],
{
    lemma_bucket_position(buckets, key);
}

} // verus!
