//! Ranking the observations of a bucket and rendering the leaderboard.
//!
//! A bucket is ranked by value where it is numeric and every one of its
//! values is a number; the ranking then rises with the value, or falls with
//! it where the inverse order is asked for, and observations of one value
//! keep the order in which they were recorded. Any other bucket keeps the
//! order of recording.

use crate::aggregate::{Aggregation, Bucket, BucketView, ObservationView};
use crate::decimal::{Decimal, Relation};
use crate::identity::IdMap;
use crate::stat::StatValueView;
use crate::text::{decimal, decimal_text};
use vstd::prelude::*;
use vstd::set_lib::{lemma_int_range, lemma_subset_equality, set_int_range};
use vstd::string::StringExecFns;

verus! {

/// Whether every one of `observations` has a number for its value.
pub open spec fn all_numeric(observations: Seq<ObservationView>) -> bool {
    forall|i: int| 0 <= i < observations.len() ==> (#[trigger] observations[i]).value is Numeric
}

/// Whether the bucket is ranked by value.
pub open spec fn ranked_by_value(bucket: BucketView) -> bool {
    bucket.numeric && all_numeric(bucket.observations)
}

/// The integer that orders an observation among the others; zero for a
/// value that is no number.
pub open spec fn value_of(observation: ObservationView) -> int {
    match observation.value {
        StatValueView::Numeric { value, .. } => value.scaled(),
        StatValueView::Opaque { .. } => 0,
    }
}

/// Whether a value `a` may stand before a value `b`: not above it, or with
/// `inverse` not below it.
pub open spec fn in_order(a: int, b: int, inverse: bool) -> bool {
    if inverse {
        a >= b
    } else {
        a <= b
    }
}

/// Whether the observation at position `i` of the bucket comes before the
/// one at position `j` in the ranking by value: its value comes strictly
/// first, or the values are equal and it was recorded first.
pub open spec fn comes_before(
    observations: Seq<ObservationView>,
    inverse: bool,
    i: int,
    j: int,
) -> bool {
    let a = value_of(observations[i]);
    let b = value_of(observations[j]);
    (a != b && in_order(a, b, inverse)) || (a == b && i < j)
}

/// Whether `order` ranks the first `n` of `observations` by value: it
/// names each of them once, each before all that come after it.
pub open spec fn ranks_by_value(
    order: Seq<usize>,
    observations: Seq<ObservationView>,
    n: int,
    inverse: bool,
) -> bool {
    &&& order.len() == n
    &&& forall|k: int| 0 <= k < n ==> (#[trigger] order[k]) < n
    &&& forall|a: int, b: int|
        0 <= a < b < n ==> comes_before(
            observations,
            inverse,
            (#[trigger] order[a]) as int,
            (#[trigger] order[b]) as int,
        )
}

/// Whether `order` names the first `n` positions in their own order.
pub open spec fn keeps_order(order: Seq<usize>, n: int) -> bool {
    &&& order.len() == n
    &&& forall|k: int| 0 <= k < n ==> (#[trigger] order[k]) == k
}

/// Whether `order` is the ranking of the bucket: `order[k]` is the
/// position, in the order of recording, of the observation that takes rank
/// `k + 1`.
pub open spec fn is_ranking(order: Seq<usize>, bucket: BucketView, inverse: bool) -> bool {
    if ranked_by_value(bucket) {
        ranks_by_value(order, bucket.observations, bucket.observations.len() as int, inverse)
    } else {
        keeps_order(order, bucket.observations.len() as int)
    }
}

/// The ranking of the bucket: by `lemma_ranking_exists` and
/// `lemma_ranking_unique` there is exactly one.
pub open spec fn ranking_of(bucket: BucketView, inverse: bool) -> Seq<usize> {
    choose|order: Seq<usize>| is_ranking(order, bucket, inverse)
}

/// The label of a player: the display name where the table has one, with
/// the identifier in brackets behind it where that is asked for, and the
/// identifier alone where the table has none.
pub open spec fn label_of(
    names: Map<Seq<char>, Seq<char>>,
    identifier: Seq<char>,
    show_identifier: bool,
) -> Seq<char> {
    if !names.contains_key(identifier) {
        identifier
    } else if show_identifier {
        names[identifier] + "("@ + identifier + ")"@
    } else {
        names[identifier]
    }
}

/// One line of a leaderboard: the rank in brackets, the label, a colon and
/// the value.
pub open spec fn line_of(rank: nat, label: Seq<char>, value: Seq<char>) -> Seq<char> {
    "("@ + decimal_text(rank) + ") "@ + label + ": "@ + value
}

/// The number of lines that a leaderboard of `size` entries shows under a
/// limit.
pub open spec fn shown(size: nat, limit: nat) -> nat {
    if limit < size {
        limit
    } else {
        size
    }
}

/// The line at position `k` of a leaderboard, which has rank `k + 1`.
pub open spec fn ranked_line(
    bucket: BucketView,
    order: Seq<usize>,
    names: Map<Seq<char>, Seq<char>>,
    show_identifier: bool,
    k: int,
) -> Seq<char> {
    let observation = bucket.observations[order[k] as int];
    line_of(
        (k + 1) as nat,
        label_of(names, observation.identifier, show_identifier),
        observation.value.text(),
    )
}

/// The lines of a leaderboard: one for each of the first `limit` ranks,
/// from rank 1 on.
pub open spec fn ranked_lines(
    bucket: BucketView,
    order: Seq<usize>,
    names: Map<Seq<char>, Seq<char>>,
    limit: nat,
    show_identifier: bool,
) -> Seq<Seq<char>> {
    Seq::new(
        shown(order.len(), limit),
        |k: int| ranked_line(bucket, order, names, show_identifier, k),
    )
}

/// The heading of a bucket's section.
pub open spec fn heading_of(key: Seq<char>) -> Seq<char> {
    "In stats "@ + key + ":"@
}

/// The lines of a bucket's leaderboard.
pub open spec fn leaderboard_of(
    bucket: BucketView,
    names: Map<Seq<char>, Seq<char>>,
    limit: nat,
    inverse: bool,
    show_identifier: bool,
) -> Seq<Seq<char>> {
    ranked_lines(bucket, ranking_of(bucket, inverse), names, limit, show_identifier)
}

/// The section of a bucket: its heading, the lines of its leaderboard, and
/// an empty line.
pub open spec fn section_of(
    bucket: BucketView,
    names: Map<Seq<char>, Seq<char>>,
    limit: nat,
    inverse: bool,
    show_identifier: bool,
) -> Seq<Seq<char>> {
    seq![heading_of(bucket.key)] + leaderboard_of(bucket, names, limit, inverse, show_identifier)
        + seq![Seq::<char>::empty()]
}

/// The sections of the buckets, one after the other.
pub open spec fn sections_of(
    buckets: Seq<BucketView>,
    names: Map<Seq<char>, Seq<char>>,
    limit: nat,
    inverse: bool,
    show_identifier: bool,
) -> Seq<Seq<char>>
    decreases buckets.len(),
{
    if buckets.len() == 0 {
        Seq::empty()
    } else {
        sections_of(buckets.drop_last(), names, limit, inverse, show_identifier) + section_of(
            buckets.last(),
            names,
            limit,
            inverse,
            show_identifier,
        )
    }
}

/// The report of a run: the sections of its buckets, or one line of notice
/// where there is no bucket.
pub open spec fn report_of(
    buckets: Seq<BucketView>,
    names: Map<Seq<char>, Seq<char>>,
    limit: nat,
    inverse: bool,
    show_identifier: bool,
) -> Seq<Seq<char>> {
    if buckets.len() == 0 {
        seq!["Got empty ranked."@]
    } else {
        sections_of(buckets, names, limit, inverse, show_identifier)
    }
}

/// What each of `lines` stands for.
pub open spec fn texts_of(lines: Seq<String>) -> Seq<Seq<char>> {
    lines.map_values(|line: String| line@)
}

/// The numbers of a bucket's observations, where each has one.
fn numbers_of(bucket: &Bucket) -> (numbers: Option<Vec<Decimal>>)
    ensures
        match numbers {
            Some(numbers) => all_numeric(bucket@.observations) && numbers@.len()
                == bucket@.observations.len() && forall|i: int|
                0 <= i < numbers@.len() ==> (#[trigger] numbers@[i]).scaled() == value_of(
                    bucket@.observations[i],
                ),
            None => !all_numeric(bucket@.observations),
        },
{
    let mut numbers: Vec<Decimal> = Vec::new();
    let mut i: usize = 0;
    while i < bucket.len()
        invariant
            i <= bucket@.observations.len(),
            numbers@.len() == i,
            forall|k: int| 0 <= k < i ==> (#[trigger] bucket@.observations[k]).value is Numeric,
            forall|k: int|
                0 <= k < i ==> (#[trigger] numbers@[k]).scaled() == value_of(
                    bucket@.observations[k],
                ),
        decreases bucket@.observations.len() - i,
    {
        match bucket.observation(i).value.number() {
            Some(number) => numbers.push(number),
            None => {
                assert(!(bucket@.observations[i as int].value is Numeric));
                return None;
            },
        }
        i += 1;
    }
    Some(numbers)
}

/// Whether the number `a` must stand behind the number `b`.
fn stands_behind(a: &Decimal, b: &Decimal, inverse: bool) -> (behind: bool)
    ensures
        behind == (a.scaled() != b.scaled() && in_order(b.scaled(), a.scaled(), inverse)),
{
    match a.relation(b) {
        Relation::Less => inverse,
        Relation::Same => false,
        Relation::Greater => !inverse,
    }
}

/// Ranks the observations of a bucket. The result names, rank by rank, the
/// position that the observation of that rank has in the order of
/// recording.
pub fn rank(bucket: &Bucket, inverse: bool) -> (order: Vec<usize>)
    ensures
        is_ranking(order@, bucket@, inverse),
        order@ == ranking_of(bucket@, inverse),
{
    let n = bucket.len();
    let mut order: Vec<usize> = Vec::new();
    let numbers = if bucket.is_numeric() {
        numbers_of(bucket)
    } else {
        None
    };
    match numbers {
        None => {
            let mut i: usize = 0;
            while i < n
                invariant
                    i <= n,
                    keeps_order(order@, i as int),
                decreases n - i,
            {
                order.push(i);
                i += 1;
            }
        },
        Some(numbers) => {
            let ghost observations = bucket@.observations;
            let mut i: usize = 0;
            while i < n
                invariant
                    i <= n,
                    n == observations.len(),
                    numbers@.len() == n,
                    forall|k: int|
                        0 <= k < n ==> (#[trigger] numbers@[k]).scaled() == value_of(
                            observations[k],
                        ),
                    ranks_by_value(order@, observations, i as int, inverse),
                decreases n - i,
            {
                let mut slot: usize = order.len();
                while slot > 0 && stands_behind(&numbers[order[slot - 1]], &numbers[i], inverse)
                    invariant
                        slot <= order@.len() == i < n,
                        numbers@.len() == n == observations.len(),
                        forall|k: int|
                            0 <= k < n ==> (#[trigger] numbers@[k]).scaled() == value_of(
                                observations[k],
                            ),
                        ranks_by_value(order@, observations, i as int, inverse),
                        forall|k: int|
                            slot <= k < i ==> comes_before(
                                observations,
                                inverse,
                                i as int,
                                (#[trigger] order@[k]) as int,
                            ),
                    decreases slot,
                {
                    slot -= 1;
                }
                proof {
                    if slot > 0 {
                        assert(order@[slot - 1] < i);
                    }
                    lemma_insert_keeps_ranking(order@, observations, inverse, i as int, slot as int);
                }
                order.insert(slot, i);
                i += 1;
            }
        },
    }
    proof {
        assert(is_ranking(order@, bucket@, inverse));
        lemma_ranking_unique(order@, ranking_of(bucket@, inverse), bucket@, inverse);
    }
    order
}

/// The label under which a player is shown.
pub fn label(names: &IdMap, identifier: &str, show_identifier: bool) -> (label: String)
    ensures
        label@ == label_of(names@, identifier@, show_identifier),
{
    match names.get(identifier) {
        None => String::from_str(identifier),
        Some(name) => {
            let mut label = String::from_str(name);
            if show_identifier {
                label.append("(");
                label.append(identifier);
                label.append(")");
            }
            label
        },
    }
}

/// One line of a leaderboard.
pub fn render_line(rank: usize, label: &str, value: &str) -> (line: String)
    ensures
        line@ == line_of(rank as nat, label@, value@),
{
    let mut line = String::from_str("(");
    line.append(decimal(rank).as_str());
    line.append(") ");
    line.append(label);
    line.append(": ");
    line.append(value);
    line
}

/// Appends to `lines` the lines of a bucket's leaderboard under the ranking
/// `order`: no more than `limit`, from rank 1 on.
fn push_ranked_lines(
    lines: &mut Vec<String>,
    bucket: &Bucket,
    order: &Vec<usize>,
    names: &IdMap,
    limit: usize,
    show_identifier: bool,
)
    requires
        order@.len() == bucket@.observations.len(),
        forall|k: int| 0 <= k < order@.len() ==> (#[trigger] order@[k]) < order@.len(),
    ensures
        texts_of(final(lines)@) == texts_of(old(lines)@) + ranked_lines(
            bucket@,
            order@,
            names@,
            limit as nat,
            show_identifier,
        ),
{
    let count = if limit < order.len() {
        limit
    } else {
        order.len()
    };
    let ghost before = texts_of(lines@);
    let mut k: usize = 0;
    while k < count
        invariant
            k <= count == shown(order@.len(), limit as nat),
            order@.len() == bucket@.observations.len(),
            forall|j: int| 0 <= j < order@.len() ==> (#[trigger] order@[j]) < order@.len(),
            texts_of(lines@).len() == before.len() + k,
            forall|j: int| 0 <= j < before.len() ==> texts_of(lines@)[j] == before[j],
            forall|j: int|
                0 <= j < k ==> texts_of(lines@)[before.len() + j] == ranked_line(
                    bucket@,
                    order@,
                    names@,
                    show_identifier,
                    j,
                ),
        decreases count - k,
    {
        assert(order@[k as int] < order@.len());
        let observation = bucket.observation(order[k]);
        let label = label(names, observation.identifier.as_str(), show_identifier);
        let line = render_line(k + 1, label.as_str(), observation.value.text());
        let ghost earlier = texts_of(lines@);
        lines.push(line);
        assert(texts_of(lines@) =~= earlier.push(line@));
        k += 1;
    }
    assert(texts_of(lines@) =~= before + ranked_lines(
        bucket@,
        order@,
        names@,
        limit as nat,
        show_identifier,
    ));
}

/// Renders the leaderboard of a bucket: no more than `limit` lines, in the
/// order of the ranking, each with its rank, counted from 1.
pub fn leaderboard(
    bucket: &Bucket,
    names: &IdMap,
    limit: usize,
    inverse: bool,
    show_identifier: bool,
) -> (lines: Vec<String>)
    ensures
        texts_of(lines@) == leaderboard_of(
            bucket@,
            names@,
            limit as nat,
            inverse,
            show_identifier,
        ),
        lines@.len() == shown(bucket@.observations.len(), limit as nat),
{
    let mut lines: Vec<String> = Vec::new();
    assert(texts_of(lines@) =~= Seq::empty());
    push_leaderboard(&mut lines, bucket, names, limit, inverse, show_identifier);
    assert(texts_of(lines@) =~= leaderboard_of(
        bucket@,
        names@,
        limit as nat,
        inverse,
        show_identifier,
    ));
    assert(texts_of(lines@).len() == lines@.len());
    lines
}

/// Appends the lines of a bucket's leaderboard to `lines`.
fn push_leaderboard(
    lines: &mut Vec<String>,
    bucket: &Bucket,
    names: &IdMap,
    limit: usize,
    inverse: bool,
    show_identifier: bool,
)
    ensures
        texts_of(final(lines)@) == texts_of(old(lines)@) + leaderboard_of(
            bucket@,
            names@,
            limit as nat,
            inverse,
            show_identifier,
        ),
        is_ranking(ranking_of(bucket@, inverse), bucket@, inverse),
{
    let order = rank(bucket, inverse);
    push_ranked_lines(lines, bucket, &order, names, limit, show_identifier);
}

/// Renders the report of a run, line by line: for each bucket, in the order
/// in which the keys were first seen, a heading, the leaderboard and an
/// empty line; one line of notice where nothing was recorded.
pub fn report(
    aggregation: &Aggregation,
    names: &IdMap,
    limit: usize,
    inverse: bool,
    show_identifier: bool,
) -> (lines: Vec<String>)
    ensures
        texts_of(lines@) == report_of(
            aggregation@,
            names@,
            limit as nat,
            inverse,
            show_identifier,
        ),
{
    let mut lines: Vec<String> = Vec::new();
    assert(texts_of(lines@) =~= Seq::empty());
    if aggregation.is_empty() {
        lines.push(String::from_str("Got empty ranked."));
        assert(texts_of(lines@) =~= seq!["Got empty ranked."@]);
        return lines;
    }
    let ghost buckets = aggregation@;
    let mut i: usize = 0;
    assert(buckets.take(0) =~= Seq::empty());
    while i < aggregation.len()
        invariant
            i <= aggregation@.len(),
            buckets == aggregation@,
            texts_of(lines@) == sections_of(
                buckets.take(i as int),
                names@,
                limit as nat,
                inverse,
                show_identifier,
            ),
        decreases aggregation@.len() - i,
    {
        let bucket = aggregation.bucket(i);
        proof {
            assert(buckets.take(i + 1).drop_last() =~= buckets.take(i as int));
            assert(buckets.take(i + 1).last() == bucket@);
        }
        let ghost before = texts_of(lines@);
        let mut heading = String::from_str("In stats ");
        heading.append(bucket.key());
        heading.append(":");
        lines.push(heading);
        assert(texts_of(lines@) =~= before + seq![heading_of(bucket@.key)]);
        push_leaderboard(&mut lines, bucket, names, limit, inverse, show_identifier);
        let ghost listed = texts_of(lines@);
        lines.push(String::new());
        assert(texts_of(lines@) =~= listed + seq![Seq::<char>::empty()]);
        assert(texts_of(lines@) =~= before + section_of(
            bucket@,
            names@,
            limit as nat,
            inverse,
            show_identifier,
        ));
        i += 1;
    }
    assert(buckets.take(aggregation@.len() as int) =~= buckets);
    lines
}

/// Where the observation at position `i` goes among those that `order`
/// ranks already: behind every one that does not come after it.
spec fn slot_of(
    order: Seq<usize>,
    observations: Seq<ObservationView>,
    inverse: bool,
    i: int,
) -> int
    decreases order.len(),
{
    if order.len() > 0 && comes_before(observations, inverse, i, order.last() as int) {
        slot_of(order.drop_last(), observations, inverse, i)
    } else {
        order.len() as int
    }
}

/// A ranking by value of the first `n` observations, built by giving each
/// in turn its place among those before it.
spec fn built_ranking(observations: Seq<ObservationView>, n: nat, inverse: bool) -> Seq<usize>
    decreases n,
{
    if n == 0 {
        Seq::empty()
    } else {
        let before = built_ranking(observations, (n - 1) as nat, inverse);
        before.insert(slot_of(before, observations, inverse, n - 1), (n - 1) as usize)
    }
}

proof fn lemma_slot(order: Seq<usize>, observations: Seq<ObservationView>, inverse: bool, i: int)
    ensures
        0 <= slot_of(order, observations, inverse, i) <= order.len(),
        forall|k: int|
            slot_of(order, observations, inverse, i) <= k < order.len() ==> comes_before(
                observations,
                inverse,
                i,
                (#[trigger] order[k]) as int,
            ),
        slot_of(order, observations, inverse, i) > 0 ==> !comes_before(
            observations,
            inverse,
            i,
            order[slot_of(order, observations, inverse, i) - 1] as int,
        ),
    decreases order.len(),
{
    if order.len() > 0 && comes_before(observations, inverse, i, order.last() as int) {
        let rest = order.drop_last();
        lemma_slot(rest, observations, inverse, i);
        assert forall|k: int|
            slot_of(order, observations, inverse, i) <= k < order.len() implies comes_before(
            observations,
            inverse,
            i,
            (#[trigger] order[k]) as int,
        ) by {
            if k < rest.len() {
                assert(rest[k] == order[k]);
            }
        }
        if slot_of(order, observations, inverse, i) > 0 {
            assert(rest[slot_of(order, observations, inverse, i) - 1] == order[slot_of(
                order,
                observations,
                inverse,
                i,
            ) - 1]);
        }
    }
}

/// A ranking by value of the first `i` observations stays one when the
/// observation at position `i` is put in at `slot`, where every entry from
/// `slot` on comes after it and the entry before `slot` does not.
proof fn lemma_insert_keeps_ranking(
    before: Seq<usize>,
    observations: Seq<ObservationView>,
    inverse: bool,
    i: int,
    slot: int,
)
    requires
        ranks_by_value(before, observations, i, inverse),
        0 <= slot <= i <= usize::MAX,
        forall|k: int|
            slot <= k < i ==> comes_before(observations, inverse, i, (#[trigger] before[k]) as int),
        slot > 0 ==> !comes_before(observations, inverse, i, before[slot - 1] as int),
    ensures
        ranks_by_value(before.insert(slot, i as usize), observations, i + 1, inverse),
{
    let order = before.insert(slot, i as usize);
    assert forall|a: int, b: int| 0 <= a < b < i + 1 implies comes_before(
        observations,
        inverse,
        (#[trigger] order[a]) as int,
        (#[trigger] order[b]) as int,
    ) by {
        if b < slot {
            assert(order[a] == before[a] && order[b] == before[b]);
        } else if b == slot {
            assert(order[a] == before[a]);
            assert(before[a] < i);
            assert(before[slot - 1] < i);
            if a < slot - 1 {
                assert(comes_before(
                    observations,
                    inverse,
                    before[a] as int,
                    before[slot - 1] as int,
                ));
            }
        } else if a < slot {
            assert(order[a] == before[a] && order[b] == before[b - 1]);
        } else if a == slot {
            assert(order[b] == before[b - 1]);
        } else {
            assert(order[a] == before[a - 1] && order[b] == before[b - 1]);
        }
    }
    assert forall|k: int| 0 <= k < i + 1 implies (#[trigger] order[k]) < i + 1 by {
        if k < slot {
            assert(order[k] == before[k]);
        } else if k > slot {
            assert(order[k] == before[k - 1]);
        }
    }
}

proof fn lemma_built_ranking(observations: Seq<ObservationView>, n: nat, inverse: bool)
    requires
        n <= usize::MAX,
    ensures
        ranks_by_value(built_ranking(observations, n, inverse), observations, n as int, inverse),
    decreases n,
{
    if n > 0 {
        let i = n - 1;
        let before = built_ranking(observations, i as nat, inverse);
        lemma_built_ranking(observations, i as nat, inverse);
        lemma_slot(before, observations, inverse, i);
        lemma_insert_keeps_ranking(
            before,
            observations,
            inverse,
            i,
            slot_of(before, observations, inverse, i),
        );
    }
}

/// Every bucket of a size that the machine can hold has a ranking; by
/// `lemma_ranking_unique` it is `ranking_of`.
pub proof fn lemma_ranking_exists(bucket: BucketView, inverse: bool)
    requires
        bucket.observations.len() <= usize::MAX,
    ensures
        is_ranking(ranking_of(bucket, inverse), bucket, inverse),
{
    let n = bucket.observations.len();
    if ranked_by_value(bucket) {
        lemma_built_ranking(bucket.observations, n, inverse);
        assert(is_ranking(built_ranking(bucket.observations, n, inverse), bucket, inverse));
    } else {
        let order = Seq::new(n, |k: int| k as usize);
        assert(is_ranking(order, bucket, inverse));
    }
}

/// An order that names `n` positions below `n`, no position twice, names
/// each of them.
proof fn lemma_names_each(order: Seq<usize>, n: int, position: int)
    requires
        order.len() == n,
        forall|k: int| 0 <= k < n ==> (#[trigger] order[k]) < n,
        forall|a: int, b: int| 0 <= a < b < n ==> (#[trigger] order[a]) != (#[trigger] order[b]),
        0 <= position < n,
    ensures
        exists|k: int| 0 <= k < n && #[trigger] order[k] == position,
{
    let named = order.map_values(|p: usize| p as int);
    assert(named.no_duplicates()) by {
        assert forall|a: int, b: int|
            0 <= a < named.len() && 0 <= b < named.len() && a != b implies named[a]
            != named[b] by {
            if a < b {
                assert(order[a] != order[b]);
            } else {
                assert(order[b] != order[a]);
            }
        }
    }
    named.unique_seq_to_set();
    lemma_int_range(0, n);
    assert(named.to_set().subset_of(set_int_range(0, n))) by {
        assert forall|p: int| named.to_set().contains(p) implies set_int_range(0, n).contains(
            p,
        ) by {
            let k = choose|k: int| 0 <= k < named.len() && named[k] == p;
            assert(order[k] < n);
        }
    }
    vstd::seq_lib::seq_to_set_is_finite(named);
    lemma_subset_equality(named.to_set(), set_int_range(0, n));
    assert(set_int_range(0, n).contains(position));
    assert(named.to_set().contains(position));
    let k = choose|k: int| 0 <= k < named.len() && named[k] == position;
    assert(order[k] == position);
}

/// A bucket has no more than one ranking.
pub proof fn lemma_ranking_unique(
    first: Seq<usize>,
    second: Seq<usize>,
    bucket: BucketView,
    inverse: bool,
)
    requires
        is_ranking(first, bucket, inverse),
        is_ranking(second, bucket, inverse),
    ensures
        first == second,
{
    let n = bucket.observations.len() as int;
    let observations = bucket.observations;
    if ranked_by_value(bucket) {
        assert forall|k: int| 0 <= k < n implies first[k] == second[k] by {
            lemma_same_rank(first, second, observations, n, inverse, k);
        }
    }
    assert(first =~= second);
}

/// Two rankings by value agree at every rank.
proof fn lemma_same_rank(
    first: Seq<usize>,
    second: Seq<usize>,
    observations: Seq<ObservationView>,
    n: int,
    inverse: bool,
    k: int,
)
    requires
        ranks_by_value(first, observations, n, inverse),
        ranks_by_value(second, observations, n, inverse),
        0 <= k < n,
    ensures
        first[k] == second[k],
    decreases k,
{
    assert forall|j: int| 0 <= j < k implies first[j] == second[j] by {
        lemma_same_rank(first, second, observations, n, inverse, j);
    }
    let x = first[k] as int;
    let y = second[k] as int;
    if x != y {
        lemma_distinct(first, observations, n, inverse);
        lemma_distinct(second, observations, n, inverse);
        if comes_before(observations, inverse, x, y) {
            lemma_names_each(second, n, x);
            let j = choose|j: int| 0 <= j < n && second[j] == x;
            if j < k {
                assert(first[j] == second[j]);
                assert(first[j] != first[k]);
            } else {
                assert(comes_before(observations, inverse, second[k] as int, second[j] as int));
            }
        } else {
            lemma_names_each(first, n, y);
            let j = choose|j: int| 0 <= j < n && first[j] == y;
            if j < k {
                assert(first[j] == second[j]);
                assert(second[j] != second[k]);
            } else {
                assert(comes_before(observations, inverse, first[k] as int, first[j] as int));
            }
        }
    }
}

/// A ranking by value names no position twice.
proof fn lemma_distinct(
    order: Seq<usize>,
    observations: Seq<ObservationView>,
    n: int,
    inverse: bool,
)
    requires
        ranks_by_value(order, observations, n, inverse),
    ensures
        forall|a: int, b: int| 0 <= a < b < n ==> (#[trigger] order[a]) != (#[trigger] order[b]),
{
    assert forall|a: int, b: int| 0 <= a < b < n implies (#[trigger] order[a]) != (
    #[trigger] order[b]) by {
        assert(comes_before(observations, inverse, order[a] as int, order[b] as int));
    }
}

/// In a bucket that is ranked by value the values never fall from one rank
/// to the next, and with `inverse` never rise.
pub proof fn lemma_ranking_monotone(
    order: Seq<usize>,
    bucket: BucketView,
    inverse: bool,
    a: int,
    b: int,
)
    requires
        is_ranking(order, bucket, inverse),
        ranked_by_value(bucket),
        0 <= a <= b < order.len(),
    ensures
        in_order(
            value_of(bucket.observations[order[a] as int]),
            value_of(bucket.observations[order[b] as int]),
            inverse,
        ),
{
    if a < b {
        assert(comes_before(bucket.observations, inverse, order[a] as int, order[b] as int));
    }
}

/// A ranking names every observation of the bucket exactly once.
pub proof fn lemma_ranking_names_each(
    order: Seq<usize>,
    bucket: BucketView,
    inverse: bool,
    position: int,
)
    requires
        is_ranking(order, bucket, inverse),
        0 <= position < bucket.observations.len(),
    ensures
        order.len() == bucket.observations.len(),
        exists|k: int| 0 <= k < order.len() && #[trigger] order[k] == position,
        forall|a: int, b: int|
            0 <= a < b < order.len() ==> (#[trigger] order[a]) != (#[trigger] order[b]),
{
    let n = bucket.observations.len() as int;
    if ranked_by_value(bucket) {
        lemma_distinct(order, bucket.observations, n, inverse);
        lemma_names_each(order, n, position);
    } else {
        assert(order[position] == position);
    }
}

/// A bucket that is not numeric keeps the order of recording, whichever
/// direction is asked for.
pub proof fn lemma_ranking_keeps_order(order: Seq<usize>, bucket: BucketView, inverse: bool)
    requires
        is_ranking(order, bucket, inverse),
        !bucket.numeric,
    ensures
        order.len() == bucket.observations.len(),
        forall|k: int| 0 <= k < order.len() ==> (#[trigger] order[k]) == k,
        is_ranking(order, bucket, !inverse),
{
}

/// A leaderboard has as many lines as the bucket has observations, but no
/// more than the limit; its first line has rank 1, and each further line
/// the next rank.
pub proof fn lemma_leaderboard_shape(
    bucket: BucketView,
    order: Seq<usize>,
    names: Map<Seq<char>, Seq<char>>,
    limit: nat,
    show_identifier: bool,
)
    requires
        order.len() == bucket.observations.len(),
    ensures
        ranked_lines(bucket, order, names, limit, show_identifier).len() == if limit
            < bucket.observations.len() {
            limit
        } else {
            bucket.observations.len()
        },
        forall|k: int|
            0 <= k < ranked_lines(bucket, order, names, limit, show_identifier).len() ==> (
            "("@ + decimal_text((k + 1) as nat) + ") "@).is_prefix_of(
                #[trigger] ranked_lines(bucket, order, names, limit, show_identifier)[k],
            ),
{
    let lines = ranked_lines(bucket, order, names, limit, show_identifier);
    assert forall|k: int| 0 <= k < lines.len() implies ("("@ + decimal_text((k + 1) as nat)
        + ") "@).is_prefix_of(#[trigger] lines[k]) by {
        let start = "("@ + decimal_text((k + 1) as nat) + ") "@;
        let observation = bucket.observations[order[k] as int];
        let rest = label_of(names, observation.identifier, show_identifier) + ": "@
            + observation.value.text();
        assert(lines[k] =~= start + rest);
        assert((start + rest).subrange(0, start.len() as int) =~= start);
    }
}

/// A player whom the table names is shown by that name, with the
/// identifier behind it only where that is asked for; a player whom the
/// table does not name is shown by the identifier as it is.
pub proof fn lemma_label(
    names: Map<Seq<char>, Seq<char>>,
    identifier: Seq<char>,
    show_identifier: bool,
)
    ensures
        !names.contains_key(identifier) ==> label_of(names, identifier, show_identifier)
            == identifier,
        names.contains_key(identifier) && !show_identifier ==> label_of(
            names,
            identifier,
            show_identifier,
        ) == names[identifier],
        names.contains_key(identifier) && show_identifier ==> label_of(
            names,
            identifier,
            show_identifier,
        ) == names[identifier] + "("@ + identifier + ")"@,
{
}

} // verus!
