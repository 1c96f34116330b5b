//! The mathematical model shared by all contracts: a snapshot is a sequence of
//! (identifier, position) pairs, an index is a map from identifier to
//! position, and a query's answer is a set of identifiers.

use crate::geometry::{is_within_radius, within_radius, EntityPositionPair, Position};
use vstd::prelude::*;

verus! {

/// No identifier occurs twice in `entries`.
pub open spec fn distinct_ids(entries: Seq<EntityPositionPair>) -> bool {
    forall|i: int, j: int| 0 <= i < j < entries.len() ==> entries[i].0 != entries[j].0
}

/// Some entry of `entries` carries the identifier `id`.
pub open spec fn has_id(entries: Seq<EntityPositionPair>, id: u64) -> bool {
    exists|i: int| 0 <= i < entries.len() && #[trigger] entries[i].0 == id
}

/// The map that a snapshot stands for. Where an identifier occurs more than
/// once, the last occurrence decides.
pub open spec fn entries_map(entries: Seq<EntityPositionPair>) -> Map<u64, Position>
    decreases entries.len(),
{
    if entries.len() == 0 {
        Map::empty()
    } else {
        entries_map(entries.drop_last()).insert(entries.last().0, entries.last().1)
    }
}

/// The identifiers of the entries that pass the radius test, in the order of
/// `entries`.
pub open spec fn ids_within(
    entries: Seq<EntityPositionPair>,
    centre: Position,
    radius: u64,
) -> Seq<u64>
    decreases entries.len(),
{
    if entries.len() == 0 {
        Seq::empty()
    } else {
        let rest = ids_within(entries.drop_last(), centre, radius);
        if within_radius(entries.last().1, centre, radius) {
            rest.push(entries.last().0)
        } else {
            rest
        }
    }
}

/// The exact answer to a query against an index: the identifiers whose
/// position passes the radius test.
pub open spec fn answers(index: Map<u64, Position>, centre: Position, radius: u64) -> Set<u64> {
    Set::new(|id: u64| index.contains_key(id) && within_radius(index[id], centre, radius))
}

/// `result` is a correct answer: it lists each identifier of `answers` once
/// and nothing else.
pub open spec fn is_answer(
    result: Seq<u64>,
    index: Map<u64, Position>,
    centre: Position,
    radius: u64,
) -> bool {
    &&& result.no_duplicates()
    &&& result.to_set() == answers(index, centre, radius)
}

/// The domain of `entries_map` is the set of identifiers that occur.
pub proof fn lemma_entries_map_dom(entries: Seq<EntityPositionPair>, id: u64)
    ensures
        entries_map(entries).contains_key(id) <==> has_id(entries, id),
    decreases entries.len(),
{
    if entries.len() > 0 {
        let front = entries.drop_last();
        lemma_entries_map_dom(front, id);
        if has_id(front, id) {
            let i = choose|i: int| 0 <= i < front.len() && #[trigger] front[i].0 == id;
            assert(entries[i].0 == id);
        }
        if has_id(entries, id) {
            let i = choose|i: int| 0 <= i < entries.len() && #[trigger] entries[i].0 == id;
            if i < front.len() {
                assert(front[i].0 == id);
            }
        }
        if entries.last().0 == id {
            assert(entries[entries.len() - 1].0 == id);
        }
    }
}

/// With distinct identifiers, `entries_map` sends each identifier to the
/// position it is listed with.
pub proof fn lemma_entries_map_value(entries: Seq<EntityPositionPair>, i: int)
    requires
        distinct_ids(entries),
        0 <= i < entries.len(),
    ensures
        entries_map(entries).contains_key(entries[i].0),
        entries_map(entries)[entries[i].0] == entries[i].1,
    decreases entries.len(),
{
    let front = entries.drop_last();
    if i < entries.len() - 1 {
        assert(distinct_ids(front)) by {
            assert forall|a: int, b: int| 0 <= a < b < front.len() implies front[a].0
                != front[b].0 by {
                assert(entries[a].0 != entries[b].0);
            }
        }
        lemma_entries_map_value(front, i);
        assert(front[i] == entries[i]);
        assert(entries[i].0 != entries[entries.len() - 1].0);
    }
}

/// Appending a pair to a snapshot inserts it into the map.
pub proof fn lemma_entries_map_push(entries: Seq<EntityPositionPair>, pair: EntityPositionPair)
    ensures
        entries_map(entries.push(pair)) == entries_map(entries).insert(pair.0, pair.1),
{
    assert(entries.push(pair).drop_last() =~= entries);
}

/// `ids_within` distributes over concatenation.
pub proof fn lemma_ids_within_concat(
    a: Seq<EntityPositionPair>,
    b: Seq<EntityPositionPair>,
    centre: Position,
    radius: u64,
)
    ensures
        ids_within(a + b, centre, radius) == ids_within(a, centre, radius) + ids_within(
            b,
            centre,
            radius,
        ),
    decreases b.len(),
{
    if b.len() == 0 {
        assert(a + b =~= a);
        assert(ids_within(a, centre, radius) + ids_within(b, centre, radius) =~= ids_within(
            a,
            centre,
            radius,
        ));
    } else {
        assert((a + b).drop_last() =~= a + b.drop_last());
        assert((a + b).last() == b.last());
        lemma_ids_within_concat(a, b.drop_last(), centre, radius);
        let left = ids_within(a, centre, radius);
        let right = ids_within(b.drop_last(), centre, radius);
        assert((left + right).push(b.last().0) =~= left + right.push(b.last().0));
    }
}

/// An identifier is listed by `ids_within` exactly if one of its entries
/// passes the radius test.
pub proof fn lemma_ids_within_contains(
    entries: Seq<EntityPositionPair>,
    centre: Position,
    radius: u64,
    id: u64,
)
    ensures
        ids_within(entries, centre, radius).contains(id) <==> exists|i: int|
            0 <= i < entries.len() && #[trigger] entries[i].0 == id && within_radius(
                entries[i].1,
                centre,
                radius,
            ),
    decreases entries.len(),
{
    let found = |s: Seq<EntityPositionPair>|
        exists|i: int|
            0 <= i < s.len() && #[trigger] s[i].0 == id && within_radius(s[i].1, centre, radius);
    if entries.len() > 0 {
        let front = entries.drop_last();
        let last = entries.last();
        let rest = ids_within(front, centre, radius);
        lemma_ids_within_contains(front, centre, radius, id);
        if found(front) {
            let i = choose|i: int|
                0 <= i < front.len() && #[trigger] front[i].0 == id && within_radius(
                    front[i].1,
                    centre,
                    radius,
                );
            assert(entries[i].0 == id && within_radius(entries[i].1, centre, radius));
        }
        if found(entries) {
            let i = choose|i: int|
                0 <= i < entries.len() && #[trigger] entries[i].0 == id && within_radius(
                    entries[i].1,
                    centre,
                    radius,
                );
            if i < front.len() {
                assert(front[i].0 == id && within_radius(front[i].1, centre, radius));
            }
        }
        if within_radius(last.1, centre, radius) {
            let out = rest.push(last.0);
            assert(out.last() == last.0);
            if last.0 == id {
                assert(out[out.len() - 1] == id);
                assert(entries[entries.len() - 1].0 == id);
            }
            if rest.contains(id) {
                let k = choose|k: int| 0 <= k < rest.len() && rest[k] == id;
                assert(out[k] == id);
            }
            if out.contains(id) {
                let k = choose|k: int| 0 <= k < out.len() && out[k] == id;
                if k < rest.len() {
                    assert(rest[k] == id);
                }
            }
        }
    }
}

/// With distinct identifiers, `ids_within` lists nothing twice.
pub proof fn lemma_ids_within_distinct(
    entries: Seq<EntityPositionPair>,
    centre: Position,
    radius: u64,
)
    requires
        distinct_ids(entries),
    ensures
        ids_within(entries, centre, radius).no_duplicates(),
    decreases entries.len(),
{
    if entries.len() > 0 {
        let front = entries.drop_last();
        let last = entries.last();
        assert(distinct_ids(front)) by {
            assert forall|a: int, b: int| 0 <= a < b < front.len() implies front[a].0
                != front[b].0 by {
                assert(entries[a].0 != entries[b].0);
            }
        }
        lemma_ids_within_distinct(front, centre, radius);
        let rest = ids_within(front, centre, radius);
        if within_radius(last.1, centre, radius) {
            lemma_ids_within_contains(front, centre, radius, last.0);
            if rest.contains(last.0) {
                let i = choose|i: int|
                    0 <= i < front.len() && #[trigger] front[i].0 == last.0 && within_radius(
                        front[i].1,
                        centre,
                        radius,
                    );
                assert(entries[i].0 != entries[entries.len() - 1].0);
            }
            let out = rest.push(last.0);
            assert forall|a: int, b: int| 0 <= a < out.len() && 0 <= b < out.len() && a
                != b implies out[a] != out[b] by {
                if a < rest.len() && b < rest.len() {
                    assert(rest[a] != rest[b]);
                } else if a < rest.len() {
                    assert(rest.contains(rest[a]));
                } else {
                    assert(rest.contains(rest[b]));
                }
            }
        }
    }
}

/// With distinct identifiers, `ids_within` is a correct answer to the query
/// against the map that the snapshot stands for.
pub proof fn lemma_ids_within_is_answer(
    entries: Seq<EntityPositionPair>,
    centre: Position,
    radius: u64,
)
    requires
        distinct_ids(entries),
    ensures
        is_answer(ids_within(entries, centre, radius), entries_map(entries), centre, radius),
{
    let listed = ids_within(entries, centre, radius);
    let index = entries_map(entries);
    lemma_ids_within_distinct(entries, centre, radius);
    assert forall|id: u64| listed.to_set().contains(id) <==> answers(
        index,
        centre,
        radius,
    ).contains(id) by {
        lemma_ids_within_contains(entries, centre, radius, id);
        lemma_entries_map_dom(entries, id);
        if listed.contains(id) {
            let i = choose|i: int|
                0 <= i < entries.len() && #[trigger] entries[i].0 == id && within_radius(
                    entries[i].1,
                    centre,
                    radius,
                );
            lemma_entries_map_value(entries, i);
        }
        if index.contains_key(id) && within_radius(index[id], centre, radius) {
            let i = choose|i: int| 0 <= i < entries.len() && #[trigger] entries[i].0 == id;
            lemma_entries_map_value(entries, i);
            assert(entries[i].0 == id && within_radius(entries[i].1, centre, radius));
        }
    }
    assert(listed.to_set() =~= answers(index, centre, radius));
}

/// Rearranging a sequence keeps what it holds.
pub proof fn lemma_permutation_contains<A>(a: Seq<A>, b: Seq<A>, x: A)
    requires
        a.to_multiset() == b.to_multiset(),
        b.contains(x),
    ensures
        a.contains(x),
{
    a.to_multiset_ensures();
    b.to_multiset_ensures();
    assert(b.to_multiset().count(x) > 0);
    assert(a.to_multiset().count(x) > 0);
}

/// A rearrangement of a snapshot with distinct identifiers has distinct
/// identifiers too and stands for the same map.
pub proof fn lemma_permutation_same_map(
    a: Seq<EntityPositionPair>,
    b: Seq<EntityPositionPair>,
)
    requires
        distinct_ids(a),
        a.to_multiset() == b.to_multiset(),
    ensures
        distinct_ids(b),
        entries_map(a) == entries_map(b),
{
    a.to_multiset_ensures();
    b.to_multiset_ensures();
    assert(a.no_duplicates()) by {
        assert forall|i: int, j: int| 0 <= i < a.len() && 0 <= j < a.len() && i != j implies a[i]
            != a[j] by {
            if i < j {
                assert(a[i].0 != a[j].0);
            } else {
                assert(a[j].0 != a[i].0);
            }
        }
    }
    a.lemma_multiset_has_no_duplicates();
    b.lemma_multiset_has_no_duplicates_conv();
    assert forall|i: int, j: int| 0 <= i < j < b.len() implies b[i].0 != b[j].0 by {
        assert(b[i] != b[j]);
        assert(b.contains(b[i]));
        assert(b.contains(b[j]));
        lemma_permutation_contains(a, b, b[i]);
        lemma_permutation_contains(a, b, b[j]);
        let k = choose|k: int| 0 <= k < a.len() && a[k] == b[i];
        let l = choose|l: int| 0 <= l < a.len() && a[l] == b[j];
        if k < l {
            assert(a[k].0 != a[l].0);
        } else {
            assert(a[l].0 != a[k].0);
        }
    }
    assert forall|id: u64| entries_map(a).contains_key(id) <==> entries_map(b).contains_key(
        id,
    ) by {
        lemma_entries_map_dom(a, id);
        lemma_entries_map_dom(b, id);
        if has_id(a, id) {
            let i = choose|i: int| 0 <= i < a.len() && #[trigger] a[i].0 == id;
            assert(a.contains(a[i]));
            lemma_permutation_contains(b, a, a[i]);
            let j = choose|j: int| 0 <= j < b.len() && b[j] == a[i];
            assert(b[j].0 == id);
        }
        if has_id(b, id) {
            let i = choose|i: int| 0 <= i < b.len() && #[trigger] b[i].0 == id;
            assert(b.contains(b[i]));
            lemma_permutation_contains(a, b, b[i]);
            let j = choose|j: int| 0 <= j < a.len() && a[j] == b[i];
            assert(a[j].0 == id);
        }
    }
    assert forall|id: u64| entries_map(a).contains_key(id) implies entries_map(a)[id]
        == entries_map(b)[id] by {
        lemma_entries_map_dom(a, id);
        let i = choose|i: int| 0 <= i < a.len() && #[trigger] a[i].0 == id;
        assert(a.contains(a[i]));
        lemma_permutation_contains(b, a, a[i]);
        let j = choose|j: int| 0 <= j < b.len() && b[j] == a[i];
        lemma_entries_map_value(a, i);
        lemma_entries_map_value(b, j);
    }
    assert(entries_map(a) =~= entries_map(b));
}

/// A snapshot with distinct identifiers stands for the one map that has its
/// identifiers as keys and sends each to its position.
pub proof fn lemma_entries_map_is(entries: Seq<EntityPositionPair>, index: Map<u64, Position>)
    requires
        distinct_ids(entries),
        forall|id: u64| index.contains_key(id) <==> has_id(entries, id),
        forall|i: int| 0 <= i < entries.len() ==> index[#[trigger] entries[i].0] == entries[i].1,
    ensures
        entries_map(entries) == index,
{
    assert forall|id: u64| entries_map(entries).contains_key(id) <==> index.contains_key(id) by {
        lemma_entries_map_dom(entries, id);
    }
    assert forall|id: u64| entries_map(entries).contains_key(id) implies entries_map(entries)[id]
        == index[id] by {
        lemma_entries_map_dom(entries, id);
        let i = choose|i: int| 0 <= i < entries.len() && #[trigger] entries[i].0 == id;
        lemma_entries_map_value(entries, i);
    }
    assert(entries_map(entries) =~= index);
}

/// Appending an identifier that does not occur keeps the identifiers
/// distinct.
pub proof fn lemma_distinct_push(entries: Seq<EntityPositionPair>, pair: EntityPositionPair)
    requires
        distinct_ids(entries),
        !has_id(entries, pair.0),
    ensures
        distinct_ids(entries.push(pair)),
{
    let longer = entries.push(pair);
    assert forall|i: int, j: int| 0 <= i < j < longer.len() implies longer[i].0 != longer[j].0 by {
        if j < entries.len() {
            assert(entries[i].0 != entries[j].0);
        } else {
            assert(entries[i].0 != pair.0);
        }
    }
}

/// Giving an entry a new position overwrites the identifier's position in
/// the map.
pub proof fn lemma_entries_map_update(
    entries: Seq<EntityPositionPair>,
    i: int,
    position: Position,
)
    requires
        distinct_ids(entries),
        0 <= i < entries.len(),
    ensures
        distinct_ids(entries.update(i, (entries[i].0, position))),
        entries_map(entries.update(i, (entries[i].0, position))) == entries_map(entries).insert(
            entries[i].0,
            position,
        ),
{
    let id = entries[i].0;
    let after = entries.update(i, (id, position));
    let index = entries_map(entries).insert(id, position);
    assert forall|a: int, b: int| 0 <= a < b < after.len() implies after[a].0 != after[b].0 by {
        assert(entries[a].0 != entries[b].0);
    }
    assert forall|x: u64| index.contains_key(x) <==> has_id(after, x) by {
        lemma_entries_map_dom(entries, x);
        if has_id(entries, x) {
            let j = choose|j: int| 0 <= j < entries.len() && #[trigger] entries[j].0 == x;
            assert(after[j].0 == x);
        }
        if has_id(after, x) {
            let j = choose|j: int| 0 <= j < after.len() && #[trigger] after[j].0 == x;
            assert(entries[j].0 == x);
        }
        if x == id {
            assert(after[i].0 == x);
        }
    }
    assert forall|j: int| 0 <= j < after.len() implies index[#[trigger] after[j].0]
        == after[j].1 by {
        lemma_entries_map_value(entries, j);
        if j != i {
            if j < i {
                assert(entries[j].0 != entries[i].0);
            } else {
                assert(entries[i].0 != entries[j].0);
            }
        }
    }
    lemma_entries_map_is(after, index);
}

/// Moving the last entry into the place of entry `i` takes the identifier of
/// entry `i` out of the map.
pub proof fn lemma_entries_map_swap_remove(entries: Seq<EntityPositionPair>, i: int)
    requires
        distinct_ids(entries),
        0 <= i < entries.len(),
    ensures
        distinct_ids(entries.update(i, entries.last()).drop_last()),
        entries_map(entries.update(i, entries.last()).drop_last()) == entries_map(entries).remove(
            entries[i].0,
        ),
{
    let id = entries[i].0;
    let last = entries.len() - 1;
    let after = entries.update(i, entries.last()).drop_last();
    let index = entries_map(entries).remove(id);
    let from = |t: int| if t == i { last } else { t };
    assert forall|t: int| 0 <= t < after.len() implies after[t] == entries[from(t)] && after[t].0
        != id by {
        if from(t) < i {
            assert(entries[from(t)].0 != entries[i].0);
        } else {
            assert(entries[i].0 != entries[from(t)].0);
        }
    }
    assert forall|a: int, b: int| 0 <= a < b < after.len() implies after[a].0 != after[b].0 by {
        let fa = from(a);
        let fb = from(b);
        if fa < fb {
            assert(entries[fa].0 != entries[fb].0);
        } else {
            assert(entries[fb].0 != entries[fa].0);
        }
    }
    assert forall|x: u64| index.contains_key(x) <==> has_id(after, x) by {
        lemma_entries_map_dom(entries, x);
        if has_id(entries, x) && x != id {
            let j = choose|j: int| 0 <= j < entries.len() && #[trigger] entries[j].0 == x;
            if j == last {
                assert(after[i].0 == x);
            } else {
                assert(after[j].0 == x);
            }
        }
        if has_id(after, x) {
            let j = choose|j: int| 0 <= j < after.len() && #[trigger] after[j].0 == x;
            assert(entries[from(j)].0 == x);
        }
    }
    assert forall|j: int| 0 <= j < after.len() implies index[#[trigger] after[j].0]
        == after[j].1 by {
        lemma_entries_map_value(entries, from(j));
    }
    lemma_entries_map_is(after, index);
}

/// Against an empty index nothing is found.
pub proof fn lemma_empty_index_empty_answer(result: Seq<u64>, centre: Position, radius: u64)
    ensures
        is_answer(result, Map::<u64, Position>::empty(), centre, radius) <==> result.len() == 0,
{
    let none = Map::<u64, Position>::empty();
    if result.len() == 0 {
        assert(result.to_set() =~= answers(none, centre, radius));
    }
    if is_answer(result, none, centre, radius) && result.len() > 0 {
        assert(result.to_set().contains(result[0]));
        assert(answers(none, centre, radius).contains(result[0]));
    }
}

/// Two correct answers to one query against one index list the same
/// identifiers, and equally many.
pub proof fn lemma_answers_agree(
    a: Seq<u64>,
    b: Seq<u64>,
    index: Map<u64, Position>,
    centre: Position,
    radius: u64,
)
    requires
        is_answer(a, index, centre, radius),
        is_answer(b, index, centre, radius),
    ensures
        a.to_set() == b.to_set(),
        a.len() == b.len(),
{
    a.unique_seq_to_set();
    b.unique_seq_to_set();
}

/// A correct answer lists an identifier exactly if the index holds it at a
/// position that passes the radius test.
pub proof fn lemma_answer_contains(
    result: Seq<u64>,
    index: Map<u64, Position>,
    centre: Position,
    radius: u64,
    id: u64,
)
    requires
        is_answer(result, index, centre, radius),
    ensures
        result.contains(id) <==> index.contains_key(id) && within_radius(index[id], centre, radius),
{
    assert(result.to_set().contains(id) <==> answers(index, centre, radius).contains(id));
}

/// Lists the identifiers of the entries that pass the radius test, in order.
pub fn collect_ids_within(
    entries: &[EntityPositionPair],
    centre: &Position,
    radius: u64,
) -> (found: Vec<u64>)
    ensures
        found@ == ids_within(entries@, *centre, radius),
{
    let mut found: Vec<u64> = Vec::new();
    let mut i: usize = 0;
    while i < entries.len()
        invariant
            i <= entries@.len(),
            found@ == ids_within(entries@.take(i as int), *centre, radius),
        decreases entries@.len() - i,
    {
        let (entity, position) = entries[i];
        proof {
            assert(entries@.take(i + 1).drop_last() =~= entries@.take(i as int));
        }
        if is_within_radius(&position, centre, radius) {
            found.push(entity);
        }
        i += 1;
    }
    proof {
        assert(entries@.take(i as int) =~= entries@);
    }
    found
}

} // verus!
