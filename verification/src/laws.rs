//! What holds of maps and of the relations they keep, whatever the keys.
use crate::bitfield::BitField;
use crate::bucket::Bucket;
use crate::hashing;
use crate::lookup;
use crate::map::{BiMap, DEFAULT_HASH_MAP_SIZE};
use crate::pairing;
use crate::relation;
use crate::table;
use std::hash::{BuildHasher, Hash};
use vstd::prelude::*;
use vstd::std_specs::cmp::PartialEqSpec;

verus! {

/// A map of lawful keys keeps a one-to-one relation, and a finite one.
pub proof fn law_one_to_one<L, R, LH, RH, B>(map: BiMap<L, R, LH, RH, B>)
    requires
        map.well_paired(),
        BiMap::<L, R, LH, RH, B>::lawful(),
    ensures
        relation::one_to_one(map@),
        map@.finite(),
{
    map.lemma_one_to_one();
}

/// Also where equal keys can be told apart, a map holds no two pairs with equal keys, and iteration
/// visits each of its pairs once.
pub proof fn law_no_equal_keys<L, R, LH, RH, B>(map: BiMap<L, R, LH, RH, B>) where
    L: Hash + Eq,
    R: Hash + Eq,
    LH: BuildHasher,
    RH: BuildHasher,
    B: BitField,

    requires
        map.wf(),
        map.congruent(),
        map.can_grow(),
    ensures
        relation::one_to_one_by(map@, hashing::equality::<L>(), hashing::equality::<R>()),
        map@.finite(),
        map.in_order().no_duplicates(),
        map.in_order().to_set() == map@,
{
    map.lemma_one_to_one_by();
}

/// An insertion of keys that equal those of a pair gives back that pair's instances, and puts the
/// ones passed in their place.
pub proof fn law_insertion_replaces_equals<L: Eq, R: Eq>(
    relation: Set<(L, R)>,
    left: L,
    right: R,
    stored: (L, R),
    former: (Option<R>, Option<L>),
)
    requires
        hashing::compares_lawfully::<L>(),
        hashing::compares_lawfully::<R>(),
        relation::one_to_one_by(relation, hashing::equality::<L>(), hashing::equality::<R>()),
        relation.contains(stored),
        stored.0.eq_spec(&left),
        stored.1.eq_spec(&right),
        relation::found_right_by(relation, left, former.0, hashing::equality::<L>()),
        relation::found_left_by(relation, right, former.1, hashing::equality::<R>()),
    ensures
        former == (Some(stored.1), Some(stored.0)),
        relation::with_pair_by(
            relation,
            left,
            right,
            hashing::equality::<L>(),
            hashing::equality::<R>(),
        ) == relation.remove(stored).insert((left, right)),
{
    relation::lemma_sole_equal_left(relation, stored, left);
    relation::lemma_sole_equal_right(relation, stored, right);
    assert(former.0 is Some);
    assert(former.1 is Some);
    let l = choose|l: L|
        #![trigger relation.contains((l, former.0->0))]
        relation.contains((l, former.0->0)) && l.eq_spec(&left);
    assert((l, former.0->0) == stored);
    let r = choose|r: R|
        #![trigger relation.contains((former.1->0, r))]
        relation.contains((former.1->0, r)) && r.eq_spec(&right);
    assert((former.1->0, r) == stored);
    assert(relation::without_by(
        relation,
        left,
        right,
        hashing::equality::<L>(),
        hashing::equality::<R>(),
    ) =~= relation.remove(stored));
}

/// An insertion leaves no two pairs with equal keys, where there were none.
pub proof fn law_insertion_keeps_keys_unequal<L: Eq, R: Eq>(
    relation: Set<(L, R)>,
    left: L,
    right: R,
)
    requires
        hashing::compares_lawfully::<L>(),
        hashing::compares_lawfully::<R>(),
        relation::one_to_one_by(relation, hashing::equality::<L>(), hashing::equality::<R>()),
    ensures
        relation::one_to_one_by(
            relation::with_pair_by(
                relation,
                left,
                right,
                hashing::equality::<L>(),
                hashing::equality::<R>(),
            ),
            hashing::equality::<L>(),
            hashing::equality::<R>(),
        ),
{
    let after = relation::with_pair_by(
        relation,
        left,
        right,
        hashing::equality::<L>(),
        hashing::equality::<R>(),
    );
    assert forall|p: (L, R), q: (L, R)|
        #![trigger after.contains(p), after.contains(q)]
        after.contains(p) && after.contains(q) && (p.0.eq_spec(&q.0) || p.1.eq_spec(
            &q.1,
        )) implies p == q by {
        if p != (left, right) && q != (left, right) {
            assert(relation.contains(p) && relation.contains(q));
        }
    }
}

/// Tables have the length of those of a new map, or that length doubled any number of times.
pub proof fn law_table_len<L, R, LH, RH, B>(map: BiMap<L, R, LH, RH, B>)
    requires
        map.well_paired(),
    ensures
        crate::map::is_table_len(map.table_len()),
        map.table_len() >= DEFAULT_HASH_MAP_SIZE,
{
    map.lemma_table_len();
}

/// Iteration visits as many pairs as the relation has.
pub proof fn law_iteration_len<L, R, LH, RH, B>(map: BiMap<L, R, LH, RH, B>)
    requires
        map.well_paired(),
        BiMap::<L, R, LH, RH, B>::lawful(),
    ensures
        map.in_order().len() == map@.len(),
        forall|pair: (L, R)| map.in_order().contains(pair) <==> #[trigger] map@.contains(pair),
{
    map.lemma_in_order();
    map.in_order().unique_seq_to_set();
}

/// Looking a left key up gives its partner, and nothing exactly if it has none.
pub proof fn law_lookup_left<L, R>(relation: Set<(L, R)>, left: L, right: R)
    requires
        relation::one_to_one(relation),
    ensures
        relation::leads_to_right::<L, R, L>(relation, &left, right) <==> relation::right_of(
            relation,
            left,
        ) == Some(right),
        relation::lacks_left::<L, R, L>(relation, &left) <==> relation::right_of(
            relation,
            left,
        ) is None,
{
    if relation::leads_to_right::<L, R, L>(relation, &left, right) {
        let l = choose|l: L|
            #![trigger relation.contains((l, right))]
            relation.contains((l, right)) && hashing::sole_match::<L, L>(l, &left);
        hashing::lemma_key_matches_itself(l, left);
        relation::lemma_partner(relation, left, right);
    }
    hashing::lemma_key_matches_itself(left, left);
    if !relation::has_left(relation, left) {
        assert forall|pair: (L, R)| #[trigger]
            relation.contains(pair) implies !hashing::key_matches::<L, L>(pair.0, &left) by {
            hashing::lemma_key_matches_itself(pair.0, left);
            assert(relation.contains((pair.0, pair.1)));
        }
    }
}

/// Looking a right key up gives its partner, and nothing exactly if it has none.
pub proof fn law_lookup_right<L, R>(relation: Set<(L, R)>, left: L, right: R)
    requires
        relation::one_to_one(relation),
    ensures
        relation::leads_to_left::<L, R, R>(relation, &right, left) <==> relation::left_of(
            relation,
            right,
        ) == Some(left),
        relation::lacks_right::<L, R, R>(relation, &right) <==> relation::left_of(
            relation,
            right,
        ) is None,
{
    if relation::leads_to_left::<L, R, R>(relation, &right, left) {
        let r = choose|r: R|
            #![trigger relation.contains((left, r))]
            relation.contains((left, r)) && hashing::sole_match::<R, R>(r, &right);
        hashing::lemma_key_matches_itself(r, right);
        relation::lemma_partner(relation, left, right);
    }
    hashing::lemma_key_matches_itself(right, right);
    if !relation::has_right(relation, right) {
        assert forall|pair: (L, R)| #[trigger]
            relation.contains(pair) implies !hashing::key_matches::<R, R>(pair.1, &right) by {
            hashing::lemma_key_matches_itself(pair.1, right);
            assert(relation.contains((pair.0, pair.1)));
        }
    }
}

/// A list of pairs has `right` with a left key that matches the query.
pub open spec fn listed_for_left<L, R, Q: ?Sized>(list: Seq<(L, R)>, query: &Q, right: R) -> bool {
    exists|left: L| #[trigger]
        list.contains((left, right)) && hashing::key_matches(left, query)
}

/// A list of pairs has `left` with a right key that matches the query.
pub open spec fn listed_for_right<L, R, Q: ?Sized>(list: Seq<(L, R)>, query: &Q, left: L) -> bool {
    exists|right: R| #[trigger]
        list.contains((left, right)) && hashing::key_matches(right, query)
}

/// Looking a left key up, in whatever borrowed form, finds a right key exactly if iteration visits it
/// with a left key that matches, and finds nothing exactly if no left key that iteration visits does.
pub proof fn law_lookup_left_agrees_with_iteration<L, R, LH, RH, B, Q: ?Sized>(
    map: BiMap<L, R, LH, RH, B>,
    query: &Q,
    found: Option<R>,
)
    requires
        map.well_paired(),
        BiMap::<L, R, LH, RH, B>::lawful(),
        relation::found_right(map@, query, found),
    ensures
        forall|right: R| #[trigger]
            listed_for_left(map.in_order(), query, right) <==> found == Some(right),
        found is None <==> forall|pair: (L, R)| #[trigger]
            map.in_order().contains(pair) ==> !hashing::key_matches(pair.0, query),
{
    law_one_to_one(map);
    law_iteration_len(map);
    let list = map.in_order();
    assert forall|right: R| #[trigger] listed_for_left(list, query, right) <==> found == Some(
        right,
    ) by {
        if listed_for_left(list, query, right) {
            let left = choose|left: L| #[trigger]
                list.contains((left, right)) && hashing::key_matches(left, query);
            assert(map@.contains((left, right)));
        }
        if found == Some(right) {
            let left = choose|left: L|
                #![trigger map@.contains((left, right))]
                map@.contains((left, right)) && hashing::sole_match(left, query);
            assert(list.contains((left, right)));
        }
    }
    if let Some(right) = found {
        assert(listed_for_left(list, query, right));
        let left = choose|left: L| #[trigger]
            list.contains((left, right)) && hashing::key_matches(left, query);
        assert(hashing::key_matches((left, right).0, query));
    } else {
        assert forall|pair: (L, R)| #[trigger]
            list.contains(pair) implies !hashing::key_matches(pair.0, query) by {
            assert(map@.contains(pair));
        }
    }
}

/// Looking a right key up, in whatever borrowed form, finds a left key exactly if iteration visits it
/// with a right key that matches, and finds nothing exactly if no right key that iteration visits
/// does.
pub proof fn law_lookup_right_agrees_with_iteration<L, R, LH, RH, B, Q: ?Sized>(
    map: BiMap<L, R, LH, RH, B>,
    query: &Q,
    found: Option<L>,
)
    requires
        map.well_paired(),
        BiMap::<L, R, LH, RH, B>::lawful(),
        relation::found_left(map@, query, found),
    ensures
        forall|left: L| #[trigger]
            listed_for_right(map.in_order(), query, left) <==> found == Some(left),
        found is None <==> forall|pair: (L, R)| #[trigger]
            map.in_order().contains(pair) ==> !hashing::key_matches(pair.1, query),
{
    law_one_to_one(map);
    law_iteration_len(map);
    let list = map.in_order();
    assert forall|left: L| #[trigger] listed_for_right(list, query, left) <==> found == Some(
        left,
    ) by {
        if listed_for_right(list, query, left) {
            let right = choose|right: R| #[trigger]
                list.contains((left, right)) && hashing::key_matches(right, query);
            assert(map@.contains((left, right)));
        }
        if found == Some(left) {
            let right = choose|right: R|
                #![trigger map@.contains((left, right))]
                map@.contains((left, right)) && hashing::sole_match(right, query);
            assert(list.contains((left, right)));
        }
    }
    if let Some(left) = found {
        assert(listed_for_right(list, query, left));
        let right = choose|right: R| #[trigger]
            list.contains((left, right)) && hashing::key_matches(right, query);
        assert(hashing::key_matches((left, right).1, query));
    } else {
        assert forall|pair: (L, R)| #[trigger]
            list.contains(pair) implies !hashing::key_matches(pair.1, query) by {
            assert(map@.contains(pair));
        }
    }
}

/// The left key leads to the right key exactly if the right key leads to the left key.
pub proof fn law_symmetry<L, R>(relation: Set<(L, R)>, left: L, right: R)
    requires
        relation::one_to_one(relation),
    ensures
        relation::right_of(relation, left) == Some(right) <==> relation::left_of(relation, right)
            == Some(left),
{
    if relation::right_of(relation, left) == Some(right) || relation::left_of(relation, right)
        == Some(left) {
        relation::lemma_partner(relation, left, right);
    }
}

/// After an insertion each of the two keys is found to be the other's partner, and the relation is
/// still one-to-one.
pub proof fn law_inserted_pair_is_found<L, R>(relation: Set<(L, R)>, left: L, right: R)
    requires
        relation::one_to_one(relation),
    ensures
        relation::one_to_one(relation::with_pair(relation, left, right)),
        relation::right_of(relation::with_pair(relation, left, right), left) == Some(right),
        relation::left_of(relation::with_pair(relation, left, right), right) == Some(left),
{
    let after = relation::with_pair(relation, left, right);
    relation::lemma_partner(after, left, right);
}

/// An insertion leaves every pair as it was that has neither of the two keys.
pub proof fn law_insertion_leaves_others<L, R>(
    relation: Set<(L, R)>,
    left: L,
    right: R,
    other: (L, R),
)
    requires
        other.0 != left,
        other.1 != right,
    ensures
        relation::with_pair(relation, left, right).contains(other) <==> relation.contains(other),
{
}

/// An insertion takes their partners away from the two keys: a former partner is left without one.
pub proof fn law_insertion_displaces<L, R>(relation: Set<(L, R)>, left: L, right: R, other: (L, R))
    requires
        relation::one_to_one(relation),
        relation.contains(other),
        other != (left, right),
        other.0 == left || other.1 == right,
    ensures
        !relation::with_pair(relation, left, right).contains(other),
        other.0 == left ==> !relation::has_right(relation::with_pair(relation, left, right), other.1),
        other.1 == right ==> !relation::has_left(relation::with_pair(relation, left, right), other.0),
{
}

/// Inserting a pair that is there already changes nothing.
pub proof fn law_insertion_is_idempotent<L, R>(relation: Set<(L, R)>, left: L, right: R)
    requires
        relation::one_to_one(relation),
        relation.contains((left, right)),
    ensures
        relation::with_pair(relation, left, right) == relation,
{
}

/// Of two insertions of one left key only the last one counts, unless the first one takes its right
/// key away from another pair and the last one does not.
pub proof fn law_last_insertion_counts<L, R>(relation: Set<(L, R)>, left: L, first: R, last: R)
    requires
        first == last || forall|other: L| #[trigger]
            relation.contains((other, first)) ==> other == left,
    ensures
        ({
            let once = relation::with_pair(relation, left, first);
            relation::with_pair(once, left, last) == relation::with_pair(relation, left, last)
        }),
{
}

/// A removal by a left key, in whatever borrowed form, returns what a lookup would have found, and
/// leaves the pairs whose left keys do not match; the partner is gone from the right too.
pub proof fn law_removal_by_left_query<L, R, Q: ?Sized>(
    before: Set<(L, R)>,
    after: Set<(L, R)>,
    query: &Q,
    removed: Option<R>,
)
    requires
        relation::one_to_one(before),
        match removed {
            Some(right) => relation::removed_by_left(before, after, query, right),
            None => relation::lacks_left(before, query) && after == before,
        },
    ensures
        relation::found_right(before, query, removed),
        after == relation::unmatched_left(before, query),
        relation::lacks_left(after, query),
        removed is Some ==> !relation::has_right(after, removed->0),
        relation::one_to_one(after),
{
    if let Some(right) = removed {
        let left = choose|left: L|
            #![trigger before.contains((left, right))]
            {
                &&& before.contains((left, right))
                &&& hashing::sole_match(left, query)
                &&& after == before.remove((left, right))
            };
        lemma_removed(before, left, right);
    }
    assert(after =~= relation::unmatched_left(before, query));
}

/// A removal by a right key, in whatever borrowed form, returns what a lookup would have found, and
/// leaves the pairs whose right keys do not match; the partner is gone from the left too.
pub proof fn law_removal_by_right_query<L, R, Q: ?Sized>(
    before: Set<(L, R)>,
    after: Set<(L, R)>,
    query: &Q,
    removed: Option<L>,
)
    requires
        relation::one_to_one(before),
        match removed {
            Some(left) => relation::removed_by_right(before, after, query, left),
            None => relation::lacks_right(before, query) && after == before,
        },
    ensures
        relation::found_left(before, query, removed),
        after == relation::unmatched_right(before, query),
        relation::lacks_right(after, query),
        removed is Some ==> !relation::has_left(after, removed->0),
        relation::one_to_one(after),
{
    if let Some(left) = removed {
        let right = choose|right: R|
            #![trigger before.contains((left, right))]
            {
                &&& before.contains((left, right))
                &&& hashing::sole_match(right, query)
                &&& after == before.remove((left, right))
            };
        lemma_removed(before, left, right);
    }
    assert(after =~= relation::unmatched_right(before, query));
}

/// After a removal by a left key neither it nor its partner is found, and every other pair is as it
/// was.
pub proof fn law_removal_by_left<L, R>(
    before: Set<(L, R)>,
    after: Set<(L, R)>,
    left: L,
    right: R,
    other: (L, R),
)
    requires
        relation::one_to_one(before),
        relation::removed_by_left::<L, R, L>(before, after, &left, right),
    ensures
        relation::right_of(before, left) == Some(right),
        relation::right_of(after, left) is None,
        relation::left_of(after, right) is None,
        other != (left, right) ==> (after.contains(other) <==> before.contains(other)),
        relation::one_to_one(after),
{
    let l = choose|l: L|
        #![trigger before.contains((l, right))]
        {
            &&& before.contains((l, right))
            &&& hashing::sole_match::<L, L>(l, &left)
            &&& after == before.remove((l, right))
        };
    hashing::lemma_key_matches_itself(l, left);
    lemma_removed(before, left, right);
}

/// After a removal by a right key neither it nor its partner is found, and every other pair is as it
/// was.
pub proof fn law_removal_by_right<L, R>(
    before: Set<(L, R)>,
    after: Set<(L, R)>,
    left: L,
    right: R,
    other: (L, R),
)
    requires
        relation::one_to_one(before),
        relation::removed_by_right::<L, R, R>(before, after, &right, left),
    ensures
        relation::left_of(before, right) == Some(left),
        relation::right_of(after, left) is None,
        relation::left_of(after, right) is None,
        other != (left, right) ==> (after.contains(other) <==> before.contains(other)),
        relation::one_to_one(after),
{
    let r = choose|r: R|
        #![trigger before.contains((left, r))]
        {
            &&& before.contains((left, r))
            &&& hashing::sole_match::<R, R>(r, &right)
            &&& after == before.remove((left, r))
        };
    hashing::lemma_key_matches_itself(r, right);
    lemma_removed(before, left, right);
}

proof fn lemma_removed<L, R>(relation: Set<(L, R)>, left: L, right: R)
    requires
        relation::one_to_one(relation),
        relation.contains((left, right)),
    ensures
        relation::right_of(relation, left) == Some(right),
        relation::left_of(relation, right) == Some(left),
        !relation::has_left(relation.remove((left, right)), left),
        !relation::has_right(relation.remove((left, right)), right),
        relation::one_to_one(relation.remove((left, right))),
{
    let after = relation.remove((left, right));
    relation::lemma_partner(relation, left, right);
    relation::lemma_subset_one_to_one(relation, after);
}

/// What is looked up in two tables after a pair has been removed from them: neither of its keys is
/// found any more, in whatever borrowed form, though both led to each other before.
pub proof fn law_lookup_of_removed<K, V, B, Q: ?Sized>(
    keys: Seq<Bucket<K, B>>,
    values: Seq<Bucket<V, B>>,
    keys_after: Seq<Bucket<K, B>>,
    values_after: Seq<Bucket<V, B>>,
    query: &Q,
    key: K,
    value: V,
)
    requires
        pairing::paired(keys, values),
        lookup::distinct(keys),
        lookup::distinct(values),
        lookup::removal(keys, values, keys_after, values_after, key, value),
        hashing::sole_match(key, query),
    ensures
        lookup::answers(keys, values, query, value),
        lookup::answers::<V, K, V, B>(values, keys, &value, key),
        lookup::missing(keys_after, query),
        lookup::missing::<V, V, B>(values_after, &value),
{
    let i = choose|i: int| #[trigger]
        lookup::taken_out(keys, values, keys_after, values_after, i, key, value);
    let j = keys[i].data->0.pair as int;
    assert(lookup::pair_at(keys, values, i, key, value));
    assert(table::linked_at(keys, values, i));
    assert(!table::unpaired(keys, i));
    assert(lookup::pair_at(values, keys, j, value, key));
    hashing::lemma_key_matches_itself(value, value);
    assert forall|at: int, other: K| #[trigger]
        lookup::holds(keys_after, at, other) implies !hashing::key_matches(other, query) by {
        assert(lookup::holds(keys, at, other));
        assert(lookup::holds(keys, i, key));
    }
    assert forall|at: int, other: V| #[trigger]
        lookup::holds(values_after, at, other) implies !hashing::key_matches::<V, V>(
        other,
        &value,
    ) by {
        hashing::lemma_key_matches_itself(other, value);
        assert(lookup::holds(values, at, other));
        assert(lookup::holds(values, j, value));
    }
}

/// What is looked up in two tables after a pair has been removed from them: a query that the removed
/// key does not match has the answer that it had before.
pub proof fn law_lookup_of_others<K, V, B, Q: ?Sized>(
    keys: Seq<Bucket<K, B>>,
    values: Seq<Bucket<V, B>>,
    keys_after: Seq<Bucket<K, B>>,
    values_after: Seq<Bucket<V, B>>,
    key: K,
    value: V,
    query: &Q,
    answer: V,
)
    requires
        pairing::paired(keys, values),
        lookup::removal(keys, values, keys_after, values_after, key, value),
        !hashing::key_matches(key, query),
    ensures
        lookup::answers(keys_after, values_after, query, answer) <==> lookup::answers(
            keys,
            values,
            query,
            answer,
        ),
        lookup::missing(keys_after, query) <==> lookup::missing(keys, query),
{
    let i = choose|i: int| #[trigger]
        lookup::taken_out(keys, values, keys_after, values_after, i, key, value);
    assert(table::linked_at(keys, values, i));
    assert(!table::unpaired(keys, i));
    if lookup::answers(keys, values, query, answer) {
        let (at, other) = choose|at: int, other: K| #[trigger]
            lookup::pair_at(keys, values, at, other, answer) && hashing::sole_match(other, query);
        assert(table::linked_at(keys, values, at));
        assert(lookup::pair_at(keys_after, values_after, at, other, answer));
    }
    if lookup::answers(keys_after, values_after, query, answer) {
        let (at, other) = choose|at: int, other: K| #[trigger]
            lookup::pair_at(keys_after, values_after, at, other, answer) && hashing::sole_match(
                other,
                query,
            );
        assert(lookup::pair_at(keys, values, at, other, answer));
    }
    if lookup::missing(keys_after, query) {
        assert forall|at: int, other: K| #[trigger]
            lookup::holds(keys, at, other) implies !hashing::key_matches(other, query) by {
            if at != i {
                assert(lookup::holds(keys_after, at, other));
            }
        }
    }
    if lookup::missing(keys, query) {
        assert forall|at: int, other: K| #[trigger]
            lookup::holds(keys_after, at, other) implies !hashing::key_matches(other, query) by {
            assert(lookup::holds(keys, at, other));
        }
    }
}

/// A key that is stored with a partner is not missing, and removing it takes out that pair.
pub proof fn law_removal_of_stored<K, V, B>(
    keys: Seq<Bucket<K, B>>,
    values: Seq<Bucket<V, B>>,
    keys_after: Seq<Bucket<K, B>>,
    values_after: Seq<Bucket<V, B>>,
    key: K,
    value: V,
    removed: (K, V),
)
    requires
        lookup::distinct(keys),
        pairing::table_pairs(keys, values).contains((key, value)),
    ensures
        !lookup::missing::<K, K, B>(keys, &key),
        lookup::removal(keys, values, keys_after, values_after, removed.0, removed.1)
            && hashing::sole_match::<K, K>(removed.0, &key) ==> removed == (key, value),
{
    let at = choose|at: int| #[trigger] lookup::pair_at(keys, values, at, key, value);
    hashing::lemma_key_matches_itself(key, key);
    assert(lookup::holds(keys, at, key));
    if lookup::removal(keys, values, keys_after, values_after, removed.0, removed.1)
        && hashing::sole_match::<K, K>(removed.0, &key) {
        let i = choose|i: int| #[trigger]
            lookup::taken_out(keys, values, keys_after, values_after, i, removed.0, removed.1);
        hashing::lemma_key_matches_itself(removed.0, key);
        assert(lookup::holds(keys, i, key));
    }
}

/// Seen from its partner, a removal is a removal too. So what holds of lookups by the removed key's
/// side after a removal holds of those by the other side.
pub proof fn law_removal_is_symmetric<K, V, B>(
    keys: Seq<Bucket<K, B>>,
    values: Seq<Bucket<V, B>>,
    keys_after: Seq<Bucket<K, B>>,
    values_after: Seq<Bucket<V, B>>,
    key: K,
    value: V,
)
    requires
        pairing::paired(keys, values),
        lookup::removal(keys, values, keys_after, values_after, key, value),
    ensures
        pairing::paired(values, keys),
        lookup::removal(values, keys, values_after, keys_after, value, key),
{
    let i = choose|i: int| #[trigger]
        lookup::taken_out(keys, values, keys_after, values_after, i, key, value);
    assert(table::linked_at(keys, values, i));
    assert(!table::unpaired(keys, i));
    let j = keys[i].data->0.pair as int;
    assert(lookup::taken_out(values, keys, values_after, keys_after, j, value, key));
}

/// Removing a pair by its one key or by the other leaves the same tables: the same entries in the
/// same places, and the same neighbourhoods.
pub proof fn law_removal_from_either_side<K, V, B: BitField>(
    keys: Seq<Bucket<K, B>>,
    values: Seq<Bucket<V, B>>,
    keys_by_key: Seq<Bucket<K, B>>,
    values_by_key: Seq<Bucket<V, B>>,
    keys_by_value: Seq<Bucket<K, B>>,
    values_by_value: Seq<Bucket<V, B>>,
    key: K,
    value: V,
)
    requires
        pairing::paired(keys, values),
        lookup::distinct(keys),
        lookup::distinct(values),
        lookup::removal(keys, values, keys_by_key, values_by_key, key, value),
        table::side_wf(keys_by_key),
        table::side_wf(values_by_key),
        lookup::removal(values, keys, values_by_value, keys_by_value, value, key),
        table::side_wf(keys_by_value),
        table::side_wf(values_by_value),
    ensures
        table::alike(keys_by_key, keys_by_value),
        table::alike(values_by_key, values_by_value),
{
    let i = choose|i: int| #[trigger]
        lookup::taken_out(keys, values, keys_by_key, values_by_key, i, key, value);
    let j = choose|j: int| #[trigger]
        lookup::taken_out(values, keys, values_by_value, keys_by_value, j, value, key);
    assert(lookup::holds(keys, i, key));
    assert(lookup::holds(keys, values[j].data->0.pair as int, key));
    assert(lookup::holds(values, j, value));
    assert(lookup::holds(values, keys[i].data->0.pair as int, value));
    assert forall|at: int| 0 <= at < keys.len() implies (#[trigger] keys_by_key[at]).data
        == keys_by_value[at].data by {
        assert(at != i ==> keys_by_value[at].data == keys[at].data);
    }
    assert forall|at: int| 0 <= at < values.len() implies (#[trigger] values_by_key[at]).data
        == values_by_value[at].data by {
        assert(at != j ==> values_by_value[at].data == values[at].data);
    }
    table::lemma_alike(keys_by_key, keys_by_value);
    table::lemma_alike(values_by_key, values_by_value);
}

/// Removing a pair undoes its insertion, if its keys belonged to no pair before.
pub proof fn law_removal_undoes_insertion<L, R>(relation: Set<(L, R)>, left: L, right: R)
    requires
        !relation::has_left(relation, left),
        !relation::has_right(relation, right),
    ensures
        relation::with_pair(relation, left, right).remove((left, right)) == relation,
{
    assert forall|pair: (L, R)| #[trigger] relation.contains(pair) implies pair.0 != left && pair.1
        != right by {
        assert(relation.contains((pair.0, pair.1)));
    }
}

/// An insertion adds one pair to those that have neither of the two keys, hence one to all of them if
/// the keys belonged to none; and a removal takes one pair away.
pub proof fn law_len<L, R>(relation: Set<(L, R)>, left: L, right: R)
    requires
        relation.finite(),
    ensures
        relation::with_pair(relation, left, right).finite(),
        relation::with_pair(relation, left, right).len() == relation::without(
            relation,
            left,
            right,
        ).len() + 1,
        !relation::has_left(relation, left) && !relation::has_right(relation, right)
            ==> relation::with_pair(relation, left, right).len() == relation.len() + 1,
        relation.contains((left, right)) ==> relation.remove((left, right)).len() == relation.len()
            - 1,
{
    let rest = relation::without(relation, left, right);
    vstd::set_lib::lemma_len_subset(rest, relation);
    if !relation::has_left(relation, left) && !relation::has_right(relation, right) {
        law_removal_undoes_insertion(relation, left, right);
    }
}

/// A map with fewer pairs than its tables, and than a neighbourhood, have places has a place for any
/// further pair.
pub proof fn law_small_maps_have_room<L, R, LH, RH, B>(
    map: BiMap<L, R, LH, RH, B>,
    left: L,
    right: R,
) where L: Hash + Eq, R: Hash + Eq, LH: BuildHasher, RH: BuildHasher, B: BitField
    requires
        map.wf(),
        BiMap::<L, R, LH, RH, B>::lawful() || (map.congruent() && map.can_grow()),
        map@.len() < map.table_len(),
        map@.len() < B::width(),
    ensures
        map.has_place_for(left, right),
{
    map.lemma_room(left, right);
}

/// A map that holds fewer pairs than its capacity has a place for any further pair.
pub proof fn law_capacity<L, R, LH, RH, B>(map: BiMap<L, R, LH, RH, B>, left: L, right: R) where
    L: Hash + Eq,
    R: Hash + Eq,
    LH: BuildHasher,
    RH: BuildHasher,
    B: BitField,

    requires
        map.wf(),
        BiMap::<L, R, LH, RH, B>::lawful() || (map.congruent() && map.can_grow()),
        map@.len() < map.pairs_without_growth(),
    ensures
        map.has_place_for(left, right),
{
    map.lemma_room(left, right);
}

/// A key may hash to a bucket exactly if it may have a hash that is the bucket's number and a whole
/// number of turns around the table.
pub proof fn law_home<K: Hash, H: BuildHasher>(hasher: H, key: K, len: int, home: int)
    requires
        0 < len,
    ensures
        hashing::is_home(hasher, key, len, home) <==> 0 <= home < len && exists|
            hash: u64,
            turns: int,
        |
            (hash as usize) == #[trigger] hashing::wound(turns, len, home)
                && #[trigger] hashing::hashes_to(hasher, key, hash),
{
    hashing::lemma_home_of_hash(hasher, key, len, home);
}

/// Every bucket of a table, however long, is the home of a key: of one whose hash is its number.
pub proof fn law_every_bucket_is_a_home<K: Hash, H: BuildHasher>(
    hasher: H,
    key: K,
    len: int,
    home: usize,
)
    requires
        home < len,
        hashing::hashes_to(hasher, key, home as u64),
    ensures
        hashing::is_home(hasher, key, len, home as int),
{
    hashing::lemma_home_of_hash(hasher, key, len, home as int);
    assert((home as u64) as usize == home);
    assert(((home as u64) as usize) == hashing::wound(0, len, home as int));
}

/// Keys with hashes that differ by a whole number of turns around the table share a bucket.
pub proof fn law_shared_home<K: Hash, H: BuildHasher>(
    hasher: H,
    a: K,
    b: K,
    len: int,
    home: int,
    hash_a: u64,
    hash_b: u64,
    turns: int,
    more: int,
)
    requires
        0 <= home < len,
        hashing::hashes_to(hasher, a, hash_a),
        hashing::hashes_to(hasher, b, hash_b),
        (hash_a as usize) == hashing::wound(turns, len, home),
        (hash_b as usize) == hashing::wound(more, len, home),
    ensures
        hashing::is_home(hasher, a, len, home),
        hashing::is_home(hasher, b, len, home),
{
    hashing::lemma_home_of_hash(hasher, a, len, home);
    hashing::lemma_home_of_hash(hasher, b, len, home);
}

/// Keys with hashes that differ by no whole number of turns around the table share no bucket.
pub proof fn law_different_homes<K: Hash, H: BuildHasher>(
    hasher: H,
    a: K,
    b: K,
    len: int,
    home_a: int,
    home_b: int,
)
    requires
        0 < len,
        hashing::hashes_apart(hasher, a, b, len),
        hashing::is_home(hasher, a, len, home_a),
        hashing::is_home(hasher, b, len, home_b),
    ensures
        home_a != home_b,
{
    hashing::lemma_homes_apart(hasher, a, b, len, home_a, home_b);
}

/// A map whose keys have hashes that differ by no whole number of turns around its tables has a place
/// for a further such pair as long as it has fewer pairs than buckets.
pub proof fn law_keys_apart_have_room<L, R, LH, RH, B>(
    map: BiMap<L, R, LH, RH, B>,
    left: L,
    right: R,
) where L: Hash + Eq, R: Hash + Eq, LH: BuildHasher, RH: BuildHasher, B: BitField
    requires
        map.wf(),
        BiMap::<L, R, LH, RH, B>::lawful() || (map.congruent() && map.can_grow()),
        forall|p: (L, R), q: (L, R)|
            #![trigger map@.contains(p), map@.contains(q)]
            map@.contains(p) && map@.contains(q) && p != q ==> {
                &&& hashing::hashes_apart(map.hashers().0, p.0, q.0, map.table_len() as int)
                &&& hashing::hashes_apart(map.hashers().1, p.1, q.1, map.table_len() as int)
            },
        forall|p: (L, R)| #[trigger]
            map@.contains(p) ==> {
                &&& hashing::hashes_apart(map.hashers().0, p.0, left, map.table_len() as int)
                &&& hashing::hashes_apart(map.hashers().1, p.1, right, map.table_len() as int)
            },
        map@.len() < map.table_len(),
    ensures
        map.has_place_for(left, right),
{
    assert(map.keys_apart(left, right));
    map.lemma_keys_apart(left, right);
}

/// The capacity is the lesser of a neighbourhood's width and what the load factor of 1.1 leaves of
/// the tables: eleven tenths of it are no more than the buckets, and of one more they would be, but
/// for six parts in ten times 2^24 that single precision takes off. It is never zero.
pub proof fn law_capacity_in_numbers<L, R, LH, RH, B: BitField>(map: BiMap<L, R, LH, RH, B>)
    requires
        map.well_paired(),
    ensures
        0 < map.pairs_without_growth() <= B::width(),
        B::width() >= 29 ==> map.pairs_without_growth() >= 29,
        11 * map.pairs_without_growth() <= 10 * map.table_len(),
        map.pairs_without_growth() < B::width() ==> 167772160 * map.table_len() < 184549376 * (
        map.pairs_without_growth() + 1) + 6 * map.table_len(),
        map.pairs_without_growth() < B::width() && map.table_len() <= 2097152 ==> 10
            * map.table_len() <= 11 * (map.pairs_without_growth() + 1),
        11 * B::width() + 11 <= 10 * map.table_len() ==> map.pairs_without_growth() == B::width()
            || map.table_len() > 2097152,
{
    B::lemma_width();
    law_table_len(map);
}

/// The capacity never falls when the tables grow.
pub proof fn law_capacity_grows<L, R, LH, RH, B: BitField>(
    smaller: BiMap<L, R, LH, RH, B>,
    larger: BiMap<L, R, LH, RH, B>,
)
    requires
        smaller.table_len() <= larger.table_len(),
    ensures
        smaller.pairs_without_growth() <= larger.pairs_without_growth(),
{
}

/// The number of buckets is that of a new map times a power of two.
pub proof fn law_table_len_in_numbers<L, R, LH, RH, B>(map: BiMap<L, R, LH, RH, B>)
    requires
        map.well_paired(),
    ensures
        exists|doublings: nat|
            map.table_len() == DEFAULT_HASH_MAP_SIZE * #[trigger] vstd::arithmetic::power2::pow2(
                doublings,
            ),
{
    map.lemma_table_len();
    lemma_doublings(map.table_len());
}

proof fn lemma_doublings(len: nat) -> (doublings: nat)
    requires
        crate::map::is_table_len(len),
    ensures
        len == DEFAULT_HASH_MAP_SIZE * vstd::arithmetic::power2::pow2(doublings),
    decreases len,
{
    if len == DEFAULT_HASH_MAP_SIZE {
        vstd::arithmetic::power2::lemma2_to64();
        0
    } else {
        let fewer = lemma_doublings(len / 2);
        vstd::arithmetic::power2::lemma_pow2_unfold(fewer + 1);
        fewer + 1
    }
}

/// Tables that an insertion has lengthened are twice as long as some that had no place for a pair:
/// that pair and all that were in those are in the map.
pub proof fn law_growth_is_by_doubling<L, R, LH, RH, B>(map: BiMap<L, R, LH, RH, B>) where
    L: Hash + Eq,
    R: Hash + Eq,
    LH: BuildHasher,
    RH: BuildHasher,
    B: BitField,

    requires
        map.outgrew_half(),
    ensures
        exists|half: BiMap<L, R, LH, RH, B>, pair: (L, R)| #[trigger]
            half.too_small_for(map, pair) && half.wf() && half.table_len() + half.table_len()
                == map.table_len() && half.hashers() == map.hashers() && half@.subset_of(map@)
                && map@.contains(pair) && !half@.contains(pair) && !half.has_place_for(
                pair.0,
                pair.1,
            ),
{
}

/// While tables are no longer than half of what a `usize` counts, the pairs are no more than the
/// buckets: each has its place in the tables.
pub proof fn law_pairs_fit_the_tables<L, R, LH, RH, B>(map: BiMap<L, R, LH, RH, B>)
    requires
        map.well_paired(),
        BiMap::<L, R, LH, RH, B>::lawful(),
        map.table_len() <= usize::MAX / 2,
    ensures
        map.in_order().len() <= map.table_len(),
        map@.len() <= map.table_len(),
{
    map.lemma_fits();
    law_iteration_len(map);
}

/// Keys that are hashed and compared as a hash table asks are lawful keys of a map; and a map that no
/// key has been put into is ready for use.
pub proof fn law_lawful_keys<L, R, LH, RH, B>(map: BiMap<L, R, LH, RH, B>) where
    L: Hash + Eq,
    R: Hash + Eq,
    LH: BuildHasher,
    RH: BuildHasher,
    B: BitField,

    ensures
        vstd::std_specs::hash::obeys_key_model::<L>() && vstd::std_specs::hash::obeys_key_model::<R>()
            && vstd::std_specs::hash::builds_valid_hashers::<LH>()
            && vstd::std_specs::hash::builds_valid_hashers::<RH>() ==> BiMap::<
            L,
            R,
            LH,
            RH,
            B,
        >::lawful(),
        hashing::congruent::<L, LH>(map.hashers().0) && hashing::congruent::<R, RH>(
            map.hashers().1,
        ) ==> map.congruent(),
        map.table_len() <= usize::MAX / 2 ==> map.can_grow(),
        map.well_paired() && map.untouched() ==> map.wf(),
{
}

/// Keys are congruent where `==` is an equivalence and no two equal keys may have different hashes.
pub proof fn law_congruent_keys<K: Hash + Eq, H: BuildHasher>(hasher: H)
    requires
        K::obeys_eq_spec(),
        forall|a: K| #[trigger] a.eq_spec(&a),
        forall|a: K, b: K| #[trigger] a.eq_spec(&b) ==> b.eq_spec(&a),
        forall|a: K, b: K, c: K| #[trigger]
            a.eq_spec(&b) && #[trigger] b.eq_spec(&c) ==> a.eq_spec(&c),
        forall|a: K, b: K, hash_a: u64, hash_b: u64|
            a.eq_spec(&b) && #[trigger] hashing::hashes_to(hasher, a, hash_a)
                && #[trigger] hashing::hashes_to(hasher, b, hash_b) ==> hash_a == hash_b,
    ensures
        hashing::congruent::<K, H>(hasher),
{
    hashing::lemma_congruent::<K, H>(hasher);
}

/// After an insertion a pair is there exactly if it is the inserted one, or was there and has no key
/// that equals one of the two.
pub proof fn law_insertion_leaves_unequals<L: Eq, R: Eq>(
    relation: Set<(L, R)>,
    left: L,
    right: R,
    pair: (L, R),
)
    ensures
        relation::with_pair_by(
            relation,
            left,
            right,
            hashing::equality::<L>(),
            hashing::equality::<R>(),
        ).contains(pair) <==> pair == (left, right) || (relation.contains(pair) && !pair.0.eq_spec(
            &left,
        ) && !pair.1.eq_spec(&right)),
{
}

/// Two keys have a place exactly if, from whatever bucket each may hash to, it can be placed in its
/// table.
pub proof fn law_has_place_for<L, R, LH, RH, B>(
    map: BiMap<L, R, LH, RH, B>,
    left: L,
    right: R,
) where L: Hash + Eq, R: Hash + Eq, LH: BuildHasher, RH: BuildHasher, B: BitField
    ensures
        map.has_place_for(left, right) <==> {
            &&& forall|home: int| #[trigger]
                hashing::is_home(map.hashers().0, left, map.left_table().len() as int, home)
                    ==> crate::layout::place(
                    table::homes(map.left_table()),
                    home,
                    B::width() as int,
                ) is Some
            &&& forall|home: int| #[trigger]
                hashing::is_home(map.hashers().1, right, map.right_table().len() as int, home)
                    ==> crate::layout::place(
                    table::homes(map.right_table()),
                    home,
                    B::width() as int,
                ) is Some
        },
{
    map.lemma_tables(left, right);
}

/// In a well-formed map every left key lies in the neighbourhood of a bucket that it hashes to, which
/// has it on record; and it is paired with a right key that points back at it.
pub proof fn law_left_keys_in_place<L, R, LH, RH, B>(map: BiMap<L, R, LH, RH, B>, i: int) where
    L: Hash + Eq,
    R: Hash + Eq,
    LH: BuildHasher,
    RH: BuildHasher,
    B: BitField,

    requires
        map.wf(),
        0 <= i < map.left_table().len(),
        map.left_table()[i].data is Some,
    ensures
        ({
            let len = map.table_len() as int;
            let entry = map.left_table()[i].data->0;
            let offset = (i - entry.ideal + len) % len;
            let partner = map.right_table()[entry.pair as int].data;
            &&& map.left_table().len() == map.right_table().len() == len
            &&& hashing::is_home(map.hashers().0, entry.key, len, entry.ideal as int)
            &&& entry.ideal < len
            &&& offset < B::width()
            &&& map.left_table()[entry.ideal as int].neighbourhood.bit(offset)
            &&& entry.pair < len
            &&& partner is Some
            &&& partner->0.pair == i
            &&& map.can_grow() ==> map@.contains((entry.key, partner->0.key))
        }),
{
    let entry = map.left_table()[i].data->0;
    map.lemma_well_formed();
    map.lemma_tables(entry.key, map.right_table()[entry.pair as int].data->0.key);
    let len = map.table_len() as int;
    assert(table::recorded_at(map.left_table(), i));
    assert(table::linked_at(map.left_table(), map.right_table(), i));
    assert(!table::unpaired(map.left_table(), i));
    assert(lookup::homed_at(map.left_table(), map.hashers().0, i));
    lemma_turn(i, entry.ideal as int, len);
    assert(lookup::holds(map.left_table(), i, entry.key));
    pairing::lemma_held(map.left_table(), map.right_table(), i, entry.key);
}

/// In a well-formed map every right key lies in the neighbourhood of a bucket that it hashes to, which
/// has it on record; and it is paired with a left key that points back at it.
pub proof fn law_right_keys_in_place<L, R, LH, RH, B>(map: BiMap<L, R, LH, RH, B>, j: int) where
    L: Hash + Eq,
    R: Hash + Eq,
    LH: BuildHasher,
    RH: BuildHasher,
    B: BitField,

    requires
        map.wf(),
        0 <= j < map.right_table().len(),
        map.right_table()[j].data is Some,
    ensures
        ({
            let len = map.table_len() as int;
            let entry = map.right_table()[j].data->0;
            let offset = (j - entry.ideal + len) % len;
            let partner = map.left_table()[entry.pair as int].data;
            &&& hashing::is_home(map.hashers().1, entry.key, len, entry.ideal as int)
            &&& entry.ideal < len
            &&& offset < B::width()
            &&& map.right_table()[entry.ideal as int].neighbourhood.bit(offset)
            &&& entry.pair < len
            &&& partner is Some
            &&& partner->0.pair == j
            &&& map.can_grow() ==> map@.contains((partner->0.key, entry.key))
        }),
{
    let entry = map.right_table()[j].data->0;
    let partner = map.left_table()[entry.pair as int].data->0;
    map.lemma_well_formed();
    map.lemma_tables(partner.key, entry.key);
    let len = map.table_len() as int;
    assert(table::recorded_at(map.right_table(), j));
    assert(table::linked_at(map.right_table(), map.left_table(), j));
    assert(!table::unpaired(map.right_table(), j));
    assert(lookup::homed_at(map.right_table(), map.hashers().1, j));
    lemma_turn(j, entry.ideal as int, len);
    assert(lookup::holds(map.right_table(), j, entry.key));
    pairing::lemma_held(map.right_table(), map.left_table(), j, entry.key);
    pairing::lemma_flip(map.left_table(), map.right_table(), partner.key, entry.key);
}

/// The steps forward from one place to another, reckoned as a remainder.
proof fn lemma_turn(to: int, from: int, len: int)
    requires
        0 <= from < len,
        0 <= to < len,
    ensures
        crate::ring::distance(from, to, len) == (to - from + len) % len,
{
    let turn = to - from + len;
    if turn < len {
        vstd::arithmetic::div_mod::lemma_small_mod(turn as nat, len as nat);
    } else {
        vstd::arithmetic::div_mod::lemma_fundamental_div_mod_converse(turn, len, 1, turn - len);
    }
}

/// What a map that is found consistent is like: the tables have one length, and every key of either
/// is on record in the neighbourhood of the bucket it is filed under and has a partner that points
/// back at it.
pub proof fn law_consistent<L, R, LH, RH, B>(map: BiMap<L, R, LH, RH, B>, left: L, right: R) where
    L: Hash + Eq,
    R: Hash + Eq,
    LH: BuildHasher,
    RH: BuildHasher,
    B: BitField,

    ensures
        map.consistent() <==> {
            &&& map.left_table().len() == map.right_table().len()
            &&& forall|i: int|
                0 <= i < map.left_table().len() ==> #[trigger] backs_up(
                    map.left_table(),
                    map.right_table(),
                    i,
                )
            &&& forall|j: int|
                0 <= j < map.right_table().len() ==> #[trigger] backs_up(
                    map.right_table(),
                    map.left_table(),
                    j,
                )
        },
        map.well_homed() <==> {
            &&& forall|i: int|
                0 <= i < map.left_table().len() ==> #[trigger] is_filed(
                    map.left_table(),
                    map.hashers().0,
                    i,
                )
            &&& forall|j: int|
                0 <= j < map.right_table().len() ==> #[trigger] is_filed(
                    map.right_table(),
                    map.hashers().1,
                    j,
                )
        },
        map.well_filed() ==> {
            &&& forall|i: int|
                0 <= i < map.left_table().len() ==> #[trigger] is_filed_only(
                    map.left_table(),
                    map.hashers().0,
                    i,
                )
            &&& forall|j: int|
                0 <= j < map.right_table().len() ==> #[trigger] is_filed_only(
                    map.right_table(),
                    map.hashers().1,
                    j,
                )
        },
{
    map.lemma_tables(left, right);
    let lefts = map.left_table();
    let rights = map.right_table();
    assert forall|i: int| 0 <= i < lefts.len() implies #[trigger] backs_up(lefts, rights, i)
        == lookup::in_step_at(lefts, rights, i) by {
        lemma_backs_up(lefts, rights, i);
    }
    assert forall|j: int| 0 <= j < rights.len() implies #[trigger] backs_up(rights, lefts, j)
        == lookup::in_step_at(rights, lefts, j) by {
        lemma_backs_up(rights, lefts, j);
    }
    assert(lookup::in_step(lefts, rights) <==> forall|i: int|
        0 <= i < lefts.len() ==> #[trigger] backs_up(lefts, rights, i)) by {
        if forall|i: int| 0 <= i < lefts.len() ==> #[trigger] backs_up(lefts, rights, i) {
            assert forall|i: int| 0 <= i < lefts.len() implies #[trigger] lookup::in_step_at(
                lefts,
                rights,
                i,
            ) by {
                assert(backs_up(lefts, rights, i));
            }
        }
    }
    assert(lookup::in_step(rights, lefts) <==> forall|j: int|
        0 <= j < rights.len() ==> #[trigger] backs_up(rights, lefts, j)) by {
        if forall|j: int| 0 <= j < rights.len() ==> #[trigger] backs_up(rights, lefts, j) {
            assert forall|j: int| 0 <= j < rights.len() implies #[trigger] lookup::in_step_at(
                rights,
                lefts,
                j,
            ) by {
                assert(backs_up(rights, lefts, j));
            }
        }
    }
    lemma_filed(lefts, map.hashers().0);
    lemma_filed(rights, map.hashers().1);
}

/// The key at `i`, if there is one, is on record in the neighbourhood of the bucket it is filed under,
/// and its partner points back at it.
pub open spec fn backs_up<K, V, B: BitField>(
    keys: Seq<Bucket<K, B>>,
    values: Seq<Bucket<V, B>>,
    i: int,
) -> bool {
    match keys[i].data {
        Some(entry) => {
            let len = keys.len() as int;
            let offset = (i - entry.ideal + len) % len;
            &&& entry.ideal < len
            &&& offset < B::width()
            &&& keys[entry.ideal as int].neighbourhood.bit(offset)
            &&& entry.pair < values.len()
            &&& match values[entry.pair as int].data {
                Some(partner) => partner.pair == i,
                None => false,
            }
        },
        None => true,
    }
}

/// The key at `i`, if there is one, may hash to the bucket it is filed under.
pub open spec fn is_filed<K: Hash, H: BuildHasher, B>(
    keys: Seq<Bucket<K, B>>,
    hasher: H,
    i: int,
) -> bool {
    match keys[i].data {
        Some(entry) => hashing::is_home(hasher, entry.key, keys.len() as int, entry.ideal as int),
        None => true,
    }
}

/// The key at `i`, if there is one, hashes to no bucket but the one it is filed under.
pub open spec fn is_filed_only<K: Hash, H: BuildHasher, B>(
    keys: Seq<Bucket<K, B>>,
    hasher: H,
    i: int,
) -> bool {
    match keys[i].data {
        Some(entry) => forall|home: int| #[trigger]
            hashing::is_home(hasher, entry.key, keys.len() as int, home) ==> home == entry.ideal,
        None => true,
    }
}

proof fn lemma_backs_up<K, V, B: BitField>(
    keys: Seq<Bucket<K, B>>,
    values: Seq<Bucket<V, B>>,
    i: int,
)
    requires
        0 <= i < keys.len(),
    ensures
        backs_up(keys, values, i) == lookup::in_step_at(keys, values, i),
{
    if let Some(entry) = keys[i].data {
        if entry.ideal < keys.len() {
            lemma_turn(i, entry.ideal as int, keys.len() as int);
        }
    }
}

proof fn lemma_filed<K: Hash, H: BuildHasher, B>(keys: Seq<Bucket<K, B>>, hasher: H)
    ensures
        lookup::homed(keys, hasher) <==> forall|i: int|
            0 <= i < keys.len() ==> #[trigger] is_filed(keys, hasher, i),
        lookup::hashed(keys, hasher) ==> forall|i: int|
            0 <= i < keys.len() ==> #[trigger] is_filed_only(keys, hasher, i),
{
    assert forall|i: int| 0 <= i < keys.len() implies #[trigger] is_filed(keys, hasher, i)
        == lookup::homed_at(keys, hasher, i) by {}
    if forall|i: int| 0 <= i < keys.len() ==> #[trigger] is_filed(keys, hasher, i) {
        assert forall|i: int| 0 <= i < keys.len() implies #[trigger] lookup::homed_at(
            keys,
            hasher,
            i,
        ) by {
            assert(is_filed(keys, hasher, i));
        }
    }
    if lookup::hashed(keys, hasher) {
        assert forall|i: int| 0 <= i < keys.len() implies #[trigger] is_filed_only(
            keys,
            hasher,
            i,
        ) by {
            assert(lookup::hashed_at(keys, hasher, i));
            if let Some(entry) = keys[i].data {
                hashing::lemma_key_matches_itself(entry.key, entry.key);
            }
        }
    }
}

/// Where an insertion says that tables grew for want of place, there is a map in between: without the
/// pairs of either key, in tables of the length before, which had no place for the two exactly if the
/// length has changed.
pub proof fn law_growth_for_want_of_place<L, R, LH, RH, B>(
    before: BiMap<L, R, LH, RH, B>,
    after: BiMap<L, R, LH, RH, B>,
    left: L,
    right: R,
) where L: Hash + Eq, R: Hash + Eq, LH: BuildHasher, RH: BuildHasher, B: BitField
    requires
        before.grows_for_want_of_place(after, left, right),
    ensures
        exists|between: BiMap<L, R, LH, RH, B>|
            #![trigger between.has_place_for(left, right)]
            {
                &&& between.wf()
                &&& between.hashers() == before.hashers()
                &&& between.table_len() == before.table_len()
                &&& forall|p: (L, R)|
                    #![trigger between@.contains(p)]
                    between@.contains(p) <==> before@.contains(p) && p.0 != left && p.1 != right
                &&& after.table_len() != before.table_len() <==> !between.has_place_for(left, right)
            },
{
    let between = choose|between: BiMap<L, R, LH, RH, B>| #[trigger]
        between.cleared_of(before, left, right) && (after.table_len() == before.table_len()
            <==> between.has_place_for(left, right));
    assert(between.has_place_for(left, right) == between.has_place_for(left, right));
}

/// What belongs to a relation, and what an insertion clears away from it.
pub proof fn law_belonging<L, R>(relation: Set<(L, R)>, left: L, right: R, pair: (L, R))
    ensures
        relation.contains((left, right)) ==> relation::has_left(relation, left)
            && relation::has_right(relation, right),
        (forall|p: (L, R)| #[trigger] relation.contains(p) ==> p.0 != left)
            ==> !relation::has_left(relation, left),
        (forall|p: (L, R)| #[trigger] relation.contains(p) ==> p.1 != right)
            ==> !relation::has_right(relation, right),
        relation::without(relation, left, right).contains(pair) <==> relation.contains(pair)
            && pair.0 != left && pair.1 != right,
{
}

/// What lookups and removals by equality find and leave: the partner of an equal key, and the pairs
/// without one.
pub proof fn law_equals_found<L: Eq, R: Eq>(
    relation: Set<(L, R)>,
    left: L,
    right: R,
    found: (Option<R>, Option<L>),
    pair: (L, R),
)
    requires
        relation::found_right_by(relation, left, found.0, hashing::equality::<L>()),
        relation::found_left_by(relation, right, found.1, hashing::equality::<R>()),
    ensures
        found.0 is None && relation.contains(pair) ==> !pair.0.eq_spec(&left),
        found.1 is None && relation.contains(pair) ==> !pair.1.eq_spec(&right),
        found.0 is Some ==> exists|l: L| #[trigger]
            relation.contains((l, found.0->0)) && l.eq_spec(&left),
        found.1 is Some ==> exists|r: R| #[trigger]
            relation.contains((found.1->0, r)) && r.eq_spec(&right),
        relation::unequal_left(relation, left, hashing::equality::<L>()).contains(pair)
            <==> relation.contains(pair) && !pair.0.eq_spec(&left),
        relation::unequal_right(relation, right, hashing::equality::<R>()).contains(pair)
            <==> relation.contains(pair) && !pair.1.eq_spec(&right),
{
}

/// A map without a pair whose keys equal one of two lacks equals of them.
pub proof fn law_lacks_equals<L, R, LH, RH, B>(
    map: BiMap<L, R, LH, RH, B>,
    left: L,
    right: R,
) where L: Hash + Eq, R: Hash + Eq, LH: BuildHasher, RH: BuildHasher, B: BitField
    ensures
        map.lacks_equals(left, right) <==> forall|p: (L, R)| #[trigger]
            map@.contains(p) ==> !p.0.eq_spec(&left) && !p.1.eq_spec(&right),
{
}

} // verus!
