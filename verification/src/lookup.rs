//! Finding and removing keys of a table.
use crate::bitfield::BitField;
use crate::bucket::Bucket;
use crate::hashing::{find_query_index, matches_query};
use crate::ring::{offset_of, slot_at};
use crate::table::vacate;
use std::borrow::Borrow;
use std::hash::{BuildHasher, Hash};
use vstd::prelude::*;
use vstd::std_specs::cmp::PartialEqSpec;

verus! {

/// The key at `i`, if there is one, is filed under a bucket that it hashes to.
pub open spec fn homed_at<K: Hash, H: BuildHasher, B>(
    table: Seq<Bucket<K, B>>,
    hasher: H,
    i: int,
) -> bool {
    table[i].data is Some ==> crate::hashing::is_home(
        hasher,
        table[i].data->0.key,
        table.len() as int,
        table[i].data->0.ideal as int,
    )
}

/// Every key is filed under a bucket that it hashes to.
pub open spec fn homed<K: Hash, H: BuildHasher, B>(
    table: Seq<Bucket<K, B>>,
    hasher: H,
) -> bool {
    forall|i: int| 0 <= i < table.len() ==> #[trigger] homed_at(table, hasher, i)
}

/// The place `i` holds `key`.
pub open spec fn holds<K, B>(table: Seq<Bucket<K, B>>, i: int, key: K) -> bool {
    0 <= i < table.len() && table[i].data is Some && table[i].data->0.key == key
}

/// No key is held twice.
pub open spec fn distinct<K, B>(table: Seq<Bucket<K, B>>) -> bool {
    forall|i: int, j: int, key: K|
        #[trigger] holds(table, i, key) && #[trigger] holds(table, j, key) ==> i == j
}

/// No two of the keys are the same, as `same` has it.
pub open spec fn distinct_by<K, B>(table: Seq<Bucket<K, B>>, same: spec_fn(K, K) -> bool) -> bool {
    forall|i: int, j: int, a: K, b: K|
        #[trigger] holds(table, i, a) && #[trigger] holds(table, j, b) && same(a, b) ==> i == j
}

/// None of the keys is the same as `key`, as `same` has it.
pub open spec fn absent_by<K, B>(
    table: Seq<Bucket<K, B>>,
    key: K,
    same: spec_fn(K, K) -> bool,
) -> bool {
    forall|i: int, held: K| #[trigger]
        holds(table, i, held) ==> !same(held, key) && !same(key, held)
}

/// Keys of which no two are equal are held once each.
pub proof fn lemma_distinct<K: Eq, B>(table: Seq<Bucket<K, B>>)
    requires
        crate::hashing::compares_lawfully::<K>(),
        distinct_by(table, crate::hashing::equality::<K>()),
    ensures
        distinct(table),
{
    assert forall|i: int, j: int, key: K| #[trigger]
        holds(table, i, key) && #[trigger] holds(table, j, key) implies i == j by {
        assert(key.eq_spec(&key));
    }
}

/// No key matches the query.
pub open spec fn missing<K, Q: ?Sized, B>(table: Seq<Bucket<K, B>>, query: &Q) -> bool {
    forall|i: int, key: K| #[trigger] holds(table, i, key) ==> !crate::hashing::key_matches(key, query)
}

/// Finds the place of a key that matches the query.
pub(crate) fn find<K, Q: ?Sized, H, B>(
    query: &Q,
    key_data: &Vec<Bucket<K, B>>,
    key_hasher: &H,
) -> (found: Option<usize>) where
    K: Hash + Eq + Borrow<Q>,
    Q: Hash + Eq,
    H: BuildHasher,
    B: BitField,

    requires
        0 < key_data.len(),
        crate::table::side_wf(key_data@),
        homed(key_data@, *key_hasher),
    ensures
        match found {
            Some(slot) => {
                &&& slot < key_data.len()
                &&& key_data[slot as int].data is Some
                &&& crate::hashing::lawful::<K, H>() ==> crate::hashing::sole_match(
                    key_data[slot as int].data->0.key,
                    query,
                )
            },
            None => crate::hashing::lawful::<K, H>() ==> missing(key_data@, query),
        },
        crate::hashing::congruent::<K, H>(*key_hasher) ==> forall|other: K| #[trigger]
            crate::hashing::key_matches(other, query) ==> match found {
                Some(slot) => key_data[slot as int].data->0.key.eq_spec(&other),
                None => absent_by(key_data@, other, crate::hashing::equality::<K>()),
            },
        crate::hashing::congruent::<K, H>(*key_hasher) ==> forall|other: K| #[trigger]
            crate::hashing::key_matches(other, query) ==> crate::hashing::has_one_home::<K, K, H>(
                *key_hasher,
                &other,
                key_data.len() as int,
            ),
        crate::hashing::lawful::<K, H>() ==> crate::hashing::has_one_home::<K, Q, H>(
            *key_hasher,
            query,
            key_data.len() as int,
        ),
{
    let len: usize = key_data.len();
    let ideal: usize = find_query_index::<K, Q, H>(query, key_hasher, len);
    proof {
        if crate::hashing::congruent::<K, H>(*key_hasher) {
            assert forall|other: K| #[trigger]
                crate::hashing::key_matches(
                    other,
                    query,
                ) implies crate::hashing::has_one_home::<K, K, H>(
                *key_hasher,
                &other,
                len as int,
            ) by {
                crate::hashing::lemma_one_home_of_equals(
                    *key_hasher,
                    other,
                    len as int,
                    ideal as int,
                );
            }
        }
    }
    let offsets: Vec<usize> = key_data[ideal].neighbourhood.iter();
    let mut next: usize = 0;
    while next < offsets.len()
        invariant
            crate::hashing::congruent::<K, H>(*key_hasher) ==> forall|other: K| #[trigger]
                crate::hashing::key_matches(other, query) ==> crate::hashing::has_one_home::<
                    K,
                    K,
                    H,
                >(*key_hasher, &other, len as int),
            len == key_data.len(),
            ideal < len,
            next <= offsets.len(),
            crate::table::side_wf(key_data@),
            crate::hashing::lawful::<K, H>() ==> crate::hashing::has_one_home::<K, Q, H>(
                *key_hasher,
                query,
                len as int,
            ),
            forall|k: int|
                0 <= k < offsets.len() ==> #[trigger] offsets[k] < B::width()
                    && key_data[ideal as int].neighbourhood.bit(offsets[k] as int),
            crate::hashing::lawful::<K, H>() ==> forall|k: int|
                0 <= k < next ==> !crate::hashing::key_matches(
                    key_data[crate::ring::step(
                        ideal as int,
                        #[trigger] offsets[k] as int,
                        len as int,
                    )].data->0.key,
                    query,
                ),
            K::obeys_eq_spec() ==> forall|other: K, k: int|
                0 <= k < next && #[trigger] crate::hashing::key_matches(other, query)
                    ==> !key_data[crate::ring::step(
                    ideal as int,
                    #[trigger] offsets[k] as int,
                    len as int,
                )].data->0.key.eq_spec(&other),
        decreases offsets.len() - next,
    {
        let offset: usize = offsets[next];
        assert(crate::table::backed_at(key_data@, ideal as int, offset as int));
        let slot: usize = slot_at(ideal, offset, len);
        if let Some(entry) = &key_data[slot].data {
            if matches_query(&entry.key, query) {
                return Some(slot);
            }
        }
        next = next + 1;
    }
    proof {
        if crate::hashing::lawful::<K, H>() {
            assert forall|i: int, key: K| #[trigger]
                holds(key_data@, i, key) implies !crate::hashing::key_matches(key, query) by {
                assert(crate::table::recorded_at(key_data@, i));
                assert(homed_at(key_data@, *key_hasher, i));
            }
        }
        if crate::hashing::congruent::<K, H>(*key_hasher) {
            assert forall|other: K| #[trigger]
                crate::hashing::key_matches(other, query) implies absent_by(
                key_data@,
                other,
                crate::hashing::equality::<K>(),
            ) by {
                assert forall|i: int, held: K| #[trigger]
                    holds(key_data@, i, held) implies !held.eq_spec(&other) && !other.eq_spec(
                    &held,
                ) by {
                    assert(crate::table::recorded_at(key_data@, i));
                    assert(homed_at(key_data@, *key_hasher, i));
                    if held.eq_spec(&other) || other.eq_spec(&held) {
                        assert(held.eq_spec(&other));
                        let home = key_data[i].data->0.ideal as int;
                        crate::hashing::lemma_home_of_equals(
                            *key_hasher,
                            held,
                            other,
                            len as int,
                            home,
                            ideal as int,
                        );
                        let offset = crate::ring::distance(home, i, len as int);
                        assert(offsets@.contains(offset as usize));
                        let k = choose|k: int| 0 <= k < offsets.len() && offsets[k] == offset as usize;
                        assert(crate::ring::step(ideal as int, offsets[k] as int, len as int) == i);
                    }
                }
            }
        }
    }
    None
}

/// Looks up a key in `key_data`, and returns its partner in `value_data`.
pub(crate) fn get<'a, K, V, Q: ?Sized, H, B>(
    query: &Q,
    key_data: &Vec<Bucket<K, B>>,
    value_data: &'a Vec<Bucket<V, B>>,
    key_hasher: &H,
) -> (found: Option<&'a V>) where
    K: Hash + Eq + Borrow<Q>,
    Q: Hash + Eq,
    H: BuildHasher,
    B: BitField,

    requires
        0 < key_data.len(),
        crate::table::side_wf(key_data@),
        crate::table::linked(key_data@, value_data@),
        forall|i: int| 0 <= i < key_data.len() ==> !#[trigger] crate::table::unpaired(key_data@, i),
        homed(key_data@, *key_hasher),
    ensures
        crate::hashing::lawful::<K, H>() ==> match found {
            Some(value) => answers(key_data@, value_data@, query, *value),
            None => missing(key_data@, query),
        },
        crate::hashing::congruent::<K, H>(*key_hasher) ==> forall|other: K| #[trigger]
            crate::hashing::key_matches(other, query) ==> match found {
                Some(value) => answers_by(
                    key_data@,
                    value_data@,
                    other,
                    crate::hashing::equality::<K>(),
                    *value,
                ),
                None => absent_by(key_data@, other, crate::hashing::equality::<K>()),
            },
        match found {
            Some(value) => is_partner(key_data@, value_data@, *value),
            None => true,
        },
{
    let slot: usize = match find(query, key_data, key_hasher) {
        Some(slot) => slot,
        None => return None,
    };
    proof {
        assert(crate::table::linked_at(key_data@, value_data@, slot as int));
        assert(!crate::table::unpaired(key_data@, slot as int));
    }
    let entry = key_data[slot].data.as_ref().unwrap();
    let partner = value_data[entry.pair].data.as_ref().unwrap();
    assert(pair_at(key_data@, value_data@, slot as int, entry.key, partner.key));
    Some(&partner.key)
}

/// Removes a key from `key_data`, and its partner from `value_data`.
pub(crate) fn remove<K, V, Q: ?Sized, H, B>(
    query: &Q,
    key_data: &mut Vec<Bucket<K, B>>,
    value_data: &mut Vec<Bucket<V, B>>,
    key_hasher: &H,
) -> (removed: Option<(K, V)>) where
    K: Hash + Eq + Borrow<Q>,
    Q: Hash + Eq,
    H: BuildHasher,
    B: BitField,

    requires
        0 < old(key_data).len(),
        crate::table::side_wf(old(key_data)@),
        crate::table::side_wf(old(value_data)@),
        crate::table::linked(old(key_data)@, old(value_data)@),
        forall|i: int|
            0 <= i < old(key_data).len() ==> !#[trigger] crate::table::unpaired(old(key_data)@, i),
        homed(old(key_data)@, *key_hasher),
    ensures
        crate::table::side_wf(final(key_data)@),
        crate::table::side_wf(final(value_data)@),
        match removed {
            Some((key, value)) => {
                &&& removal(
                    old(key_data)@,
                    old(value_data)@,
                    final(key_data)@,
                    final(value_data)@,
                    key,
                    value,
                )
                &&& crate::hashing::lawful::<K, H>() ==> crate::hashing::sole_match(key, query)
            },
            None => {
                &&& *final(key_data) == *old(key_data)
                &&& *final(value_data) == *old(value_data)
                &&& crate::hashing::lawful::<K, H>() ==> missing(old(key_data)@, query)
            },
        },
        crate::hashing::congruent::<K, H>(*key_hasher) ==> forall|other: K| #[trigger]
            crate::hashing::key_matches(other, query) ==> match removed {
                Some((key, value)) => key.eq_spec(&other),
                None => absent_by(old(key_data)@, other, crate::hashing::equality::<K>()),
            },
        crate::hashing::congruent::<K, H>(*key_hasher) ==> forall|other: K| #[trigger]
            crate::hashing::key_matches(other, query) ==> crate::hashing::has_one_home::<K, K, H>(
                *key_hasher,
                &other,
                old(key_data).len() as int,
            ),
        crate::hashing::lawful::<K, H>() ==> crate::hashing::has_one_home::<K, Q, H>(
            *key_hasher,
            query,
            old(key_data).len() as int,
        ),
{
    let slot: usize = match find(query, key_data, key_hasher) {
        Some(slot) => slot,
        None => return None,
    };
    let ghost keys = key_data@;
    let ghost values = value_data@;
    proof {
        assert(crate::table::linked_at(keys, values, slot as int));
        assert(!crate::table::unpaired(keys, slot as int));
    }
    let entry = vacate(slot, key_data);
    let partner = vacate(entry.pair, value_data);
    assert(taken_out(
        keys,
        values,
        key_data@,
        value_data@,
        slot as int,
        entry.key,
        partner.key,
    ));
    Some((entry.key, partner.key))
}

/// A pair has left the tables, and nothing else has changed of what they hold.
pub open spec fn removal<K, V, B>(
    keys_before: Seq<Bucket<K, B>>,
    values_before: Seq<Bucket<V, B>>,
    keys_after: Seq<Bucket<K, B>>,
    values_after: Seq<Bucket<V, B>>,
    key: K,
    value: V,
) -> bool {
    exists|i: int| #[trigger]
        taken_out(keys_before, values_before, keys_after, values_after, i, key, value)
}

/// The pair whose key is at `i` has left the tables, and nothing else has changed of what they hold.
pub open spec fn taken_out<K, V, B>(
    keys_before: Seq<Bucket<K, B>>,
    values_before: Seq<Bucket<V, B>>,
    keys_after: Seq<Bucket<K, B>>,
    values_after: Seq<Bucket<V, B>>,
    i: int,
    key: K,
    value: V,
) -> bool {
    let pair = keys_before[i].data->0.pair as int;
    &&& pair_at(keys_before, values_before, i, key, value)
    &&& keys_after.len() == keys_before.len()
    &&& keys_after[i].data is None
    &&& forall|other: int|
        0 <= other < keys_before.len() && other != i ==> (#[trigger] keys_after[other]).data
            == keys_before[other].data
    &&& values_after.len() == values_before.len()
    &&& values_after[pair].data is None
    &&& forall|other: int|
        0 <= other < values_before.len() && other != pair ==> (#[trigger] values_after[other]).data
            == values_before[other].data
}

/// `value` is the partner of the one key that matches the query.
pub open spec fn answers<K, V, Q: ?Sized, B>(
    keys: Seq<Bucket<K, B>>,
    values: Seq<Bucket<V, B>>,
    query: &Q,
    value: V,
) -> bool {
    exists|i: int, key: K| #[trigger]
        pair_at(keys, values, i, key, value) && crate::hashing::sole_match(key, query)
}

/// `value` is the partner of a key that is the same as `key`, as `same` has it.
pub open spec fn answers_by<K, V, B>(
    keys: Seq<Bucket<K, B>>,
    values: Seq<Bucket<V, B>>,
    key: K,
    same: spec_fn(K, K) -> bool,
    value: V,
) -> bool {
    exists|i: int, held: K| #[trigger]
        pair_at(keys, values, i, held, value) && same(held, key)
}

/// `value` is the partner of a key.
pub open spec fn is_partner<K, V, B>(
    keys: Seq<Bucket<K, B>>,
    values: Seq<Bucket<V, B>>,
    value: V,
) -> bool {
    exists|i: int, key: K| #[trigger] pair_at(keys, values, i, key, value)
}

/// The place `i` holds `key`, whose partner is `value`.
pub open spec fn pair_at<K, V, B>(
    keys: Seq<Bucket<K, B>>,
    values: Seq<Bucket<V, B>>,
    i: int,
    key: K,
    value: V,
) -> bool {
    holds(keys, i, key) && holds(values, keys[i].data->0.pair as int, value)
}

/// The key at `i`, if there is one, is on record at its bucket, and its partner points back at it.
pub open spec fn in_step_at<K, V, B: BitField>(
    keys: Seq<Bucket<K, B>>,
    values: Seq<Bucket<V, B>>,
    i: int,
) -> bool {
    keys[i].data is Some ==> {
        let pair = keys[i].data->0.pair as int;
        &&& crate::table::recorded_at(keys, i)
        &&& pair < values.len()
        &&& values[pair].data is Some
        &&& values[pair].data->0.pair == i
    }
}

/// Every key is on record at its bucket, and its partner points back at it.
pub open spec fn in_step<K, V, B: BitField>(
    keys: Seq<Bucket<K, B>>,
    values: Seq<Bucket<V, B>>,
) -> bool {
    forall|i: int| 0 <= i < keys.len() ==> #[trigger] in_step_at(keys, values, i)
}

/// The key at `i`, if there is one, hashes to no bucket but the one that it is filed under.
pub open spec fn hashed_at<K: Hash, H: BuildHasher, B>(
    table: Seq<Bucket<K, B>>,
    hasher: H,
    i: int,
) -> bool {
    table[i].data is Some ==> crate::hashing::one_home::<K, K, H>(
        hasher,
        &table[i].data->0.key,
        table.len() as int,
        table[i].data->0.ideal as int,
    )
}

/// Every key hashes to no bucket but the one that it is filed under.
pub open spec fn hashed<K: Hash, H: BuildHasher, B>(
    table: Seq<Bucket<K, B>>,
    hasher: H,
) -> bool {
    forall|i: int| 0 <= i < table.len() ==> #[trigger] hashed_at(table, hasher, i)
}

/// Checks the keys of one table: that each hashes to the bucket it is filed under, is on record
/// there, and has a partner that points back at it.
pub(crate) fn check_side<K, V, H, B>(
    key_data: &Vec<Bucket<K, B>>,
    value_data: &Vec<Bucket<V, B>>,
    key_hasher: &H,
) -> (ok: bool) where K: Hash + Eq, H: BuildHasher, B: BitField
    ensures
        ok ==> in_step(key_data@, value_data@),
        (crate::hashing::lawful::<K, H>() || crate::hashing::congruent::<K, H>(*key_hasher)) && ok
            ==> hashed(key_data@, *key_hasher),
        (crate::hashing::lawful::<K, H>() || crate::hashing::congruent::<K, H>(*key_hasher))
            && homed(key_data@, *key_hasher) ==> ok == in_step(key_data@, value_data@),
{
    let len: usize = key_data.len();
    let mut next: usize = 0;
    while next < len
        invariant
            len == key_data.len(),
            next <= len,
            forall|i: int| 0 <= i < next ==> #[trigger] in_step_at(key_data@, value_data@, i),
            crate::hashing::lawful::<K, H>() || crate::hashing::congruent::<K, H>(*key_hasher)
                ==> forall|i: int|
                0 <= i < next ==> #[trigger] hashed_at(key_data@, *key_hasher, i),
        decreases len - next,
    {
        if let Some(entry) = &key_data[next].data {
            let ideal: usize = find_query_index::<K, K, H>(&entry.key, key_hasher, len);
            proof {
                crate::hashing::lemma_key_matches_itself(entry.key, entry.key);
                if crate::hashing::congruent::<K, H>(*key_hasher) {
                    crate::hashing::lemma_one_home_of_equals(
                        *key_hasher,
                        entry.key,
                        len as int,
                        ideal as int,
                    );
                }
                if homed(key_data@, *key_hasher) {
                    assert(homed_at(key_data@, *key_hasher, next as int));
                }
                if in_step(key_data@, value_data@) {
                    assert(in_step_at(key_data@, value_data@, next as int));
                }
            }
            if ideal != entry.ideal {
                return false;
            }
            let offset: usize = offset_of(ideal, next, len);
            if offset >= B::size() || !key_data[ideal].neighbourhood.get(offset) {
                return false;
            }
            if entry.pair >= value_data.len() {
                return false;
            }
            match &value_data[entry.pair].data {
                Some(partner) => {
                    if partner.pair != next {
                        return false;
                    }
                },
                None => {
                    return false;
                },
            }
        }
        next = next + 1;
    }
    true
}

} // verus!
