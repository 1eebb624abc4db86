//! The relation that two tables of linked keys stand for.
use crate::bitfield::BitField;
use crate::bucket::{Bucket, Entry};
use crate::hashing::find_ideal_index;
use crate::table::{insert_one_sided, point, vacate};
use std::hash::{BuildHasher, Hash};
use vstd::prelude::*;

verus! {

/// The tables hold the keys `l` and `r` as a pair.
pub open spec fn related<L, R, B>(
    left: Seq<Bucket<L, B>>,
    right: Seq<Bucket<R, B>>,
    l: L,
    r: R,
) -> bool {
    exists|i: int| #[trigger] crate::lookup::pair_at(left, right, i, l, r)
}

/// The pairs of keys that two tables hold.
pub open spec fn table_pairs<L, R, B>(left: Seq<Bucket<L, B>>, right: Seq<Bucket<R, B>>) -> Set<
    (L, R),
> {
    Set::new(|pair: (L, R)| related(left, right, pair.0, pair.1))
}

/// Every key of either table has its partner in the other.
pub open spec fn paired<L, R, B>(left: Seq<Bucket<L, B>>, right: Seq<Bucket<R, B>>) -> bool {
    &&& left.len() == right.len() <= usize::MAX
    &&& crate::table::linked(left, right)
    &&& crate::table::linked(right, left)
    &&& forall|i: int| 0 <= i < left.len() ==> !#[trigger] crate::table::unpaired(left, i)
    &&& forall|j: int| 0 <= j < right.len() ==> !#[trigger] crate::table::unpaired(right, j)
}

/// The table does not hold the key.
pub open spec fn absent<K, B>(table: Seq<Bucket<K, B>>, key: K) -> bool {
    forall|i: int| !#[trigger] crate::lookup::holds(table, i, key)
}

/// The tables hold a pair from the one side as they do from the other.
pub proof fn lemma_flip<L, R, B>(left: Seq<Bucket<L, B>>, right: Seq<Bucket<R, B>>, l: L, r: R)
    requires
        left.len() == right.len() <= usize::MAX,
        crate::table::linked(left, right),
        crate::table::linked(right, left),
    ensures
        table_pairs(left, right).contains((l, r)) <==> table_pairs(right, left).contains((r, l)),
{
    if related(left, right, l, r) {
        let i = choose|i: int| #[trigger] crate::lookup::pair_at(left, right, i, l, r);
        assert(crate::table::linked_at(left, right, i));
        let j = left[i].data->0.pair as int;
        assert(crate::lookup::pair_at(right, left, j, r, l));
    }
    if related(right, left, r, l) {
        let j = choose|j: int| #[trigger] crate::lookup::pair_at(right, left, j, r, l);
        assert(crate::table::linked_at(right, left, j));
        let i = right[j].data->0.pair as int;
        assert(crate::lookup::pair_at(left, right, i, l, r));
    }
}

/// Tables that hold the same pairs from the one side hold the same pairs from the other.
proof fn lemma_flip_all<L, R, B>(
    left: Seq<Bucket<L, B>>,
    right: Seq<Bucket<R, B>>,
    left_after: Seq<Bucket<L, B>>,
    right_after: Seq<Bucket<R, B>>,
)
    requires
        left.len() == right.len() <= usize::MAX,
        crate::table::linked(left, right),
        crate::table::linked(right, left),
        left_after.len() == right_after.len() <= usize::MAX,
        crate::table::linked(left_after, right_after),
        crate::table::linked(right_after, left_after),
        table_pairs(right_after, left_after) == table_pairs(right, left),
    ensures
        table_pairs(left_after, right_after) == table_pairs(left, right),
{
    assert forall|pair: (L, R)| #[trigger] table_pairs(left_after, right_after).contains(pair)
        == table_pairs(left, right).contains(pair) by {
        lemma_flip(left, right, pair.0, pair.1);
        lemma_flip(left_after, right_after, pair.0, pair.1);
    }
}

/// A table holds a key exactly where a pair of it is held.
pub proof fn lemma_held<L, R, B>(left: Seq<Bucket<L, B>>, right: Seq<Bucket<R, B>>, i: int, l: L)
    requires
        paired(left, right),
        crate::lookup::holds(left, i, l),
    ensures
        ({
            let j = left[i].data->0.pair as int;
            &&& right[j].data is Some
            &&& table_pairs(left, right).contains((l, right[j].data->0.key))
        }),
{
    assert(crate::table::linked_at(left, right, i));
    assert(!crate::table::unpaired(left, i));
    let j = left[i].data->0.pair as int;
    assert(crate::lookup::pair_at(left, right, i, l, right[j].data->0.key));
}

/// Placing a key that has no partner yet changes no pair, and keeps keys distinct and well filed.
pub(crate) proof fn lemma_kept<K: Hash, V: Hash, KH: BuildHasher, VH: BuildHasher, B: BitField>(
    keys_before: Seq<Bucket<K, B>>,
    values_before: Seq<Bucket<V, B>>,
    keys_after: Seq<Bucket<K, B>>,
    values_after: Seq<Bucket<V, B>>,
    index: int,
    key_hasher: KH,
    value_hasher: VH,
)
    requires
        keys_before.len() == values_before.len() <= usize::MAX,
        0 <= index < keys_before.len(),
        crate::table::linked(keys_before, values_before),
        crate::table::linked(values_before, keys_before),
        forall|i: int|
            0 <= i < keys_before.len() ==> !#[trigger] crate::table::unpaired(keys_before, i),
        crate::table::linked(keys_after, values_after),
        crate::table::linked(values_after, keys_after),
        crate::table::unpaired(keys_after, index),
        crate::table::keys_kept(keys_before, values_before, keys_after, values_after, index),
    ensures
        table_pairs(keys_after, values_after) == table_pairs(keys_before, values_before),
        absent(keys_before, keys_after[index].data->0.key) && crate::lookup::distinct(keys_before)
            ==> crate::lookup::distinct(keys_after),
        crate::lookup::distinct(values_before) ==> crate::lookup::distinct(values_after),
        forall|same: spec_fn(K, K) -> bool|
            crate::lookup::absent_by(keys_before, keys_after[index].data->0.key, same)
                && crate::lookup::distinct_by(keys_before, same) ==> #[trigger]
                crate::lookup::distinct_by(keys_after, same),
        forall|same: spec_fn(V, V) -> bool|
            crate::lookup::distinct_by(values_before, same) ==> #[trigger]
                crate::lookup::distinct_by(values_after, same),
        forall|value: V, same: spec_fn(V, V) -> bool|
            crate::lookup::absent_by(values_before, value, same) ==> #[trigger]
                crate::lookup::absent_by(values_after, value, same),
        crate::table::side_wf(values_before) ==> crate::table::side_wf(values_after),
        crate::lookup::homed(keys_before, key_hasher) && crate::lookup::homed_at(
            keys_after,
            key_hasher,
            index,
        ) ==> crate::lookup::homed(keys_after, key_hasher),
        crate::lookup::homed(values_before, value_hasher) ==> crate::lookup::homed(
            values_after,
            value_hasher,
        ),
        forall|i: int|
            0 <= i < keys_after.len() && i != index ==> !#[trigger] crate::table::unpaired(
                keys_after,
                i,
            ),
        forall|j: int|
            0 <= j < values_after.len() ==> (#[trigger] crate::table::unpaired(values_after, j)
                <==> crate::table::unpaired(values_before, j)),
        crate::table::homes(values_after) == crate::table::homes(values_before),
        forall|value: V| absent(values_before, value) ==> #[trigger] absent(values_after, value),
{
    assert forall|i: int| 0 <= i < keys_after.len() && i != index implies !#[trigger] crate::table::unpaired(
        keys_after,
        i,
    ) by {
        assert(!crate::table::unpaired(keys_before, i));
    }
    lemma_kept_pairs(keys_before, values_before, keys_after, values_after, index);
    assert forall|i: int| 0 <= i < keys_after.len() && i != index implies #[trigger] came_from(
        keys_before,
        values_before,
        keys_after,
        i,
    ) by {
        lemma_came_from(keys_before, values_before, keys_after, values_after, index, i);
    }
    if absent(keys_before, keys_after[index].data->0.key) && crate::lookup::distinct(keys_before) {
        assert forall|i: int, j: int, key: K| #[trigger]
            crate::lookup::holds(keys_after, i, key) && #[trigger] crate::lookup::holds(
                keys_after,
                j,
                key,
            ) implies i == j by {
            if i != j {
                assert(crate::table::linked_at(keys_after, values_after, i));
                assert(crate::table::linked_at(keys_after, values_after, j));
                if i != index {
                    assert(came_from(keys_before, values_before, keys_after, i));
                    assert(crate::lookup::holds(
                        keys_before,
                        former(values_before, keys_after, i),
                        key,
                    ));
                }
                if j != index {
                    assert(!crate::table::unpaired(keys_after, j));
                    assert(came_from(keys_before, values_before, keys_after, j));
                    assert(crate::lookup::holds(
                        keys_before,
                        former(values_before, keys_after, j),
                        key,
                    ));
                }
            }
        }
    }
    assert forall|same: spec_fn(K, K) -> bool|
        crate::lookup::absent_by(keys_before, keys_after[index].data->0.key, same)
            && crate::lookup::distinct_by(keys_before, same) implies #[trigger]
        crate::lookup::distinct_by(keys_after, same) by {
        assert forall|i: int, j: int, a: K, b: K| #[trigger]
            crate::lookup::holds(keys_after, i, a) && #[trigger] crate::lookup::holds(
                keys_after,
                j,
                b,
            ) && same(a, b) implies i == j by {
            if i != j {
                assert(crate::table::linked_at(keys_after, values_after, i));
                assert(crate::table::linked_at(keys_after, values_after, j));
                if i != index {
                    assert(!crate::table::unpaired(keys_after, i));
                    assert(came_from(keys_before, values_before, keys_after, i));
                    assert(crate::lookup::holds(
                        keys_before,
                        former(values_before, keys_after, i),
                        a,
                    ));
                }
                if j != index {
                    assert(!crate::table::unpaired(keys_after, j));
                    assert(came_from(keys_before, values_before, keys_after, j));
                    assert(crate::lookup::holds(
                        keys_before,
                        former(values_before, keys_after, j),
                        b,
                    ));
                }
            }
        }
    }
    if crate::lookup::homed(keys_before, key_hasher) && crate::lookup::homed_at(
        keys_after,
        key_hasher,
        index,
    ) {
        assert forall|i: int| 0 <= i < keys_after.len() implies #[trigger] crate::lookup::homed_at(
            keys_after,
            key_hasher,
            i,
        ) by {
            if i != index && keys_after[i].data is Some {
                assert(came_from(keys_before, values_before, keys_after, i));
                assert(crate::lookup::homed_at(
                    keys_before,
                    key_hasher,
                    former(values_before, keys_after, i),
                ));
            }
        }
    }
    lemma_same_keys(values_before, values_after, value_hasher);
}

/// The place that a key had before it may have moved, as its partner tells.
spec fn former<K, V, B>(values_before: Seq<Bucket<V, B>>, keys_after: Seq<Bucket<K, B>>, i: int) -> int {
    values_before[keys_after[i].data->0.pair as int].data->0.pair as int
}

/// The key at `i`, if there is one, was held before, filed under the same bucket and with the same
/// partner.
spec fn came_from<K, V, B>(
    keys_before: Seq<Bucket<K, B>>,
    values_before: Seq<Bucket<V, B>>,
    keys_after: Seq<Bucket<K, B>>,
    i: int,
) -> bool {
    keys_after[i].data is Some ==> {
        let was = former(values_before, keys_after, i);
        &&& crate::lookup::holds(keys_before, was, keys_after[i].data->0.key)
        &&& keys_before[was].data->0.ideal == keys_after[i].data->0.ideal
        &&& keys_before[was].data->0.pair == keys_after[i].data->0.pair
    }
}

proof fn lemma_came_from<K, V, B>(
    keys_before: Seq<Bucket<K, B>>,
    values_before: Seq<Bucket<V, B>>,
    keys_after: Seq<Bucket<K, B>>,
    values_after: Seq<Bucket<V, B>>,
    index: int,
    i: int,
)
    requires
        keys_before.len() == values_before.len() <= usize::MAX,
        0 <= i < keys_before.len(),
        i != index,
        crate::table::linked(values_before, keys_before),
        crate::table::linked(keys_after, values_after),
        crate::table::linked(values_after, keys_after),
        !crate::table::unpaired(keys_after, i),
        crate::table::keys_kept(keys_before, values_before, keys_after, values_after, index),
    ensures
        came_from(keys_before, values_before, keys_after, i),
{
    if keys_after[i].data is Some {
        assert(crate::table::linked_at(keys_after, values_after, i));
        let j = keys_after[i].data->0.pair as int;
        assert(crate::table::unpaired(values_after, j) <==> crate::table::unpaired(
            values_before,
            j,
        ));
        assert(crate::table::linked_at(values_before, keys_before, j));
    }
}

proof fn lemma_kept_pairs<K, V, B>(
    keys_before: Seq<Bucket<K, B>>,
    values_before: Seq<Bucket<V, B>>,
    keys_after: Seq<Bucket<K, B>>,
    values_after: Seq<Bucket<V, B>>,
    index: int,
)
    requires
        keys_before.len() == values_before.len() <= usize::MAX,
        crate::table::linked(keys_before, values_before),
        crate::table::linked(values_before, keys_before),
        crate::table::linked(keys_after, values_after),
        crate::table::linked(values_after, keys_after),
        crate::table::keys_kept(keys_before, values_before, keys_after, values_after, index),
    ensures
        table_pairs(keys_after, values_after) == table_pairs(keys_before, values_before),
{
    assert forall|pair: (K, V)|
        table_pairs(keys_after, values_after).contains(pair) implies #[trigger] table_pairs(
        keys_before,
        values_before,
    ).contains(pair) by {
        let i = choose|i: int| #[trigger]
            crate::lookup::pair_at(keys_after, values_after, i, pair.0, pair.1);
        assert(crate::table::linked_at(keys_after, values_after, i));
        let j = keys_after[i].data->0.pair as int;
        assert(crate::table::unpaired(values_after, j) <==> crate::table::unpaired(
            values_before,
            j,
        ));
        assert(crate::table::linked_at(values_before, keys_before, j));
        let was = values_before[j].data->0.pair as int;
        assert(crate::lookup::pair_at(keys_before, values_before, was, pair.0, pair.1));
    }
    assert forall|pair: (K, V)|
        table_pairs(keys_before, values_before).contains(pair) implies #[trigger] table_pairs(
        keys_after,
        values_after,
    ).contains(pair) by {
        let was = choose|i: int| #[trigger]
            crate::lookup::pair_at(keys_before, values_before, i, pair.0, pair.1);
        assert(crate::table::linked_at(keys_before, values_before, was));
        let j = keys_before[was].data->0.pair as int;
        assert(crate::table::unpaired(values_after, j) <==> crate::table::unpaired(
            values_before,
            j,
        ));
        assert(crate::table::linked_at(values_after, keys_after, j));
        let i = values_after[j].data->0.pair as int;
        assert(crate::lookup::pair_at(keys_after, values_after, i, pair.0, pair.1));
    }
}

/// Keys that were held in the same places before are as distinct, and lack as much, as they did.
proof fn lemma_fewer_keys<K, B>(before: Seq<Bucket<K, B>>, after: Seq<Bucket<K, B>>)
    requires
        after.len() == before.len(),
        forall|i: int|
            0 <= i < before.len() && (#[trigger] after[i]).data is Some ==> before[i].data is Some
                && after[i].data->0.key == before[i].data->0.key,
    ensures
        forall|same: spec_fn(K, K) -> bool|
            crate::lookup::distinct_by(before, same) ==> #[trigger] crate::lookup::distinct_by(
                after,
                same,
            ),
        forall|key: K, same: spec_fn(K, K) -> bool|
            crate::lookup::absent_by(before, key, same) ==> #[trigger] crate::lookup::absent_by(
                after,
                key,
                same,
            ),
{
    assert forall|same: spec_fn(K, K) -> bool|
        crate::lookup::distinct_by(before, same) implies #[trigger] crate::lookup::distinct_by(
        after,
        same,
    ) by {
        assert forall|i: int, j: int, a: K, b: K| #[trigger]
            crate::lookup::holds(after, i, a) && #[trigger] crate::lookup::holds(after, j, b)
                && same(a, b) implies i == j by {
            assert(crate::lookup::holds(before, i, a));
            assert(crate::lookup::holds(before, j, b));
        }
    }
    assert forall|key: K, same: spec_fn(K, K) -> bool|
        crate::lookup::absent_by(before, key, same) implies #[trigger] crate::lookup::absent_by(
        after,
        key,
        same,
    ) by {
        assert forall|i: int, held: K| #[trigger]
            crate::lookup::holds(after, i, held) implies !same(held, key) && !same(key, held) by {
            assert(crate::lookup::holds(before, i, held));
        }
    }
}

/// Pointing keys elsewhere keeps them distinct, on record and well filed.
pub(crate) proof fn lemma_same_keys<V: Hash, VH: BuildHasher, B: BitField>(
    before: Seq<Bucket<V, B>>,
    after: Seq<Bucket<V, B>>,
    hasher: VH,
)
    requires
        crate::table::same_keys(before, after),
    ensures
        crate::lookup::distinct(before) ==> crate::lookup::distinct(after),
        forall|same: spec_fn(V, V) -> bool|
            crate::lookup::distinct_by(before, same) ==> #[trigger] crate::lookup::distinct_by(
                after,
                same,
            ),
        forall|key: V, same: spec_fn(V, V) -> bool|
            crate::lookup::absent_by(before, key, same) ==> #[trigger] crate::lookup::absent_by(
                after,
                key,
                same,
            ),
        crate::table::side_wf(before) ==> crate::table::side_wf(after),
        crate::lookup::homed(before, hasher) ==> crate::lookup::homed(after, hasher),
        crate::table::homes(after) == crate::table::homes(before),
        forall|key: V| absent(before, key) ==> #[trigger] absent(after, key),
{
    lemma_fewer_keys(before, after);
    assert forall|key: V| absent(before, key) implies #[trigger] absent(after, key) by {
        assert forall|i: int| !#[trigger] crate::lookup::holds(after, i, key) by {
            assert(!crate::lookup::holds(before, i, key));
        }
    }
    if crate::lookup::distinct(before) {
        assert forall|i: int, j: int, key: V| #[trigger]
            crate::lookup::holds(after, i, key) && #[trigger] crate::lookup::holds(
                after,
                j,
                key,
            ) implies i == j by {
            assert(crate::lookup::holds(before, i, key));
            assert(crate::lookup::holds(before, j, key));
        }
    }
    if crate::table::side_wf(before) {
        assert forall|i: int| 0 <= i < after.len() implies #[trigger] crate::table::recorded_at(
            after,
            i,
        ) by {
            assert(crate::table::recorded_at(before, i));
        }
        assert forall|h: int, o: int|
            0 <= h < after.len() && 0 <= o < B::width() implies #[trigger] crate::table::backed_at(
            after,
            h,
            o,
        ) by {
            assert(crate::table::backed_at(before, h, o));
        }
    }
    if crate::lookup::homed(before, hasher) {
        assert forall|i: int| 0 <= i < after.len() implies #[trigger] crate::lookup::homed_at(
            after,
            hasher,
            i,
        ) by {
            assert(crate::lookup::homed_at(before, hasher, i));
        }
    }
}

/// Two tables are fit to look keys up in: keys are on record, filed where they hash to, and paired.
pub(crate) open spec fn filed<L: Hash, R: Hash, LH: BuildHasher, RH: BuildHasher, B: BitField>(
    left: Seq<Bucket<L, B>>,
    right: Seq<Bucket<R, B>>,
    left_hasher: LH,
    right_hasher: RH,
) -> bool {
    &&& 0 < left.len()
    &&& paired(left, right)
    &&& crate::table::side_wf(left)
    &&& crate::table::side_wf(right)
    &&& crate::lookup::homed(left, left_hasher)
    &&& crate::lookup::homed(right, right_hasher)
}

/// The key may hash to a bucket from which it can be placed.
pub(crate) open spec fn fits<K: Hash, H: BuildHasher, B: BitField>(
    table: Seq<Bucket<K, B>>,
    hasher: H,
    key: K,
) -> bool {
    exists|home: int| #[trigger]
        crate::hashing::is_home(hasher, key, table.len() as int, home) && crate::layout::place(
            crate::table::homes(table),
            home,
            B::width() as int,
        ) is Some
}

/// The key may hash to a bucket from which it cannot be placed.
pub open spec fn crowded_out<K: Hash, H: BuildHasher, B: BitField>(
    table: Seq<Bucket<K, B>>,
    hasher: H,
    key: K,
) -> bool {
    exists|home: int| #[trigger]
        crate::hashing::is_home(hasher, key, table.len() as int, home) && crate::layout::place(
            crate::table::homes(table),
            home,
            B::width() as int,
        ) is None
}

/// The key may hash to a bucket in whose neighbourhood a place is free.
pub(crate) open spec fn has_gap<K: Hash, H: BuildHasher, B: BitField>(
    table: Seq<Bucket<K, B>>,
    hasher: H,
    key: K,
) -> bool {
    exists|home: int| #[trigger]
        crate::hashing::is_home(hasher, key, table.len() as int, home) && crate::layout::gap(
            crate::table::homes(table),
            home,
        ) < table.len() && crate::layout::gap(crate::table::homes(table), home) < B::width()
}

/// A key that has left its place leaves it free for itself.
pub(crate) proof fn lemma_vacated<K: Hash, H: BuildHasher, B: BitField>(
    before: Seq<Bucket<K, B>>,
    after: Seq<Bucket<K, B>>,
    i: int,
    key: K,
    hasher: H,
)
    requires
        crate::table::side_wf(before),
        crate::lookup::homed(before, hasher),
        crate::lookup::holds(before, i, key),
        after.len() == before.len(),
        after[i].data is None,
    ensures
        has_gap(after, hasher, key),
{
    let len = before.len() as int;
    let home = before[i].data->0.ideal as int;
    let offset = crate::ring::distance(home, i, len);
    let layout = crate::table::homes(after);
    assert(crate::table::recorded_at(before, i));
    assert(crate::lookup::homed_at(before, hasher, i));
    crate::layout::lemma_gap_from(layout, home, 0);
    if crate::layout::gap(layout, home) > offset {
        assert(layout[crate::ring::step(home, offset, len)] is Some);
    }
    assert(crate::hashing::is_home(hasher, key, len, home));
}

/// A pair that has been taken out leaves a free place for each of its keys.
pub(crate) proof fn lemma_vacated_pair<K: Hash, V: Hash, KH: BuildHasher, VH: BuildHasher, B: BitField>(
    keys: Seq<Bucket<K, B>>,
    values: Seq<Bucket<V, B>>,
    keys_after: Seq<Bucket<K, B>>,
    values_after: Seq<Bucket<V, B>>,
    key: K,
    value: V,
    key_hasher: KH,
    value_hasher: VH,
)
    requires
        filed(keys, values, key_hasher, value_hasher),
        crate::lookup::removal(keys, values, keys_after, values_after, key, value),
    ensures
        has_gap(keys_after, key_hasher, key),
        has_gap(values_after, value_hasher, value),
{
    let i = choose|i: int| #[trigger]
        crate::lookup::taken_out(keys, values, keys_after, values_after, i, key, value);
    lemma_vacated(keys, keys_after, i, key, key_hasher);
    lemma_vacated(values, values_after, keys[i].data->0.pair as int, value, value_hasher);
}

/// A key that hashes to one bucket only, with a free place in its neighbourhood, is not crowded out.
pub(crate) proof fn lemma_gap_suffices<K: Hash, H: BuildHasher, B: BitField>(
    table: Seq<Bucket<K, B>>,
    hasher: H,
    key: K,
)
    requires
        0 < table.len(),
        crate::table::side_wf(table),
        has_gap(table, hasher, key),
        crate::hashing::has_one_home::<K, K, H>(hasher, &key, table.len() as int),
    ensures
        !crowded_out(table, hasher, key),
{
    let len = table.len() as int;
    let layout = crate::table::homes(table);
    let index = choose|index: int| #[trigger]
        crate::hashing::one_home::<K, K, H>(hasher, &key, len, index);
    crate::hashing::lemma_key_matches_itself(key, key);
    crate::table::lemma_homes_in_range(table);
    assert forall|home: int| #[trigger]
        crate::hashing::is_home(hasher, key, len, home) implies crate::layout::place(
        layout,
        home,
        B::width() as int,
    ) is Some by {
        crate::hashing::lemma_home_in_range(hasher, key, len, home);
        assert(home == index);
        crate::layout::lemma_placed_nearby(layout, home, B::width() as int);
    }
}

/// Linking the two keys that have no partner makes them a pair.
proof fn lemma_link<L, R, B>(
    left: Seq<Bucket<L, B>>,
    right: Seq<Bucket<R, B>>,
    left_after: Seq<Bucket<L, B>>,
    right_after: Seq<Bucket<R, B>>,
    i: int,
    j: int,
)
    requires
        left.len() == right.len() <= usize::MAX,
        crate::table::linked(left, right),
        crate::table::linked(right, left),
        0 <= i < left.len(),
        0 <= j < right.len(),
        crate::table::unpaired(left, i),
        crate::table::unpaired(right, j),
        forall|k: int| 0 <= k < left.len() && k != i ==> !#[trigger] crate::table::unpaired(left, k),
        forall|k: int| 0 <= k < right.len() && k != j ==> !#[trigger] crate::table::unpaired(right, k),
        left_after == left.update(
            i,
            Bucket { data: Some(Entry { pair: j as usize, ..left[i].data->0 }), ..left[i] },
        ),
        right_after == right.update(
            j,
            Bucket { data: Some(Entry { pair: i as usize, ..right[j].data->0 }), ..right[j] },
        ),
    ensures
        paired(left_after, right_after),
        crate::table::same_keys(left, left_after),
        crate::table::same_keys(right, right_after),
        table_pairs(left_after, right_after) == table_pairs(left, right).insert(
            (left[i].data->0.key, right[j].data->0.key),
        ),
{
    assert forall|k: int| 0 <= k < left_after.len() implies #[trigger] crate::table::linked_at(
        left_after,
        right_after,
        k,
    ) by {
        assert(crate::table::linked_at(left, right, k));
    }
    assert forall|k: int| 0 <= k < right_after.len() implies #[trigger] crate::table::linked_at(
        right_after,
        left_after,
        k,
    ) by {
        assert(crate::table::linked_at(right, left, k));
    }
    assert forall|k: int| 0 <= k < left_after.len() implies !#[trigger] crate::table::unpaired(
        left_after,
        k,
    ) by {
        assert(k != i ==> !crate::table::unpaired(left, k));
    }
    assert forall|k: int| 0 <= k < right_after.len() implies !#[trigger] crate::table::unpaired(
        right_after,
        k,
    ) by {
        assert(k != j ==> !crate::table::unpaired(right, k));
    }
    let l = left[i].data->0.key;
    let r = right[j].data->0.key;
    assert(crate::lookup::pair_at(left_after, right_after, i, l, r));
    assert forall|pair: (L, R)| table_pairs(left_after, right_after).contains(pair) implies
        #[trigger] table_pairs(left, right).insert((l, r)).contains(pair) by {
        let k = choose|k: int| #[trigger]
            crate::lookup::pair_at(left_after, right_after, k, pair.0, pair.1);
        if k != i {
            assert(crate::lookup::pair_at(left, right, k, pair.0, pair.1));
        }
    }
    assert forall|pair: (L, R)| #[trigger]
        table_pairs(left, right).insert((l, r)).contains(pair) implies table_pairs(
        left_after,
        right_after,
    ).contains(pair) by {
        if pair != (l, r) {
            let k = choose|k: int| #[trigger] crate::lookup::pair_at(left, right, k, pair.0, pair.1);
            assert(crate::lookup::pair_at(left_after, right_after, k, pair.0, pair.1));
        }
    }
}

/// Taking out a key that has no partner leaves the pairs as they were.
proof fn lemma_dropped<K: Hash, V, KH: BuildHasher, B: BitField>(
    keys: Seq<Bucket<K, B>>,
    values: Seq<Bucket<V, B>>,
    keys_after: Seq<Bucket<K, B>>,
    index: int,
    key_hasher: KH,
)
    requires
        keys.len() == values.len() <= usize::MAX,
        crate::table::linked(keys, values),
        crate::table::linked(values, keys),
        0 <= index < keys.len(),
        crate::table::unpaired(keys, index),
        forall|k: int| 0 <= k < keys.len() && k != index ==> !#[trigger] crate::table::unpaired(keys, k),
        forall|k: int| 0 <= k < values.len() ==> !#[trigger] crate::table::unpaired(values, k),
        keys_after.len() == keys.len(),
        keys_after[index].data is None,
        forall|k: int|
            0 <= k < keys.len() && k != index ==> (#[trigger] keys_after[k]).data == keys[k].data,
    ensures
        paired(keys_after, values),
        table_pairs(keys_after, values) == table_pairs(keys, values),
        crate::lookup::distinct(keys) ==> crate::lookup::distinct(keys_after),
        forall|same: spec_fn(K, K) -> bool|
            crate::lookup::distinct_by(keys, same) ==> #[trigger] crate::lookup::distinct_by(
                keys_after,
                same,
            ),
        crate::lookup::homed(keys, key_hasher) ==> crate::lookup::homed(keys_after, key_hasher),
{
    lemma_fewer_keys(keys, keys_after);
    assert forall|k: int| 0 <= k < keys_after.len() implies #[trigger] crate::table::linked_at(
        keys_after,
        values,
        k,
    ) by {
        assert(crate::table::linked_at(keys, values, k));
    }
    assert forall|k: int| 0 <= k < values.len() implies #[trigger] crate::table::linked_at(
        values,
        keys_after,
        k,
    ) by {
        assert(crate::table::linked_at(values, keys, k));
    }
    assert forall|k: int| 0 <= k < keys_after.len() implies !#[trigger] crate::table::unpaired(
        keys_after,
        k,
    ) by {
        assert(k != index ==> !crate::table::unpaired(keys, k));
    }
    assert forall|pair: (K, V)| #[trigger] table_pairs(keys_after, values).contains(pair)
        == table_pairs(keys, values).contains(pair) by {
        if related(keys_after, values, pair.0, pair.1) {
            let k = choose|k: int| #[trigger]
                crate::lookup::pair_at(keys_after, values, k, pair.0, pair.1);
            assert(crate::lookup::pair_at(keys, values, k, pair.0, pair.1));
        }
        if related(keys, values, pair.0, pair.1) {
            let k = choose|k: int| #[trigger] crate::lookup::pair_at(keys, values, k, pair.0, pair.1);
            assert(crate::lookup::pair_at(keys_after, values, k, pair.0, pair.1));
        }
    }
    if crate::lookup::distinct(keys) {
        assert forall|i: int, j: int, key: K| #[trigger]
            crate::lookup::holds(keys_after, i, key) && #[trigger] crate::lookup::holds(
                keys_after,
                j,
                key,
            ) implies i == j by {
            assert(crate::lookup::holds(keys, i, key));
            assert(crate::lookup::holds(keys, j, key));
        }
    }
    if crate::lookup::homed(keys, key_hasher) {
        assert forall|k: int| 0 <= k < keys_after.len() implies #[trigger] crate::lookup::homed_at(
            keys_after,
            key_hasher,
            k,
        ) by {
            assert(crate::lookup::homed_at(keys, key_hasher, k));
        }
    }
}

/// Inserts two keys as a pair. If one of them cannot be placed both are handed back, and the tables
/// hold the pairs that they held before.
pub(crate) fn insert_pair<L, R, LH, RH, B>(
    left: L,
    right: R,
    left_data: &mut Vec<Bucket<L, B>>,
    right_data: &mut Vec<Bucket<R, B>>,
    left_hasher: &LH,
    right_hasher: &RH,
) -> (rejected: Option<(L, R)>) where
    L: Hash,
    R: Hash,
    LH: BuildHasher,
    RH: BuildHasher,
    B: BitField,

    requires
        filed(old(left_data)@, old(right_data)@, *left_hasher, *right_hasher),
    ensures
        filed(final(left_data)@, final(right_data)@, *left_hasher, *right_hasher),
        final(left_data).len() == old(left_data).len(),
        absent(old(left_data)@, left) && crate::lookup::distinct(old(left_data)@)
            ==> crate::lookup::distinct(final(left_data)@),
        absent(old(right_data)@, right) && crate::lookup::distinct(old(right_data)@)
            ==> crate::lookup::distinct(final(right_data)@),
        forall|same: spec_fn(L, L) -> bool|
            crate::lookup::absent_by(old(left_data)@, left, same) && crate::lookup::distinct_by(
                old(left_data)@,
                same,
            ) ==> #[trigger] crate::lookup::distinct_by(final(left_data)@, same),
        forall|same: spec_fn(R, R) -> bool|
            crate::lookup::absent_by(old(right_data)@, right, same) && crate::lookup::distinct_by(
                old(right_data)@,
                same,
            ) ==> #[trigger] crate::lookup::distinct_by(final(right_data)@, same),
        match rejected {
            None => {
                &&& table_pairs(final(left_data)@, final(right_data)@) == table_pairs(
                    old(left_data)@,
                    old(right_data)@,
                ).insert((left, right))
                &&& fits(old(left_data)@, *left_hasher, left)
                &&& fits(old(right_data)@, *right_hasher, right)
            },
            Some(pair) => {
                &&& pair == (left, right)
                &&& table_pairs(final(left_data)@, final(right_data)@) == table_pairs(
                    old(left_data)@,
                    old(right_data)@,
                )
                &&& crowded_out(old(left_data)@, *left_hasher, left) || crowded_out(
                    old(right_data)@,
                    *right_hasher,
                    right,
                )
            },
        },
{
    let ghost lefts = left_data@;
    let ghost rights = right_data@;
    let left_ideal: usize = find_ideal_index(&left, left_hasher, left_data.len());
    let right_ideal: usize = find_ideal_index(&right, right_hasher, right_data.len());
    match insert_one_sided(left, left_ideal, left_data, right_data) {
        Err(left) => Some((left, right)),
        Ok(left_index) => {
            let ghost lefts_one = left_data@;
            let ghost rights_one = right_data@;
            proof {
                lemma_kept(
                    lefts,
                    rights,
                    lefts_one,
                    rights_one,
                    left_index as int,
                    *left_hasher,
                    *right_hasher,
                );
            }
            match insert_one_sided(right, right_ideal, right_data, left_data) {
                Ok(right_index) => {
                    let ghost lefts_two = left_data@;
                    let ghost rights_two = right_data@;
                    proof {
                        assert(crate::lookup::homed_at(
                            rights_two,
                            *right_hasher,
                            right_index as int,
                        ));
                        lemma_kept(
                            rights_one,
                            lefts_one,
                            rights_two,
                            lefts_two,
                            right_index as int,
                            *right_hasher,
                            *left_hasher,
                        );
                        lemma_flip_all(lefts_one, rights_one, lefts_two, rights_two);
                    }
                    point(left_index, right_index, left_data);
                    point(right_index, left_index, right_data);
                    proof {
                        lemma_link(
                            lefts_two,
                            rights_two,
                            left_data@,
                            right_data@,
                            left_index as int,
                            right_index as int,
                        );
                        lemma_same_keys(lefts_two, left_data@, *left_hasher);
                        lemma_same_keys(rights_two, right_data@, *right_hasher);
                    }
                    None
                },
                Err(right) => {
                    let dropped = vacate(left_index, left_data);
                    proof {
                        lemma_dropped(
                            lefts_one,
                            rights_one,
                            left_data@,
                            left_index as int,
                            *left_hasher,
                        );
                    }
                    Some((dropped.key, right))
                },
            }
        },
    }
}

/// Taking out a pair leaves the others, still paired, distinct and well filed.
pub(crate) proof fn lemma_taken_out<K: Hash, V: Hash, KH: BuildHasher, VH: BuildHasher, B: BitField>(
    keys: Seq<Bucket<K, B>>,
    values: Seq<Bucket<V, B>>,
    keys_after: Seq<Bucket<K, B>>,
    values_after: Seq<Bucket<V, B>>,
    key: K,
    value: V,
    key_hasher: KH,
    value_hasher: VH,
)
    requires
        paired(keys, values),
        crate::lookup::removal(keys, values, keys_after, values_after, key, value),
    ensures
        paired(keys_after, values_after),
        table_pairs(keys, values).contains((key, value)),
        table_pairs(keys_after, values_after).subset_of(table_pairs(keys, values)),
        crate::lookup::distinct(keys) ==> table_pairs(keys_after, values_after) == table_pairs(
            keys,
            values,
        ).remove((key, value)),
        crate::lookup::distinct(keys) ==> crate::lookup::distinct(keys_after),
        crate::lookup::distinct(values) ==> crate::lookup::distinct(values_after),
        forall|same: spec_fn(K, K) -> bool|
            crate::lookup::distinct_by(keys, same) ==> #[trigger] crate::lookup::distinct_by(
                keys_after,
                same,
            ),
        forall|same: spec_fn(V, V) -> bool|
            crate::lookup::distinct_by(values, same) ==> #[trigger] crate::lookup::distinct_by(
                values_after,
                same,
            ),
        crate::lookup::homed(keys, key_hasher) ==> crate::lookup::homed(keys_after, key_hasher),
        crate::lookup::homed(values, value_hasher) ==> crate::lookup::homed(
            values_after,
            value_hasher,
        ),
{
    let index = choose|i: int| #[trigger]
        crate::lookup::taken_out(keys, values, keys_after, values_after, i, key, value);
    lemma_fewer_keys(keys, keys_after);
    lemma_fewer_keys(values, values_after);
    assert(crate::table::linked_at(keys, values, index));
    assert forall|k: int| 0 <= k < keys_after.len() implies #[trigger] crate::table::linked_at(
        keys_after,
        values_after,
        k,
    ) by {
        assert(crate::table::linked_at(keys, values, k));
    }
    assert forall|k: int| 0 <= k < values_after.len() implies #[trigger] crate::table::linked_at(
        values_after,
        keys_after,
        k,
    ) by {
        assert(crate::table::linked_at(values, keys, k));
    }
    assert forall|k: int| 0 <= k < keys_after.len() implies !#[trigger] crate::table::unpaired(
        keys_after,
        k,
    ) by {
        assert(!crate::table::unpaired(keys, k));
    }
    assert forall|k: int| 0 <= k < values_after.len() implies !#[trigger] crate::table::unpaired(
        values_after,
        k,
    ) by {
        assert(!crate::table::unpaired(values, k));
    }
    assert forall|other: (K, V)| #[trigger] table_pairs(keys_after, values_after).contains(
        other,
    ) implies table_pairs(keys, values).contains(other) by {
        let k = choose|k: int| #[trigger]
            crate::lookup::pair_at(keys_after, values_after, k, other.0, other.1);
        assert(crate::lookup::pair_at(keys, values, k, other.0, other.1));
    }
    if crate::lookup::distinct(keys) {
        let fewer = table_pairs(keys, values).remove((key, value));
        assert forall|other: (K, V)| #[trigger] table_pairs(keys_after, values_after).contains(other)
            == fewer.contains(other) by {
            if related(keys_after, values_after, other.0, other.1) {
                let k = choose|k: int| #[trigger]
                    crate::lookup::pair_at(keys_after, values_after, k, other.0, other.1);
                assert(crate::lookup::pair_at(keys, values, k, other.0, other.1));
            }
            if fewer.contains(other) {
                let k = choose|k: int| #[trigger]
                    crate::lookup::pair_at(keys, values, k, other.0, other.1);
                assert(crate::table::linked_at(keys, values, k));
                assert(crate::lookup::pair_at(keys_after, values_after, k, other.0, other.1));
            }
        }
        assert forall|i: int, j: int, k: K| #[trigger]
            crate::lookup::holds(keys_after, i, k) && #[trigger] crate::lookup::holds(
                keys_after,
                j,
                k,
            ) implies i == j by {
            assert(crate::lookup::holds(keys, i, k));
            assert(crate::lookup::holds(keys, j, k));
        }
    }
    if crate::lookup::distinct(values) {
        assert forall|i: int, j: int, v: V| #[trigger]
            crate::lookup::holds(values_after, i, v) && #[trigger] crate::lookup::holds(
                values_after,
                j,
                v,
            ) implies i == j by {
            assert(crate::lookup::holds(values, i, v));
            assert(crate::lookup::holds(values, j, v));
        }
    }
    if crate::lookup::homed(keys, key_hasher) {
        assert forall|k: int| 0 <= k < keys_after.len() implies #[trigger] crate::lookup::homed_at(
            keys_after,
            key_hasher,
            k,
        ) by {
            assert(crate::lookup::homed_at(keys, key_hasher, k));
        }
    }
    if crate::lookup::homed(values, value_hasher) {
        assert forall|k: int| 0 <= k < values_after.len() implies #[trigger] crate::lookup::homed_at(
            values_after,
            value_hasher,
            k,
        ) by {
            assert(crate::lookup::homed_at(values, value_hasher, k));
        }
    }
}

/// Empty tables hold no pair, and nothing in them is without its partner.
pub proof fn lemma_empty_table<K, V, B: BitField>(
    keys: Seq<Bucket<K, B>>,
    values: Seq<Bucket<V, B>>,
)
    requires
        forall|i: int| 0 <= i < keys.len() ==> (#[trigger] keys[i]).is_empty(),
    ensures
        crate::table::linked(keys, values),
        forall|i: int| 0 <= i < keys.len() ==> !#[trigger] crate::table::unpaired(keys, i),
        crate::lookup::distinct(keys),
        table_pairs(keys, values) == Set::<(K, V)>::empty(),
{
}

/// In an empty table every key is on record and well filed.
pub(crate) proof fn lemma_empty_side<K: Hash, H: BuildHasher, B: BitField>(
    keys: Seq<Bucket<K, B>>,
    hasher: H,
)
    requires
        forall|i: int| 0 <= i < keys.len() ==> (#[trigger] keys[i]).is_empty(),
    ensures
        crate::table::side_wf(keys),
        crate::lookup::homed(keys, hasher),
{
}

/// The pair whose key lies `offset` places behind `home`.
spec fn pair_behind<K, V, B>(
    keys: Seq<Bucket<K, B>>,
    values: Seq<Bucket<V, B>>,
    home: int,
    offset: int,
) -> (K, V) {
    let entry = keys[crate::ring::step(home, offset, keys.len() as int)].data->0;
    (entry.key, values[entry.pair as int].data->0.key)
}

/// The first free place behind a bucket is no further away than there are pairs.
proof fn lemma_gap_bounded<K, V, B>(keys: Seq<Bucket<K, B>>, values: Seq<Bucket<V, B>>, home: int)
    requires
        paired(keys, values),
        crate::lookup::distinct(keys),
        0 <= home < keys.len(),
        table_pairs(keys, values).finite(),
    ensures
        crate::layout::gap(crate::table::homes(keys), home) <= table_pairs(keys, values).len(),
{
    let layout = crate::table::homes(keys);
    let len = keys.len() as int;
    let free = crate::layout::gap(layout, home);
    crate::layout::lemma_gap_from(layout, home, 0);
    let offsets = vstd::set_lib::set_int_range(0, free);
    let pair = |offset: int| pair_behind(keys, values, home, offset);
    let found = offsets.map(pair);
    vstd::set_lib::lemma_int_range(0, free);
    assert forall|o: int| 0 <= o < free implies {
        &&& #[trigger] crate::lookup::holds(keys, crate::ring::step(home, o, len), pair(o).0)
        &&& table_pairs(keys, values).contains(pair(o))
    } by {
        let slot = crate::ring::step(home, o, len);
        assert(layout[slot] is Some);
        lemma_held(keys, values, slot, keys[slot].data->0.key);
    }
    assert(vstd::relations::injective_on(pair, offsets)) by {
        assert forall|o: int, p: int|
            offsets.contains(o) && offsets.contains(p) && #[trigger] pair(o) == #[trigger] pair(
                p,
            ) implies o == p by {
            assert(crate::lookup::holds(keys, crate::ring::step(home, o, len), pair(o).0));
            assert(crate::lookup::holds(keys, crate::ring::step(home, p, len), pair(p).0));
        }
    }
    vstd::set_lib::lemma_map_size(offsets, found, pair);
    assert(found.subset_of(table_pairs(keys, values))) by {
        assert forall|p: (K, V)| found.contains(p) implies table_pairs(keys, values).contains(p) by {
            let o = choose|o: int| offsets.contains(o) && pair(o) == p;
            assert(crate::lookup::holds(keys, crate::ring::step(home, o, len), pair(o).0));
        }
    }
    vstd::set_lib::lemma_len_subset(found, table_pairs(keys, values));
}

/// The pairs that two tables hold are as many from the one side as from the other.
pub(crate) proof fn lemma_flip_len<L, R, B>(left: Seq<Bucket<L, B>>, right: Seq<Bucket<R, B>>)
    requires
        paired(left, right),
        table_pairs(left, right).finite(),
    ensures
        table_pairs(right, left).finite(),
        table_pairs(right, left).len() == table_pairs(left, right).len(),
{
    let swap = |pair: (L, R)| (pair.1, pair.0);
    let pairs = table_pairs(left, right);
    let swapped = table_pairs(right, left);
    assert forall|pair: (R, L)| #[trigger] pairs.map(swap).contains(pair) == swapped.contains(pair) by {
        lemma_flip(left, right, pair.1, pair.0);
    }
    assert(pairs.map(swap) =~= swapped);
    vstd::set_lib::lemma_map_size(pairs, swapped, swap);
}

/// Where there are fewer pairs than a table and a neighbourhood have places, no key is crowded out.
pub(crate) proof fn lemma_room<L: Hash, R: Hash, LH: BuildHasher, RH: BuildHasher, B: BitField>(
    left: Seq<Bucket<L, B>>,
    right: Seq<Bucket<R, B>>,
    left_hasher: LH,
    right_hasher: RH,
    l: L,
    r: R,
)
    requires
        filed(left, right, left_hasher, right_hasher),
        crate::lookup::distinct(left),
        crate::lookup::distinct(right),
        table_pairs(left, right).finite(),
        table_pairs(left, right).len() < left.len(),
        table_pairs(left, right).len() < B::width(),
    ensures
        !crowded_out(left, left_hasher, l),
        !crowded_out(right, right_hasher, r),
{
    lemma_flip_len(left, right);
    crate::table::lemma_homes_in_range(left);
    crate::table::lemma_homes_in_range(right);
    assert forall|home: int| #[trigger]
        crate::hashing::is_home(
            left_hasher,
            l,
            left.len() as int,
            home,
        ) implies crate::layout::place(crate::table::homes(left), home, B::width() as int) is Some by {
        crate::hashing::lemma_home_in_range(left_hasher, l, left.len() as int, home);
        lemma_gap_bounded(left, right, home);
        crate::layout::lemma_placed_nearby(crate::table::homes(left), home, B::width() as int);
    }
    assert forall|home: int| #[trigger]
        crate::hashing::is_home(
            right_hasher,
            r,
            right.len() as int,
            home,
        ) implies crate::layout::place(crate::table::homes(right), home, B::width() as int) is Some by {
        crate::hashing::lemma_home_in_range(right_hasher, r, right.len() as int, home);
        lemma_gap_bounded(right, left, home);
        crate::layout::lemma_placed_nearby(crate::table::homes(right), home, B::width() as int);
    }
}

/// Where the keys of a table hash to buckets of their own, a further key that does so is not crowded
/// out while there are fewer pairs than places.
pub(crate) proof fn lemma_spread_out<K: Hash, V: Hash, KH: BuildHasher, VH: BuildHasher, B: BitField>(
    keys: Seq<Bucket<K, B>>,
    values: Seq<Bucket<V, B>>,
    key_hasher: KH,
    value_hasher: VH,
    key: K,
)
    requires
        filed(keys, values, key_hasher, value_hasher),
        crate::lookup::distinct(keys),
        table_pairs(keys, values).finite(),
        table_pairs(keys, values).len() < keys.len(),
        forall|i: int, j: int, a: K, b: K|
            #[trigger] crate::lookup::holds(keys, i, a) && #[trigger] crate::lookup::holds(
                keys,
                j,
                b,
            ) && i != j ==> crate::hashing::hashes_apart(key_hasher, a, b, keys.len() as int),
        forall|i: int, a: K| #[trigger]
            crate::lookup::holds(keys, i, a) ==> crate::hashing::hashes_apart(
                key_hasher,
                a,
                key,
                keys.len() as int,
            ),
    ensures
        !crowded_out(keys, key_hasher, key),
{
    let len = keys.len() as int;
    let layout = crate::table::homes(keys);
    let width = B::width() as int;
    B::lemma_width();
    crate::table::lemma_homes_in_range(keys);
    assert forall|i: int| 0 <= i < len && (#[trigger] layout[i]) is Some implies crate::ring::distance(
        layout[i]->0,
        i,
        len,
    ) < width by {
        assert(crate::table::recorded_at(keys, i));
    }
    assert forall|home: int| #[trigger]
        crate::hashing::is_home(key_hasher, key, len, home) implies crate::layout::place(
        layout,
        home,
        width,
    ) is Some by {
        crate::hashing::lemma_home_in_range(key_hasher, key, len, home);
        lemma_gap_bounded(keys, values, home);
        crate::layout::lemma_gap_from(layout, home, 0);
        let free = crate::ring::step(home, crate::layout::gap(layout, home), len);
        assert forall|i: int, j: int|
            0 <= i < layout.len() && 0 <= j < layout.len() && i != j && (#[trigger] layout[i])
                is Some implies (#[trigger] layout[j]) != layout[i] by {
            if layout[j] is Some {
                let a = keys[i].data->0.key;
                let b = keys[j].data->0.key;
                assert(crate::lookup::holds(keys, i, a));
                assert(crate::lookup::holds(keys, j, b));
                assert(crate::lookup::homed_at(keys, key_hasher, i));
                assert(crate::lookup::homed_at(keys, key_hasher, j));
                crate::hashing::lemma_homes_apart(
                    key_hasher,
                    a,
                    b,
                    len,
                    layout[i]->0,
                    layout[j]->0,
                );
            }
        }
        assert forall|i: int| 0 <= i < layout.len() implies (#[trigger] layout[i]) != Some(home) by {
            if layout[i] is Some {
                let a = keys[i].data->0.key;
                assert(crate::lookup::holds(keys, i, a));
                assert(crate::lookup::homed_at(keys, key_hasher, i));
                crate::hashing::lemma_homes_apart(key_hasher, a, key, len, layout[i]->0, home);
            }
        }
        crate::placement::law_different_homes_have_room(layout, home, width, free);
    }
}

} // verus!
