//! Hopscotch placement of keys in a table.
use crate::bitfield::BitField;
use crate::bucket::{Bucket, Entry};
use crate::ring::{offset_of, slot_at};
use vstd::prelude::*;

verus! {

/// The buckets that the keys of a table hash to, place by place.
pub open spec fn homes<K, B>(table: Seq<Bucket<K, B>>) -> Seq<Option<int>> {
    Seq::new(
        table.len(),
        |i: int|
            match table[i].data {
                Some(entry) => Some(entry.ideal as int),
                None => None,
            },
    )
}

/// The keys of a table with the buckets they hash to, place by place.
pub open spec fn contents<K, B>(table: Seq<Bucket<K, B>>) -> Seq<Option<(K, int)>> {
    Seq::new(
        table.len(),
        |i: int|
            match table[i].data {
                Some(entry) => Some((entry.key, entry.ideal as int)),
                None => None,
            },
    )
}

/// The key at `i`, if there is one, lies within the neighbourhood of the bucket it hashes to, which
/// has it on record.
pub open spec fn recorded_at<K, B: BitField>(table: Seq<Bucket<K, B>>, i: int) -> bool {
    table[i].data is Some ==> {
        let ideal = table[i].data->0.ideal as int;
        let offset = crate::ring::distance(ideal, i, table.len() as int);
        &&& ideal < table.len()
        &&& offset < B::width()
        &&& table[ideal].neighbourhood.bit(offset)
    }
}

/// Every key lies within the neighbourhood of the bucket it hashes to, which has it on record.
pub open spec fn recorded<K, B: BitField>(table: Seq<Bucket<K, B>>) -> bool {
    forall|i: int| 0 <= i < table.len() ==> #[trigger] recorded_at(table, i)
}

/// The record that `home` has of `offset`, if there is one, stands for a key that hashes to `home`.
pub open spec fn backed_at<K, B: BitField>(
    table: Seq<Bucket<K, B>>,
    home: int,
    offset: int,
) -> bool {
    table[home].neighbourhood.bit(offset) ==> {
        let slot = crate::ring::step(home, offset, table.len() as int);
        &&& offset < table.len()
        &&& table[slot].data is Some
        &&& table[slot].data->0.ideal == home
    }
}

/// Every record of a neighbourhood stands for a key that hashes to its bucket.
pub open spec fn backed<K, B: BitField>(table: Seq<Bucket<K, B>>) -> bool {
    forall|home: int, offset: int|
        0 <= home < table.len() && 0 <= offset < B::width() ==> #[trigger] backed_at(
            table,
            home,
            offset,
        )
}

/// Keys and neighbourhoods of one table agree.
pub open spec fn side_wf<K, B: BitField>(table: Seq<Bucket<K, B>>) -> bool {
    &&& recorded(table)
    &&& backed(table)
}

/// `after` is `before`, but for what the record of `home` says of `offset`.
pub open spec fn remarked<K, B: BitField>(
    before: Seq<Bucket<K, B>>,
    after: Seq<Bucket<K, B>>,
    home: int,
    offset: int,
    full: bool,
) -> bool {
    &&& after.len() == before.len()
    &&& forall|i: int| 0 <= i < before.len() && i != home ==> #[trigger] after[i] == before[i]
    &&& after[home].data == before[home].data
    &&& forall|o: int|
        0 <= o < B::width() ==> (#[trigger] after[home].neighbourhood.bit(o) <==> if o == offset {
            full
        } else {
            before[home].neighbourhood.bit(o)
        })
}

/// Notes in the neighbourhood of `ideal_index` that `actual_index` is taken.
pub fn mark_as_full<K, B: BitField>(
    ideal_index: usize,
    actual_index: usize,
    data: &mut Vec<Bucket<K, B>>,
)
    requires
        ideal_index < old(data).len(),
        actual_index < old(data).len(),
        crate::ring::distance(ideal_index as int, actual_index as int, old(data).len() as int)
            < B::width(),
    ensures
        remarked(
            old(data)@,
            final(data)@,
            ideal_index as int,
            crate::ring::distance(ideal_index as int, actual_index as int, old(data).len() as int),
            true,
        ),
{
    let offset: usize = offset_of(ideal_index, actual_index, data.len());
    data[ideal_index].neighbourhood = data[ideal_index].neighbourhood.or(B::one_at(offset));
}

/// Notes in the neighbourhood of `ideal_index` that `actual_index` is free.
pub fn mark_as_empty<K, B: BitField>(
    ideal_index: usize,
    actual_index: usize,
    data: &mut Vec<Bucket<K, B>>,
)
    requires
        ideal_index < old(data).len(),
        actual_index < old(data).len(),
        crate::ring::distance(ideal_index as int, actual_index as int, old(data).len() as int)
            < B::width(),
    ensures
        remarked(
            old(data)@,
            final(data)@,
            ideal_index as int,
            crate::ring::distance(ideal_index as int, actual_index as int, old(data).len() as int),
            false,
        ),
{
    let offset: usize = offset_of(ideal_index, actual_index, data.len());
    data[ideal_index].neighbourhood = data[ideal_index].neighbourhood.and(B::zero_at(offset));
}

/// The entry at `i`, if it points into the opposite table, is pointed back at.
pub open spec fn linked_at<K, V, B>(
    from: Seq<Bucket<K, B>>,
    to: Seq<Bucket<V, B>>,
    i: int,
) -> bool {
    from[i].data is Some && from[i].data->0.pair != usize::MAX ==> {
        let pair = from[i].data->0.pair as int;
        &&& pair < to.len()
        &&& to[pair].data is Some
        &&& to[pair].data->0.pair == i
    }
}

/// Entries that point into the opposite table are pointed back at.
pub open spec fn linked<K, V, B>(from: Seq<Bucket<K, B>>, to: Seq<Bucket<V, B>>) -> bool {
    forall|i: int| 0 <= i < from.len() ==> #[trigger] linked_at(from, to, i)
}

/// The place holds a key that has no partner.
pub open spec fn unpaired<K, B>(table: Seq<Bucket<K, B>>, place: int) -> bool {
    table[place].data is Some && table[place].data->0.pair == usize::MAX
}

/// `after` is `before`, but for where the partners of its keys are.
pub open spec fn same_keys<K, B>(before: Seq<Bucket<K, B>>, after: Seq<Bucket<K, B>>) -> bool {
    &&& after.len() == before.len()
    &&& forall|j: int|
        0 <= j < before.len() ==> {
            &&& (#[trigger] after[j]).neighbourhood == before[j].neighbourhood
            &&& after[j].data is Some <==> before[j].data is Some
            &&& after[j].data is Some ==> {
                &&& after[j].data->0.key == before[j].data->0.key
                &&& after[j].data->0.ideal == before[j].data->0.ideal
            }
        }
}

/// `after` is `before`, but for where the partners of those of its keys are that have one.
pub open spec fn repointed<V, B>(before: Seq<Bucket<V, B>>, after: Seq<Bucket<V, B>>) -> bool {
    &&& same_keys(before, after)
    &&& forall|j: int|
        0 <= j < before.len() ==> (#[trigger] unpaired(after, j) <==> unpaired(before, j))
}

/// The keys of a table after one was placed at `index`: keys with a partner keep it, wherever they
/// have gone, and keys without one stay where they were.
pub open spec fn keys_kept<K, V, B>(
    keys_before: Seq<Bucket<K, B>>,
    values_before: Seq<Bucket<V, B>>,
    keys_after: Seq<Bucket<K, B>>,
    values_after: Seq<Bucket<V, B>>,
    index: int,
) -> bool {
    &&& keys_after.len() == keys_before.len()
    &&& repointed(values_before, values_after)
    &&& forall|j: int|
        0 <= j < values_before.len() && (#[trigger] values_before[j]).data is Some
            && values_before[j].data->0.pair != usize::MAX ==> {
            let was = keys_before[values_before[j].data->0.pair as int].data->0;
            let is = keys_after[values_after[j].data->0.pair as int].data->0;
            &&& is.key == was.key
            &&& is.ideal == was.ideal
        }
    &&& !unpaired(keys_before, index)
    &&& forall|i: int|
        0 <= i < keys_before.len() && #[trigger] unpaired(keys_before, i) ==> keys_after[i].data
            == keys_before[i].data
    &&& forall|i: int|
        0 <= i < keys_before.len() && i != index && #[trigger] unpaired(keys_after, i)
            ==> keys_after[i].data == keys_before[i].data
}

/// Every key without a partner hashes to a bucket beyond the first free place behind `home`.
pub open spec fn out_of_reach<K, B>(table: Seq<Bucket<K, B>>, home: int) -> bool {
    forall|i: int|
        0 <= i < table.len() && #[trigger] unpaired(table, i) ==> crate::layout::gap(
            homes(table),
            home,
        ) < crate::ring::distance(home, table[i].data->0.ideal as int, table.len() as int)
}

/// Finds how far behind `ideal_index` the first free place is; the table's length if there is none.
fn nearest_empty<K, B: BitField>(ideal_index: usize, key_data: &Vec<Bucket<K, B>>) -> (offset: usize)
    requires
        ideal_index < key_data.len(),
    ensures
        offset == crate::layout::gap(homes(key_data@), ideal_index as int),
        offset <= key_data.len(),
{
    let len: usize = key_data.len();
    let mut offset: usize = 0;
    while offset < len && key_data[slot_at(ideal_index, offset, len)].data.is_some()
        invariant
            len == key_data.len(),
            ideal_index < len,
            offset <= len,
            forall|o: int|
                0 <= o < offset ==> (#[trigger] homes(key_data@)[crate::ring::step(
                    ideal_index as int,
                    o,
                    len as int,
                )]) is Some,
        decreases len - offset,
    {
        offset = offset + 1;
    }
    proof {
        crate::layout::lemma_gap_unique(homes(key_data@), ideal_index as int, offset as int);
    }
    offset
}

/// Finds the last place in the neighbourhood of `ideal_index` whose key can move further on.
fn furthest_movable<K, B: BitField>(ideal_index: usize, key_data: &Vec<Bucket<K, B>>) -> (slot: Option<
    usize,
>)
    requires
        ideal_index < key_data.len(),
        B::width() <= crate::layout::gap(homes(key_data@), ideal_index as int) < key_data.len(),
        recorded(key_data@),
    ensures
        match (
            slot,
            crate::layout::last_movable(
                homes(key_data@),
                ideal_index as int,
                B::width() as int,
                B::width() - 1,
            ),
        ) {
            (Some(slot), Some(offset)) => slot == crate::ring::step(
                ideal_index as int,
                offset,
                key_data.len() as int,
            ),
            (None, None) => true,
            _ => false,
        },
{
    let len: usize = key_data.len();
    let size: usize = B::size();
    let ghost layout = homes(key_data@);
    proof {
        B::lemma_width();
        crate::layout::lemma_gap_from(layout, ideal_index as int, 0);
    }
    let mut offset: usize = size - 1;
    while offset > 0
        invariant
            len == key_data.len(),
            size == B::width(),
            offset < size <= crate::layout::gap(layout, ideal_index as int) < len,
            ideal_index < len,
            layout == homes(key_data@),
            recorded(key_data@),
            crate::layout::last_movable(layout, ideal_index as int, size as int, size - 1)
                == crate::layout::last_movable(
                layout,
                ideal_index as int,
                size as int,
                offset as int,
            ),
        decreases offset,
    {
        let slot: usize = slot_at(ideal_index, offset, len);
        assert(recorded_at(key_data@, slot as int));
        if let Some(entry) = &key_data[slot].data {
            let ahead: usize = offset_of(ideal_index, entry.ideal, len);
            if 0 < ahead && ahead < size {
                return Some(slot);
            }
        }
        offset = offset - 1;
    }
    None
}

/// `after` is `before`, but for the data of `index` and the neighbourhood of `home`.
pub open spec fn touched<K, B>(
    before: Seq<Bucket<K, B>>,
    after: Seq<Bucket<K, B>>,
    index: int,
    home: int,
) -> bool {
    &&& after.len() == before.len()
    &&& forall|i: int| 0 <= i < before.len() && i != index ==> (#[trigger] after[i]).data == before[i].data
    &&& forall|i: int|
        0 <= i < before.len() && i != home ==> (#[trigger] after[i]).neighbourhood
            == before[i].neighbourhood
}

/// `after` is `before`, but that `entry` is at `index` and on record at its home.
pub open spec fn settled<K, B: BitField>(
    before: Seq<Bucket<K, B>>,
    after: Seq<Bucket<K, B>>,
    entry: Entry<K>,
    index: int,
) -> bool {
    let home = entry.ideal as int;
    &&& touched(before, after, index, home)
    &&& after[index].data == Some(entry)
    &&& forall|o: int|
        0 <= o < B::width() ==> (#[trigger] after[home].neighbourhood.bit(o) <==> o
            == crate::ring::distance(home, index, before.len() as int)
            || before[home].neighbourhood.bit(o))
}

/// Puts an entry into a free place.
pub fn settle<K, B: BitField>(entry: Entry<K>, index: usize, data: &mut Vec<Bucket<K, B>>)
    requires
        index < old(data).len(),
        entry.ideal < old(data).len(),
        crate::ring::distance(entry.ideal as int, index as int, old(data).len() as int) < B::width(),
        old(data)[index as int].data is None,
        side_wf(old(data)@),
    ensures
        settled(old(data)@, final(data)@, entry, index as int),
        side_wf(final(data)@),
{
    let ghost before = data@;
    mark_as_full(entry.ideal, index, data);
    data[index].data = Some(entry);
    proof {
        let after = data@;
        assert forall|i: int| 0 <= i < after.len() implies #[trigger] recorded_at(after, i) by {
            assert(recorded_at(before, i));
        }
        assert forall|h: int, o: int|
            0 <= h < after.len() && 0 <= o < B::width() implies #[trigger] backed_at(after, h, o) by {
            assert(backed_at(before, h, o));
        }
    }
}

/// Looks up which bucket the key in a place hashes to.
fn home_of<K, B: BitField>(index: usize, data: &Vec<Bucket<K, B>>) -> (home: usize)
    requires
        index < data.len(),
        data[index as int].data is Some,
    ensures
        home == data[index as int].data->0.ideal,
{
    match &data[index].data {
        Some(entry) => entry.ideal,
        None => index,
    }
}

/// Takes the entry out of a place.
pub fn vacate<K, B: BitField>(index: usize, data: &mut Vec<Bucket<K, B>>) -> (entry: Entry<K>)
    requires
        index < old(data).len(),
        old(data)[index as int].data is Some,
        side_wf(old(data)@),
    ensures
        old(data)[index as int].data == Some(entry),
        touched(old(data)@, final(data)@, index as int, entry.ideal as int),
        final(data)[index as int].data is None,
        side_wf(final(data)@),
{
    let ghost before = data@;
    assert(recorded_at(before, index as int));
    let entry = data[index].data.take().unwrap();
    mark_as_empty(entry.ideal, index, data);
    proof {
        let after = data@;
        assert forall|i: int| 0 <= i < after.len() implies #[trigger] recorded_at(after, i) by {
            assert(recorded_at(before, i));
        }
        assert forall|h: int, o: int|
            0 <= h < after.len() && 0 <= o < B::width() implies #[trigger] backed_at(after, h, o) by {
            assert(backed_at(before, h, o));
        }
    }
    entry
}

/// Points the entry at `index` to its partner.
pub fn point<K, B: BitField>(index: usize, pair: usize, data: &mut Vec<Bucket<K, B>>)
    requires
        index < old(data).len(),
        old(data)[index as int].data is Some,
    ensures
        final(data)@ == old(data)@.update(
            index as int,
            Bucket {
                data: Some(Entry { pair, ..old(data)[index as int].data->0 }),
                ..old(data)[index as int]
            },
        ),
{
    if let Some(entry) = &mut data[index].data {
        entry.pair = pair;
    }
}

/// Inserts a key, which hashes to the bucket `ideal_index`, into `key_data`.
///
/// The key goes where `layout::place` says. Nothing else moves if the first free place is in its
/// neighbourhood; otherwise keys in its way move on as `layout::arranged` says, and `value_data` is
/// told where their partners have gone. The key itself has no partner yet: that is for the caller to
/// set. If there is no place for the key it is handed back, and nothing has changed.
pub fn insert_one_sided<K, V, B: BitField>(
    key: K,
    ideal_index: usize,
    key_data: &mut Vec<Bucket<K, B>>,
    value_data: &mut Vec<Bucket<V, B>>,
) -> (result: Result<usize, K>)
    requires
        ideal_index < old(key_data).len(),
        side_wf(old(key_data)@),
        linked(old(key_data)@, old(value_data)@),
        linked(old(value_data)@, old(key_data)@),
        crate::layout::gap(homes(old(key_data)@), ideal_index as int) < B::width() || out_of_reach(
            old(key_data)@,
            ideal_index as int,
        ),
    ensures
        match result {
            Ok(index) => {
                &&& index < final(key_data).len()
                &&& crate::layout::place(
                    homes(old(key_data)@),
                    ideal_index as int,
                    B::width() as int,
                ) == Some((homes(final(key_data)@), index as int))
                &&& contents(final(key_data)@) == crate::layout::arranged(
                    contents(old(key_data)@),
                    key,
                    ideal_index as int,
                    B::width() as int,
                )
                &&& final(key_data)[index as int].data == Some(
                    Entry { key, pair: usize::MAX, ideal: ideal_index },
                )
                &&& side_wf(final(key_data)@)
                &&& linked(final(key_data)@, final(value_data)@)
                &&& linked(final(value_data)@, final(key_data)@)
                &&& keys_kept(
                    old(key_data)@,
                    old(value_data)@,
                    final(key_data)@,
                    final(value_data)@,
                    index as int,
                )
                &&& crate::layout::gap(homes(old(key_data)@), ideal_index as int) < B::width() ==> {
                    &&& settled(
                        old(key_data)@,
                        final(key_data)@,
                        Entry { key, pair: usize::MAX, ideal: ideal_index },
                        index as int,
                    )
                    &&& final(value_data)@ == old(value_data)@
                }
            },
            Err(rejected) => {
                &&& crate::layout::place(
                    homes(old(key_data)@),
                    ideal_index as int,
                    B::width() as int,
                ) is None
                &&& rejected == key
                &&& final(key_data)@ == old(key_data)@
                &&& final(value_data)@ == old(value_data)@
            },
        },
    decreases crate::layout::gap(homes(old(key_data)@), ideal_index as int),
{
    let len: usize = key_data.len();
    let ghost keys = key_data@;
    let ghost values = value_data@;
    assert(values.len() == value_data.len());
    let ghost layout = homes(keys);
    let ghost home = ideal_index as int;
    let ghost width = B::width() as int;
    proof {
        B::lemma_width();
        lemma_homes_in_range(keys);
        assert(crate::layout::homes_of(contents(keys)) =~= layout);
        crate::layout::lemma_gap_from(layout, home, 0);
        crate::layout::lemma_last_movable(layout, home, width, width - 1);
    }
    if key_data[ideal_index].neighbourhood.full() {
        proof {
            lemma_full_neighbourhood(keys, home);
        }
        return Err(key);
    }
    let offset: usize = nearest_empty(ideal_index, key_data);
    if offset >= len {
        return Err(key);
    }
    if offset < B::size() {
        let index: usize = slot_at(ideal_index, offset, len);
        settle(Entry { key, pair: usize::MAX, ideal: ideal_index }, index, key_data);
        proof {
            assert(homes(key_data@) =~= layout.update(index as int, Some(home)));
            assert(contents(key_data@) =~= contents(keys).update(index as int, Some((key, home))));
            lemma_settled(keys, values, key_data@, index as int);
        }
        return Ok(index);
    }
    match furthest_movable(ideal_index, key_data) {
        None => Err(key),
        Some(index) => {
            let home_record = key_data[ideal_index].neighbourhood;
            let displaced_home: usize = home_of(index, key_data);
            let displaced_record = key_data[displaced_home].neighbourhood;
            let displaced = vacate(index, key_data);
            let displaced_key = displaced.key;
            let partner: usize = displaced.pair;
            settle(Entry { key, pair: usize::MAX, ideal: ideal_index }, index, key_data);
            proof {
                assert(!unpaired(keys, index as int));
                assert(linked_at(keys, values, index as int));
            }
            point(partner, usize::MAX, value_data);
            let ghost keys_open = key_data@;
            let ghost values_open = value_data@;
            proof {
                lemma_displaced(keys, values, keys_open, values_open, index as int, home);
                assert(contents(keys_open) =~= contents(keys).update(
                    index as int,
                    Some((key, home)),
                ));
            }
            match insert_one_sided(displaced_key, displaced_home, key_data, value_data) {
                Ok(new_index) => {
                    let ghost keys_moved = key_data@;
                    let ghost values_moved = value_data@;
                    point(new_index, partner, key_data);
                    point(partner, new_index, value_data);
                    proof {
                        lemma_relinked(
                            keys,
                            values,
                            keys_open,
                            values_open,
                            keys_moved,
                            values_moved,
                            key_data@,
                            value_data@,
                            index as int,
                            new_index as int,
                        );
                        assert(contents(key_data@) =~= contents(keys_moved));
                        crate::layout::lemma_arranged_anew(
                            contents(keys),
                            key,
                            home,
                            width,
                            index as int,
                        );
                    }
                    Ok(index)
                },
                Err(displaced_key) => {
                    let rejected = key_data[index].data.take().unwrap();
                    key_data[index].data = Some(
                        Entry { key: displaced_key, pair: partner, ideal: displaced_home },
                    );
                    key_data[displaced_home].neighbourhood = displaced_record;
                    key_data[ideal_index].neighbourhood = home_record;
                    point(partner, index, value_data);
                    assert(key_data@ =~= keys);
                    assert(value_data@ =~= values);
                    Err(rejected.key)
                },
            }
        },
    }
}

/// The homes of a table whose keys are all on record are places of that table.
pub proof fn lemma_homes_in_range<K, B: BitField>(table: Seq<Bucket<K, B>>)
    requires
        recorded(table),
    ensures
        crate::layout::in_range(homes(table)),
{
    assert forall|i: int| 0 <= i < table.len() && (#[trigger] homes(table)[i]) is Some implies 0
        <= homes(table)[i]->0 < table.len() by {
        assert(recorded_at(table, i));
    }
}

/// Two tables hold the same entries in the same places, and have the same neighbourhoods.
pub open spec fn alike<K, B: BitField>(one: Seq<Bucket<K, B>>, other: Seq<Bucket<K, B>>) -> bool {
    &&& one.len() == other.len()
    &&& forall|i: int| 0 <= i < one.len() ==> (#[trigger] one[i]).data == other[i].data
    &&& forall|h: int, o: int|
        0 <= h < one.len() && 0 <= o < B::width() ==> (#[trigger] one[h].neighbourhood.bit(o)
            <==> other[h].neighbourhood.bit(o))
}

/// The entries of a table tell what its neighbourhoods are.
pub proof fn lemma_alike<K, B: BitField>(one: Seq<Bucket<K, B>>, other: Seq<Bucket<K, B>>)
    requires
        side_wf(one),
        side_wf(other),
        one.len() == other.len(),
        forall|i: int| 0 <= i < one.len() ==> (#[trigger] one[i]).data == other[i].data,
    ensures
        alike(one, other),
{
    assert forall|h: int, o: int|
        0 <= h < one.len() && 0 <= o < B::width() implies (#[trigger] one[h].neighbourhood.bit(o)
        <==> other[h].neighbourhood.bit(o)) by {
        let slot = crate::ring::step(h, o, one.len() as int);
        assert(backed_at(one, h, o));
        assert(backed_at(other, h, o));
        if one[h].neighbourhood.bit(o) {
            assert(one[slot].data == other[slot].data);
            assert(recorded_at(other, slot));
        }
        if other[h].neighbourhood.bit(o) {
            assert(one[slot].data == other[slot].data);
            assert(recorded_at(one, slot));
        }
    }
}

/// A key put into a free place leaves every other key as it was.
proof fn lemma_settled<K, V, B: BitField>(
    keys: Seq<Bucket<K, B>>,
    values: Seq<Bucket<V, B>>,
    keys_after: Seq<Bucket<K, B>>,
    index: int,
)
    requires
        linked(keys, values),
        linked(values, keys),
        0 <= index < keys.len(),
        keys[index].data is None,
        keys_after.len() == keys.len(),
        forall|i: int|
            0 <= i < keys.len() && i != index ==> (#[trigger] keys_after[i]).data == keys[i].data,
        unpaired(keys_after, index),
    ensures
        linked(keys_after, values),
        linked(values, keys_after),
        keys_kept(keys, values, keys_after, values, index),
{
    assert forall|i: int| 0 <= i < keys_after.len() implies #[trigger] linked_at(
        keys_after,
        values,
        i,
    ) by {
        assert(linked_at(keys, values, i));
    }
    assert forall|j: int| 0 <= j < values.len() implies #[trigger] linked_at(
        values,
        keys_after,
        j,
    ) by {
        assert(linked_at(values, keys, j));
    }
    assert forall|j: int|
        0 <= j < values.len() && (#[trigger] values[j]).data is Some && values[j].data->0.pair
            != usize::MAX implies keys_after[values[j].data->0.pair as int].data
        == keys[values[j].data->0.pair as int].data by {
        assert(linked_at(values, keys, j));
    }
    assert forall|i: int| 0 <= i < keys.len() && #[trigger] unpaired(
        keys,
        i,
    ) implies keys_after[i].data == keys[i].data by {
        assert(i != index);
    }
}

/// A displaced key that has been inserted again and linked with its partner is kept, and so is every
/// other key.
proof fn lemma_relinked<K, V, B: BitField>(
    keys: Seq<Bucket<K, B>>,
    values: Seq<Bucket<V, B>>,
    keys_open: Seq<Bucket<K, B>>,
    values_open: Seq<Bucket<V, B>>,
    keys_moved: Seq<Bucket<K, B>>,
    values_moved: Seq<Bucket<V, B>>,
    keys_after: Seq<Bucket<K, B>>,
    values_after: Seq<Bucket<V, B>>,
    index: int,
    new_index: int,
)
    requires
        linked(keys, values),
        linked(values, keys),
        0 <= index < keys.len(),
        0 <= new_index < keys.len(),
        keys[index].data is Some,
        !unpaired(keys, index),
        keys_open.len() == keys.len(),
        forall|i: int|
            0 <= i < keys.len() && i != index ==> (#[trigger] keys_open[i]).data == keys[i].data,
        unpaired(keys_open, index),
        ({
            let partner = keys[index].data->0.pair as int;
            &&& values_open == values.update(
                partner,
                Bucket {
                    data: Some(Entry { pair: usize::MAX, ..values[partner].data->0 }),
                    ..values[partner]
                },
            )
            &&& keys_after == keys_moved.update(
                new_index,
                Bucket {
                    data: Some(
                        Entry { pair: partner as usize, ..keys_moved[new_index].data->0 },
                    ),
                    ..keys_moved[new_index]
                },
            )
            &&& values_after == values_moved.update(
                partner,
                Bucket {
                    data: Some(
                        Entry { pair: new_index as usize, ..values_moved[partner].data->0 },
                    ),
                    ..values_moved[partner]
                },
            )
        }),
        keys_moved[new_index].data == Some(
            Entry {
                key: keys[index].data->0.key,
                pair: usize::MAX,
                ideal: keys[index].data->0.ideal,
            },
        ),
        keys.len() <= usize::MAX,
        values.len() <= usize::MAX,
        side_wf(keys_moved),
        linked(keys_moved, values_moved),
        linked(values_moved, keys_moved),
        keys_kept(keys_open, values_open, keys_moved, values_moved, new_index),
    ensures
        index != new_index,
        keys_after[index].data == keys_open[index].data,
        homes(keys_after) == homes(keys_moved),
        side_wf(keys_after),
        linked(keys_after, values_after),
        linked(values_after, keys_after),
        keys_kept(keys, values, keys_after, values_after, index),
{
    let partner = keys[index].data->0.pair as int;
    assert(linked_at(keys, values, index));
    assert(!unpaired(keys_open, new_index));
    assert(unpaired(keys_moved, index));
    assert(unpaired(keys_moved, new_index));
    assert(unpaired(values_open, partner));
    assert(unpaired(values_moved, partner));
    assert(homes(keys_after) =~= homes(keys_moved));
    assert forall|i: int| 0 <= i < keys_after.len() implies #[trigger] recorded_at(keys_after, i) by {
        assert(recorded_at(keys_moved, i));
    }
    assert forall|h: int, o: int|
        0 <= h < keys_after.len() && 0 <= o < B::width() implies #[trigger] backed_at(
        keys_after,
        h,
        o,
    ) by {
        assert(backed_at(keys_moved, h, o));
    }
    assert forall|i: int| 0 <= i < keys_after.len() implies #[trigger] linked_at(
        keys_after,
        values_after,
        i,
    ) by {
        assert(linked_at(keys_moved, values_moved, i));
    }
    assert forall|j: int| 0 <= j < values_after.len() implies #[trigger] linked_at(
        values_after,
        keys_after,
        j,
    ) by {
        assert(linked_at(values_moved, keys_moved, j));
    }
    assert forall|j: int|
        0 <= j < values.len() && (#[trigger] values[j]).data is Some && values[j].data->0.pair
            != usize::MAX implies {
        let was = keys[values[j].data->0.pair as int].data->0;
        let is = keys_after[values_after[j].data->0.pair as int].data->0;
        &&& is.key == was.key
        &&& is.ideal == was.ideal
    } by {
        assert(linked_at(values, keys, j));
        if j != partner {
            assert(values_open[j] == values[j]);
            assert(unpaired(values_moved, j) <==> unpaired(values_open, j));
            assert(linked_at(values_moved, keys_moved, j));
        }
    }
    assert forall|j: int| 0 <= j < values.len() implies {
        &&& (#[trigger] values_after[j]).neighbourhood == values[j].neighbourhood
        &&& values_after[j].data is Some <==> values[j].data is Some
        &&& values_after[j].data is Some ==> {
            &&& values_after[j].data->0.key == values[j].data->0.key
            &&& values_after[j].data->0.ideal == values[j].data->0.ideal
        }
    } by {
        assert(values_moved[j].neighbourhood == values_open[j].neighbourhood);
    }
    assert forall|j: int| 0 <= j < values.len() implies (#[trigger] unpaired(values_after, j)
        <==> unpaired(values, j)) by {
        assert(unpaired(values_moved, j) <==> unpaired(values_open, j));
    }
    assert forall|i: int| 0 <= i < keys.len() && #[trigger] unpaired(
        keys,
        i,
    ) implies keys_after[i].data == keys[i].data by {
        assert(unpaired(keys_open, i));
    }
    assert forall|i: int|
        0 <= i < keys.len() && i != index && #[trigger] unpaired(keys_after, i) implies keys_after[i].data
        == keys[i].data by {
        assert(unpaired(keys_moved, i));
    }
}

/// A key that has taken over the place of a movable one leaves the tables fit for the moved key to
/// be inserted again.
proof fn lemma_displaced<K, V, B: BitField>(
    keys: Seq<Bucket<K, B>>,
    values: Seq<Bucket<V, B>>,
    keys_open: Seq<Bucket<K, B>>,
    values_open: Seq<Bucket<V, B>>,
    index: int,
    home: int,
)
    requires
        side_wf(keys),
        linked(keys, values),
        linked(values, keys),
        out_of_reach(keys, home),
        0 <= home < keys.len(),
        0 <= index < keys.len(),
        keys[index].data is Some,
        ({
            let offset = crate::ring::distance(home, index, keys.len() as int);
            &&& 0 < offset < B::width() <= crate::layout::gap(homes(keys), home) < keys.len()
            &&& crate::layout::movable(homes(keys), home, B::width() as int, offset)
        }),
        keys_open.len() == keys.len(),
        forall|i: int|
            0 <= i < keys.len() && i != index ==> (#[trigger] keys_open[i]).data == keys[i].data,
        unpaired(keys_open, index),
        keys_open[index].data->0.ideal == home,
        ({
            let partner = keys[index].data->0.pair as int;
            values_open == values.update(
                partner,
                Bucket {
                    data: Some(Entry { pair: usize::MAX, ..values[partner].data->0 }),
                    ..values[partner]
                },
            )
        }),
    ensures
        !unpaired(keys, index),
        homes(keys_open) == homes(keys).update(index, Some(home)),
        linked(keys_open, values_open),
        linked(values_open, keys_open),
        out_of_reach(keys_open, keys[index].data->0.ideal as int),
        0 <= crate::layout::gap(homes(keys_open), keys[index].data->0.ideal as int)
            < crate::layout::gap(homes(keys), home),
{
    let layout = homes(keys);
    let len = keys.len() as int;
    let next = keys[index].data->0.ideal as int;
    let offset = crate::ring::distance(home, index, len);
    lemma_homes_in_range(keys);
    crate::layout::lemma_gap_advances(layout, home, offset, B::width() as int);
    assert(homes(keys_open) =~= layout.update(index, Some(home)));
    crate::layout::lemma_gap_from(homes(keys_open), next, 0);
    assert(!unpaired(keys, index));
    assert(linked_at(keys, values, index));
    assert forall|i: int| 0 <= i < keys_open.len() implies #[trigger] linked_at(
        keys_open,
        values_open,
        i,
    ) by {
        assert(linked_at(keys, values, i));
    }
    assert forall|j: int| 0 <= j < values_open.len() implies #[trigger] linked_at(
        values_open,
        keys_open,
        j,
    ) by {
        assert(linked_at(values, keys, j));
    }
    assert forall|i: int| 0 <= i < keys_open.len() && #[trigger] unpaired(
        keys_open,
        i,
    ) implies crate::layout::gap(homes(keys_open), next) < crate::ring::distance(
        next,
        keys_open[i].data->0.ideal as int,
        len,
    ) by {
        if i != index {
            assert(unpaired(keys, i));
            assert(recorded_at(keys, i));
        }
    }
}

/// A key cannot be placed where the neighbourhood of its bucket is full.
proof fn lemma_full_neighbourhood<K, B: BitField>(table: Seq<Bucket<K, B>>, home: int)
    requires
        0 <= home < table.len(),
        side_wf(table),
        forall|o: int| 0 <= o < B::width() ==> #[trigger] table[home].neighbourhood.bit(o),
    ensures
        crate::layout::place(homes(table), home, B::width() as int) is None,
{
    let layout = homes(table);
    let len = table.len() as int;
    let width = B::width() as int;
    let free = crate::layout::gap(layout, home);
    B::lemma_width();
    lemma_homes_in_range(table);
    crate::layout::lemma_gap_from(layout, home, 0);
    crate::layout::lemma_last_movable(layout, home, width, width - 1);
    if free < len {
        if free < width {
            assert(backed_at(table, home, free));
            assert(layout[crate::ring::step(home, free, len)] is Some);
        }
        assert forall|o: int| 0 < o < width implies !#[trigger] crate::layout::movable(
            layout,
            home,
            width,
            o,
        ) by {
            assert(backed_at(table, home, o));
        }
    }
}

} // verus!
