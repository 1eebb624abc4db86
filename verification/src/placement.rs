//! What holds of the placement of keys, whatever the table.
//!
//! A layout gives for each place of a table the bucket that the key there hashes to (its home), or
//! nothing where the place is free.
use crate::layout;
use crate::ring;
use vstd::prelude::*;

verus! {

/// Every place is reached from every other by going so many steps forward around the ring, and by no
/// other number of steps below its length.
pub proof fn law_ring(start: int, offset: int, len: int)
    requires
        0 <= start < len,
        0 <= offset < len,
    ensures
        0 <= ring::step(start, offset, len) < len,
        ring::step(start, offset, len) == (start + offset) % len,
        ring::distance(start, ring::step(start, offset, len), len) == offset,
        0 <= ring::distance(start, offset, len) < len,
        (start + ring::distance(start, offset, len)) % len == offset,
{
    let sum = start + offset;
    if sum < len {
        vstd::arithmetic::div_mod::lemma_small_mod(sum as nat, len as nat);
    } else {
        vstd::arithmetic::div_mod::lemma_fundamental_div_mod_converse(sum, len, 1, sum - len);
    }
    let there = start + ring::distance(start, offset, len);
    if there < len {
        vstd::arithmetic::div_mod::lemma_small_mod(there as nat, len as nat);
    } else {
        vstd::arithmetic::div_mod::lemma_fundamental_div_mod_converse(there, len, 1, there - len);
    }
}

/// A key goes to the nearest free place from its home on, if that is in the neighbourhood; nothing
/// else moves.
pub proof fn law_nearest_place(layout: Seq<Option<int>>, home: int, width: int, offset: int)
    requires
        0 <= home < layout.len(),
        layout::in_range(layout),
        0 <= offset < layout.len(),
        offset < width,
        layout[(home + offset) % (layout.len() as int)] is None,
        forall|o: int|
            0 <= o < offset ==> (#[trigger] layout[ring::step(home, o, layout.len() as int)]) is Some,
    ensures
        layout::place(layout, home, width) == Some(
            (
                layout.update((home + offset) % (layout.len() as int), Some(home)),
                (home + offset) % (layout.len() as int),
            ),
        ),
{
    law_ring(home, offset, layout.len() as int);
    layout::lemma_gap_unique(layout, home, offset);
}

/// A table without a free place takes no key.
pub proof fn law_no_free_place(layout: Seq<Option<int>>, home: int, width: int)
    requires
        0 <= home < layout.len(),
        layout::in_range(layout),
        forall|i: int| 0 <= i < layout.len() ==> (#[trigger] layout[i]) is Some,
    ensures
        layout::place(layout, home, width) is None,
{
    layout::lemma_gap_unique(layout, home, layout.len() as int);
}

/// The key `offset` places behind `home` hashes to a later bucket of the neighbourhood of `home`.
pub open spec fn is_later(layout: Seq<Option<int>>, home: int, width: int, offset: int) -> bool {
    match layout[(home + offset) % (layout.len() as int)] {
        Some(other) => exists|ahead: int|
            0 < ahead < width && ahead < layout.len() && other == #[trigger] ((home + ahead) % (
            layout.len() as int)),
        None => false,
    }
}

/// A key hashes to a later bucket exactly if its home is fewer steps ahead than a neighbourhood is
/// wide.
proof fn lemma_is_later(layout: Seq<Option<int>>, home: int, width: int, offset: int)
    requires
        0 <= home < layout.len(),
        layout::in_range(layout),
        0 <= offset < layout.len(),
    ensures
        is_later(layout, home, width, offset) <==> layout::movable(layout, home, width, offset),
{
    let len = layout.len() as int;
    law_ring(home, offset, len);
    let slot = ring::step(home, offset, len);
    if layout[slot] is Some {
        let other = layout[slot]->0;
        let ahead = ring::distance(home, other, len);
        law_ring(home, other, len);
        assert(other == (home + ahead) % len);
        if is_later(layout, home, width, offset) {
            let a = choose|a: int| 0 < a < width && a < len && other == #[trigger] ((home + a) % len);
            law_ring(home, a, len);
        }
    }
}

/// The first free place lies beyond a neighbourhood that is taken, in a table with a free place.
proof fn lemma_free_beyond(layout: Seq<Option<int>>, home: int, width: int, free: int)
    requires
        0 <= home < layout.len(),
        layout::in_range(layout),
        0 <= free < layout.len(),
        layout[free] is None,
        forall|o: int|
            0 <= o < width && o < layout.len() ==> (#[trigger] layout[ring::step(
                home,
                o,
                layout.len() as int,
            )]) is Some,
    ensures
        width <= layout::gap(layout, home) < layout.len(),
{
    let len = layout.len() as int;
    layout::lemma_gap_from(layout, home, 0);
    let found = layout::gap(layout, home);
    let offset = ring::distance(home, free, len);
    assert(ring::step(home, offset, len) == free);
    if found == len {
        assert(layout[ring::step(home, offset, len)] is Some);
    } else if found < width {
        assert(layout[ring::step(home, found, len)] is Some);
    }
}

/// Where the neighbourhood is taken but a place is free elsewhere, the last key in it that hashes to
/// a later bucket makes room: the further key has a place, namely the one of that key, exactly if
/// that key can be placed anew.
pub proof fn law_displacement(
    layout: Seq<Option<int>>,
    home: int,
    width: int,
    free: int,
    offset: int,
)
    requires
        0 <= home < layout.len(),
        layout::in_range(layout),
        0 <= free < layout.len(),
        layout[free] is None,
        forall|o: int|
            0 <= o < width && o < layout.len() ==> (#[trigger] layout[ring::step(
                home,
                o,
                layout.len() as int,
            )]) is Some,
        0 < offset < width,
        is_later(layout, home, width, offset),
        forall|o: int| offset < o < width ==> !#[trigger] is_later(layout, home, width, o),
    ensures
        ({
            let slot = (home + offset) % (layout.len() as int);
            match layout::place(layout.update(slot, Some(home)), layout[slot]->0, width) {
                Some((placed, _)) => layout::place(layout, home, width) == Some((placed, slot)),
                None => layout::place(layout, home, width) is None,
            }
        }),
{
    let len = layout.len() as int;
    lemma_free_beyond(layout, home, width, free);
    law_ring(home, offset, len);
    lemma_is_later(layout, home, width, offset);
    lemma_last(layout, home, width, offset, width - 1);
    layout::lemma_gap_advances(layout, home, offset, width);
}

/// The last key up to `from` that hashes to a later bucket is the one that is found.
proof fn lemma_last(layout: Seq<Option<int>>, home: int, width: int, offset: int, from: int)
    requires
        0 <= home < layout.len(),
        layout::in_range(layout),
        width <= layout.len(),
        0 < offset <= from < width,
        layout::movable(layout, home, width, offset),
        forall|o: int| offset < o <= from ==> !#[trigger] is_later(layout, home, width, o),
    ensures
        layout::last_movable(layout, home, width, from) == Some(offset),
    decreases from,
{
    if from > offset {
        assert(!is_later(layout, home, width, from));
        lemma_is_later(layout, home, width, from);
        lemma_last(layout, home, width, offset, from - 1);
    }
}

/// Where the neighbourhood is taken, and no key in it but the one at `home` hashes to a later bucket,
/// there is no place.
pub proof fn law_nothing_later(layout: Seq<Option<int>>, home: int, width: int)
    requires
        0 <= home < layout.len(),
        layout::in_range(layout),
        0 < width,
        forall|o: int|
            0 <= o < width && o < layout.len() ==> (#[trigger] layout[ring::step(
                home,
                o,
                layout.len() as int,
            )]) is Some,
        forall|o: int|
            0 < o < width && o < layout.len() ==> !#[trigger] is_later(layout, home, width, o),
    ensures
        layout::place(layout, home, width) is None,
{
    layout::lemma_gap_from(layout, home, 0);
    let found = layout::gap(layout, home);
    if found < layout.len() {
        if found < width {
            assert(layout[ring::step(home, found, layout.len() as int)] is Some);
        }
        layout::lemma_last_movable(layout, home, width, width - 1);
        if let Some(offset) = layout::last_movable(layout, home, width, width - 1) {
            lemma_is_later(layout, home, width, offset);
            assert(!is_later(layout, home, width, offset));
        }
    }
}

/// Every key lies in the neighbourhood of its home.
pub open spec fn within_reach(layout: Seq<Option<int>>, width: int) -> bool {
    forall|i: int|
        0 <= i < layout.len() && (#[trigger] layout[i]) is Some ==> ring::distance(
            layout[i]->0,
            i,
            layout.len() as int,
        ) < width
}

/// No two keys have the same home, but for homes at `home` or `reach` steps or more behind it.
spec fn spread_between(layout: Seq<Option<int>>, home: int, reach: int) -> bool {
    forall|i: int, j: int|
        0 <= i < layout.len() && 0 <= j < layout.len() && i != j && (#[trigger] layout[i]) is Some
            && (#[trigger] layout[j]) == layout[i] ==> {
            let ahead = ring::distance(home, layout[i]->0, layout.len() as int);
            ahead == 0 || ahead >= reach
        }
}

/// Keys of different homes make room for each other until one reaches the free place.
proof fn lemma_spread(layout: Seq<Option<int>>, home: int, width: int)
    requires
        0 <= home < layout.len(),
        layout::in_range(layout),
        within_reach(layout, width),
        0 < width,
        layout::gap(layout, home) < layout.len(),
        spread_between(layout, home, layout::gap(layout, home)),
        layout::gap(layout, home) >= width ==> layout[ring::step(
            home,
            width - 1,
            layout.len() as int,
        )] != Some(home),
    ensures
        layout::place(layout, home, width) is Some,
    decreases layout::gap(layout, home),
{
    let len = layout.len() as int;
    let free = layout::gap(layout, home);
    layout::lemma_gap_from(layout, home, 0);
    if free >= width {
        let offset = width - 1;
        let slot = ring::step(home, offset, len);
        assert(layout[slot] is Some);
        let next = layout[slot]->0;
        let ahead = ring::distance(home, next, len);
        assert(ring::distance(next, slot, len) < width);
        assert(next != home);
        assert(0 < ahead < width);
        assert(offset > 0);
        assert(layout::movable(layout, home, width, offset));
        assert(layout::last_movable(layout, home, width, offset) == Some(offset));
        layout::lemma_gap_advances(layout, home, offset, width);
        let moved = layout.update(slot, Some(home));
        assert forall|i: int| 0 <= i < moved.len() && (#[trigger] moved[i]) is Some implies
            ring::distance(moved[i]->0, i, len) < width by {
            if i != slot {
                assert(layout[i] is Some);
            }
        }
        assert forall|i: int| 0 <= i < moved.len() implies #[trigger] moved[i] != Some(next) by {
            if i != slot && moved[i] == Some(next) {
                assert(layout[i] == layout[slot]);
            }
        }
        assert(spread_between(moved, next, free - ahead)) by {
            assert forall|i: int, j: int|
                0 <= i < moved.len() && 0 <= j < moved.len() && i != j && (#[trigger] moved[i])
                    is Some && (#[trigger] moved[j]) == moved[i] implies {
                let there = ring::distance(next, moved[i]->0, len);
                there == 0 || there >= free - ahead
            } by {
                if i != slot && j != slot {
                    assert(layout[i] is Some);
                    assert(layout[j] == layout[i]);
                }
            }
        }
        layout::lemma_gap_from(moved, next, 0);
        if free - ahead >= width {
            assert(moved[ring::step(next, width - 1, len)] != Some(next));
        }
        lemma_spread(moved, next, width);
    }
}

/// A table in which no two keys have the same home, and that has a free place, has a place for a key
/// of any further home.
pub proof fn law_different_homes_have_room(
    layout: Seq<Option<int>>,
    home: int,
    width: int,
    free: int,
)
    requires
        0 <= home < layout.len(),
        layout::in_range(layout),
        within_reach(layout, width),
        0 < width,
        0 <= free < layout.len(),
        layout[free] is None,
        forall|i: int, j: int|
            0 <= i < layout.len() && 0 <= j < layout.len() && i != j && (#[trigger] layout[i])
                is Some ==> (#[trigger] layout[j]) != layout[i],
        forall|i: int| 0 <= i < layout.len() ==> (#[trigger] layout[i]) != Some(home),
    ensures
        layout::place(layout, home, width) is Some,
{
    lemma_some_gap(layout, home, free);
    lemma_spread(layout, home, width);
}

/// A table in which every key lies in the bucket it hashes to, and that has a free place, has a place
/// for a key of any home.
pub proof fn law_keys_at_home_make_room(
    layout: Seq<Option<int>>,
    home: int,
    width: int,
    free: int,
)
    requires
        0 <= home < layout.len(),
        1 < width,
        0 <= free < layout.len(),
        layout[free] is None,
        forall|i: int|
            0 <= i < layout.len() && (#[trigger] layout[i]) is Some ==> layout[i] == Some(i),
    ensures
        layout::place(layout, home, width) is Some,
{
    lemma_some_gap(layout, home, free);
    if layout::gap(layout, home) >= width {
        let last = ring::step(home, width - 1, layout.len() as int);
        assert(last != home);
        assert(layout[last] is Some ==> layout[last] == Some(last));
    }
    lemma_spread(layout, home, width);
}

/// Where a place is free, the first free place behind any bucket is found before the ring closes.
proof fn lemma_some_gap(layout: Seq<Option<int>>, home: int, free: int)
    requires
        0 <= home < layout.len(),
        0 <= free < layout.len(),
        layout[free] is None,
    ensures
        0 <= layout::gap(layout, home) < layout.len(),
{
    let len = layout.len() as int;
    layout::lemma_gap_from(layout, home, 0);
    let offset = ring::distance(home, free, len);
    assert(ring::step(home, offset, len) == free);
    if layout::gap(layout, home) == len {
        assert(layout[ring::step(home, offset, len)] is Some);
    }
}

/// A placed key lies in the neighbourhood of its home, and so does every other key if it did before;
/// the homes are those that were there, and the one of the placed key in a place that was free.
pub proof fn law_placed(layout: Seq<Option<int>>, home: int, width: int)
    requires
        0 <= home < layout.len(),
        layout::in_range(layout),
        within_reach(layout, width),
        layout::place(layout, home, width) is Some,
    ensures
        ({
            let (placed, slot) = layout::place(layout, home, width)->0;
            &&& placed.len() == layout.len()
            &&& 0 <= slot < layout.len()
            &&& placed[slot] == Some(home)
            &&& ring::distance(home, slot, layout.len() as int) < width
            &&& within_reach(placed, width)
            &&& placed.to_multiset().insert(None) == layout.to_multiset().insert(Some(home))
        }),
    decreases layout::gap(layout, home),
{
    let len = layout.len() as int;
    let free = layout::gap(layout, home);
    layout::lemma_gap_from(layout, home, 0);
    if free < width {
        let slot = ring::step(home, free, len);
        let placed = layout.update(slot, Some(home));
        assert forall|i: int| 0 <= i < placed.len() && (#[trigger] placed[i]) is Some implies
            ring::distance(placed[i]->0, i, len) < width by {
            assert(i != slot ==> layout[i] is Some);
        }
        lemma_updated(layout, slot, Some(home));
    } else {
        layout::lemma_last_movable(layout, home, width, width - 1);
        let offset = layout::last_movable(layout, home, width, width - 1)->0;
        let slot = ring::step(home, offset, len);
        let moved = layout.update(slot, Some(home));
        layout::lemma_gap_advances(layout, home, offset, width);
        layout::lemma_gap_from(moved, layout[slot]->0, 0);
        assert forall|i: int| 0 <= i < moved.len() && (#[trigger] moved[i]) is Some implies
            ring::distance(moved[i]->0, i, len) < width by {
            assert(i != slot ==> layout[i] is Some);
        }
        lemma_updated(layout, slot, Some(home));
        law_placed(moved, layout[slot]->0, width);
        lemma_kept_in_place(moved, layout[slot]->0, width, slot, home);
    }
}

/// Where a key can be placed, the keys end up as the homes say, the key itself where its home went;
/// no key is lost, and none comes in but that one.
pub proof fn law_arranged<K>(contents: Seq<Option<(K, int)>>, key: K, home: int, width: int)
    requires
        0 <= home < contents.len(),
        layout::in_range(layout::homes_of(contents)),
        within_reach(layout::homes_of(contents), width),
        layout::place(layout::homes_of(contents), home, width) is Some,
    ensures
        ({
            let (placed, slot) = layout::place(layout::homes_of(contents), home, width)->0;
            let after = layout::arranged(contents, key, home, width);
            &&& after.len() == contents.len()
            &&& layout::homes_of(after) == placed
            &&& after[slot] == Some((key, home))
            &&& after.to_multiset().insert(None) == contents.to_multiset().insert(Some((key, home)))
        }),
    decreases layout::gap(layout::homes_of(contents), home),
{
    let len = contents.len() as int;
    let homes = layout::homes_of(contents);
    let free = layout::gap(homes, home);
    layout::lemma_gap_from(homes, home, 0);
    law_placed(homes, home, width);
    if free < width {
        let slot = ring::step(home, free, len);
        assert(homes[slot] is None);
        assert(contents[slot] is None);
        lemma_updated(contents, slot, Some((key, home)));
        assert(layout::homes_of(contents.update(slot, Some((key, home)))) =~= homes.update(
            slot,
            Some(home),
        ));
    } else {
        layout::lemma_last_movable(homes, home, width, width - 1);
        let offset = layout::last_movable(homes, home, width, width - 1)->0;
        let slot = ring::step(home, offset, len);
        let moved = contents.update(slot, Some((key, home)));
        let (displaced, next) = contents[slot]->0;
        layout::lemma_gap_advances(homes, home, offset, width);
        assert(layout::homes_of(moved) =~= homes.update(slot, Some(home)));
        layout::lemma_gap_from(layout::homes_of(moved), next, 0);
        assert forall|i: int|
            0 <= i < len && (#[trigger] layout::homes_of(moved)[i]) is Some implies ring::distance(
            layout::homes_of(moved)[i]->0,
            i,
            len,
        ) < width by {
            assert(i != slot ==> homes[i] is Some);
        }
        layout::lemma_arranged_anew(contents, key, home, width, slot);
        lemma_updated(contents, slot, Some((key, home)));
        law_arranged(moved, displaced, next, width);
        lemma_arranged_in_place(moved, displaced, next, width, slot);
    }
}

/// A key whose home lies at `home`, or beyond the first free place behind it, keeps its place.
proof fn lemma_arranged_in_place<K>(
    contents: Seq<Option<(K, int)>>,
    key: K,
    home: int,
    width: int,
    i: int,
)
    requires
        0 <= home < contents.len(),
        layout::in_range(layout::homes_of(contents)),
        layout::place(layout::homes_of(contents), home, width) is Some,
        0 <= i < contents.len(),
        layout::homes_of(contents)[i] is Some,
        ({
            let other = layout::homes_of(contents)[i]->0;
            let ahead = ring::distance(home, other, contents.len() as int);
            ahead == 0 || ahead >= layout::gap(layout::homes_of(contents), home)
        }),
    ensures
        layout::arranged(contents, key, home, width)[i] == contents[i],
    decreases layout::gap(layout::homes_of(contents), home),
{
    let len = contents.len() as int;
    let homes = layout::homes_of(contents);
    let free = layout::gap(homes, home);
    layout::lemma_gap_from(homes, home, 0);
    if free >= width {
        layout::lemma_last_movable(homes, home, width, width - 1);
        let offset = layout::last_movable(homes, home, width, width - 1)->0;
        let slot = ring::step(home, offset, len);
        let moved = contents.update(slot, Some((key, home)));
        let (displaced, next) = contents[slot]->0;
        layout::lemma_gap_advances(homes, home, offset, width);
        assert(layout::homes_of(moved) =~= homes.update(slot, Some(home)));
        layout::lemma_gap_from(layout::homes_of(moved), next, 0);
        layout::lemma_arranged_anew(contents, key, home, width, slot);
        assert(slot != i);
        lemma_arranged_in_place(moved, displaced, next, width, i);
    }
}

/// A key whose home lies at `home`, or beyond the first free place behind it, stays where it is.
proof fn lemma_kept_in_place(layout: Seq<Option<int>>, home: int, width: int, i: int, other: int)
    requires
        0 <= home < layout.len(),
        layout::in_range(layout),
        layout::place(layout, home, width) is Some,
        0 <= i < layout.len(),
        layout[i] == Some(other),
        ({
            let ahead = ring::distance(home, other, layout.len() as int);
            ahead == 0 || ahead >= layout::gap(layout, home)
        }),
    ensures
        ({
            let (placed, _) = layout::place(layout, home, width)->0;
            placed[i] == Some(other)
        }),
    decreases layout::gap(layout, home),
{
    let len = layout.len() as int;
    let free = layout::gap(layout, home);
    layout::lemma_gap_from(layout, home, 0);
    if free >= width {
        layout::lemma_last_movable(layout, home, width, width - 1);
        let offset = layout::last_movable(layout, home, width, width - 1)->0;
        let slot = ring::step(home, offset, len);
        let moved = layout.update(slot, Some(home));
        layout::lemma_gap_advances(layout, home, offset, width);
        layout::lemma_gap_from(moved, layout[slot]->0, 0);
        assert(slot != i);
        lemma_kept_in_place(moved, layout[slot]->0, width, i, other);
    }
}

/// Changing one element of a sequence exchanges it for another.
proof fn lemma_updated<A>(sequence: Seq<A>, i: int, a: A)
    requires
        0 <= i < sequence.len(),
    ensures
        sequence.update(i, a).to_multiset().insert(sequence[i]) == sequence.to_multiset().insert(a),
{
    vstd::seq_lib::to_multiset_update(sequence, i, a);
    assert(sequence.to_multiset().count(sequence[i]) > 0) by {
        vstd::seq_lib::to_multiset_contains(sequence, sequence[i]);
        assert(sequence.contains(sequence[i]));
    }
    assert(sequence.update(i, a).to_multiset().insert(sequence[i])
        =~= sequence.to_multiset().insert(a));
}

} // verus!
