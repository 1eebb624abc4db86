//! Where a key goes in a table, told from the buckets that the keys hash to.
//!
//! A layout gives for each place of a table the bucket that the key there hashes to (its home), or
//! nothing where the place is free.
use vstd::prelude::*;

verus! {

/// Every home of a layout is one of its places.
pub open spec fn in_range(layout: Seq<Option<int>>) -> bool {
    forall|i: int|
        0 <= i < layout.len() && (#[trigger] layout[i]) is Some ==> 0 <= layout[i]->0 < layout.len()
}

/// The first offset from `from` on at which the place after `home` is free, or the number of places
/// if there is none.
pub open spec fn gap_from(layout: Seq<Option<int>>, home: int, from: int) -> int
    decreases layout.len() - from,
{
    if from >= layout.len() {
        layout.len() as int
    } else if layout[crate::ring::step(home, from, layout.len() as int)] is None {
        from
    } else {
        gap_from(layout, home, from + 1)
    }
}

/// How far behind `home` the first free place is, or the number of places if none is free.
pub open spec fn gap(layout: Seq<Option<int>>, home: int) -> int {
    gap_from(layout, home, 0)
}

/// Whether the key `offset` places behind `home` can make room for a key that hashes to `home`: it
/// hashes to a later bucket of the neighbourhood, so it may move further on.
pub open spec fn movable(layout: Seq<Option<int>>, home: int, width: int, offset: int) -> bool {
    let place = crate::ring::step(home, offset, layout.len() as int);
    &&& layout[place] is Some
    &&& 0 < crate::ring::distance(home, layout[place]->0, layout.len() as int) < width
}

/// The last offset up to `from`, but not `home` itself, at which a key is movable.
pub open spec fn last_movable(layout: Seq<Option<int>>, home: int, width: int, from: int) -> Option<
    int,
>
    decreases from,
{
    if from <= 0 {
        None
    } else if movable(layout, home, width, from) {
        Some(from)
    } else {
        last_movable(layout, home, width, from - 1)
    }
}

/// The layout after a key that hashes to `home` has been placed, and the place it got.
///
/// The key takes the first free place behind its home if that lies in the neighbourhood of `width`
/// places. Otherwise it takes over the last place in the neighbourhood whose key is movable, and that
/// key is placed anew. There is no result if no place is free, or if nothing is movable.
pub open spec fn place(layout: Seq<Option<int>>, home: int, width: int) -> Option<
    (Seq<Option<int>>, int),
>
    decreases gap(layout, home),
    when 0 <= home < layout.len() && in_range(layout)
    via place_terminates
{
    let offset = gap(layout, home);
    if offset >= layout.len() {
        None
    } else if offset < width {
        let slot = crate::ring::step(home, offset, layout.len() as int);
        Some((layout.update(slot, Some(home)), slot))
    } else {
        match last_movable(layout, home, width, width - 1) {
            None => None,
            Some(offset) => {
                let slot = crate::ring::step(home, offset, layout.len() as int);
                match place(layout.update(slot, Some(home)), layout[slot]->0, width) {
                    None => None,
                    Some((placed, _)) => Some((placed, slot)),
                }
            },
        }
    }
}

#[via_fn]
proof fn place_terminates(layout: Seq<Option<int>>, home: int, width: int) {
    if width <= gap(layout, home) < layout.len() {
        lemma_last_movable(layout, home, width, width - 1);
        if let Some(offset) = last_movable(layout, home, width, width - 1) {
            lemma_gap_advances(layout, home, offset, width);
        }
    }
}

/// The layout of keys that are given with their homes.
pub open spec fn homes_of<K>(contents: Seq<Option<(K, int)>>) -> Seq<Option<int>> {
    Seq::new(
        contents.len(),
        |i: int|
            match contents[i] {
                Some(held) => Some(held.1),
                None => None,
            },
    )
}

/// The keys after one that hashes to `home` has been placed as [`place`] says: it takes the place of
/// a key that is placed anew, and so on, until one takes a free place. Nothing changes if there is
/// none to take.
pub open spec fn arranged<K>(
    contents: Seq<Option<(K, int)>>,
    key: K,
    home: int,
    width: int,
) -> Seq<Option<(K, int)>>
    decreases gap(homes_of(contents), home),
    when 0 <= home < contents.len() && in_range(homes_of(contents))
    via arranged_terminates::<K>
{
    let layout = homes_of(contents);
    let offset = gap(layout, home);
    if offset >= contents.len() {
        contents
    } else if offset < width {
        contents.update(
            crate::ring::step(home, offset, contents.len() as int),
            Some((key, home)),
        )
    } else {
        match last_movable(layout, home, width, width - 1) {
            None => contents,
            Some(offset) => {
                let slot = crate::ring::step(home, offset, contents.len() as int);
                let (displaced, next) = contents[slot]->0;
                arranged(contents.update(slot, Some((key, home))), displaced, next, width)
            },
        }
    }
}

#[via_fn]
proof fn arranged_terminates<K>(
    contents: Seq<Option<(K, int)>>,
    key: K,
    home: int,
    width: int,
) {
    let layout = homes_of(contents);
    if width <= gap(layout, home) < layout.len() {
        lemma_last_movable(layout, home, width, width - 1);
        if let Some(offset) = last_movable(layout, home, width, width - 1) {
            let slot = crate::ring::step(home, offset, layout.len() as int);
            lemma_gap_advances(layout, home, offset, width);
            assert(homes_of(contents.update(slot, Some((key, home)))) =~= layout.update(
                slot,
                Some(home),
            ));
            lemma_gap_from(layout.update(slot, Some(home)), layout[slot]->0, 0);
        }
    }
}

/// Where no place is free nearby, the key takes the place of one that is placed anew.
pub proof fn lemma_arranged_anew<K>(
    contents: Seq<Option<(K, int)>>,
    key: K,
    home: int,
    width: int,
    slot: int,
)
    requires
        0 <= home < contents.len(),
        in_range(homes_of(contents)),
        width <= gap(homes_of(contents), home) < contents.len(),
        last_movable(homes_of(contents), home, width, width - 1) is Some,
        slot == crate::ring::step(
            home,
            last_movable(homes_of(contents), home, width, width - 1)->0,
            contents.len() as int,
        ),
    ensures
        ({
            let (displaced, next) = contents[slot]->0;
            arranged(contents, key, home, width) == arranged(
                contents.update(slot, Some((key, home))),
                displaced,
                next,
                width,
            )
        }),
{
    let layout = homes_of(contents);
    let offset = last_movable(layout, home, width, width - 1)->0;
    lemma_last_movable(layout, home, width, width - 1);
    lemma_gap_advances(layout, home, offset, width);
    assert(homes_of(contents.update(slot, Some((key, home)))) =~= layout.update(slot, Some(home)));
}

/// What `gap_from` returns is free, and everything before it is taken.
pub proof fn lemma_gap_from(layout: Seq<Option<int>>, home: int, from: int)
    requires
        0 <= from <= layout.len(),
    ensures
        from <= gap_from(layout, home, from) <= layout.len(),
        gap_from(layout, home, from) < layout.len() ==> layout[crate::ring::step(
            home,
            gap_from(layout, home, from),
            layout.len() as int,
        )] is None,
        forall|o: int|
            from <= o < gap_from(layout, home, from) ==> (#[trigger] layout[crate::ring::step(
                home,
                o,
                layout.len() as int,
            )]) is Some,
    decreases layout.len() - from,
{
    if from < layout.len() && layout[crate::ring::step(home, from, layout.len() as int)] is Some {
        lemma_gap_from(layout, home, from + 1);
    }
}

/// An offset that is free while everything before it is taken is the gap.
pub proof fn lemma_gap_unique(layout: Seq<Option<int>>, home: int, offset: int)
    requires
        0 <= offset <= layout.len(),
        offset < layout.len() ==> layout[crate::ring::step(home, offset, layout.len() as int)] is None,
        forall|o: int|
            0 <= o < offset ==> (#[trigger] layout[crate::ring::step(home, o, layout.len() as int)])
                is Some,
    ensures
        gap(layout, home) == offset,
{
    lemma_gap_from(layout, home, 0);
}

/// What `last_movable` returns is movable, and nothing behind it is.
pub proof fn lemma_last_movable(layout: Seq<Option<int>>, home: int, width: int, from: int)
    ensures
        match last_movable(layout, home, width, from) {
            Some(offset) => {
                &&& 0 < offset <= from
                &&& movable(layout, home, width, offset)
            },
            None => forall|o: int| 0 < o <= from ==> !#[trigger] movable(layout, home, width, o),
        },
    decreases from,
{
    if from > 0 && !movable(layout, home, width, from) {
        lemma_last_movable(layout, home, width, from - 1);
    }
}

/// Once a movable key has made room, the free place is nearer to its home than it was to `home`.
pub proof fn lemma_gap_advances(layout: Seq<Option<int>>, home: int, offset: int, width: int)
    requires
        0 <= home < layout.len(),
        in_range(layout),
        width <= gap(layout, home) < layout.len(),
        0 < offset < width,
        movable(layout, home, width, offset),
    ensures
        ({
            let len = layout.len() as int;
            let slot = crate::ring::step(home, offset, len);
            let next = layout[slot]->0;
            &&& 0 <= next < len
            &&& in_range(layout.update(slot, Some(home)))
            &&& gap(layout.update(slot, Some(home)), next) == gap(layout, home)
                - crate::ring::distance(home, next, len)
        }),
{
    let len = layout.len() as int;
    let slot = crate::ring::step(home, offset, len);
    let next = layout[slot]->0;
    let moved = layout.update(slot, Some(home));
    let ahead = crate::ring::distance(home, next, len);
    let free = gap(layout, home);
    lemma_gap_from(layout, home, 0);
    assert forall|o: int| 0 <= o < free - ahead implies (#[trigger] moved[crate::ring::step(
        next,
        o,
        len,
    )]) is Some by {
        assert(layout[crate::ring::step(home, o + ahead, len)] is Some);
    }
    lemma_gap_unique(moved, next, free - ahead);
}

/// A key is placed wherever the first free place is near enough.
pub proof fn lemma_placed_nearby(layout: Seq<Option<int>>, home: int, width: int)
    requires
        0 <= home < layout.len(),
        in_range(layout),
        gap(layout, home) < layout.len(),
        gap(layout, home) < width,
    ensures
        place(layout, home, width) is Some,
{
}

} // verus!
