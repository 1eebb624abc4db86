//! Listing the pairs that two tables hold.
use crate::bucket::Bucket;
use vstd::prelude::*;

verus! {

/// The pairs whose left keys are in the first `count` buckets, in the order of those buckets.
pub open spec fn listing<L, R, B>(
    left: Seq<Bucket<L, B>>,
    right: Seq<Bucket<R, B>>,
    count: int,
) -> Seq<(L, R)>
    decreases count,
{
    if count <= 0 {
        Seq::empty()
    } else {
        let before = listing(left, right, count - 1);
        match left[count - 1].data {
            Some(entry) => before.push((entry.key, right[entry.pair as int].data->0.key)),
            None => before,
        }
    }
}

/// Buckets without keys have no pairs to list.
pub proof fn lemma_listing_empty<L, R, B>(
    left: Seq<Bucket<L, B>>,
    right: Seq<Bucket<R, B>>,
    count: int,
)
    requires
        0 <= count <= left.len(),
        forall|i: int| 0 <= i < left.len() ==> (#[trigger] left[i]).data is None,
    ensures
        listing(left, right, count) == Seq::<(L, R)>::empty(),
    decreases count,
{
    if count > 0 {
        lemma_listing_empty(left, right, count - 1);
    }
}

/// No more pairs are listed than there are buckets.
pub proof fn lemma_listing_len<L, R, B>(
    left: Seq<Bucket<L, B>>,
    right: Seq<Bucket<R, B>>,
    count: int,
)
    requires
        0 <= count,
    ensures
        listing(left, right, count).len() <= count,
    decreases count,
{
    if count > 0 {
        lemma_listing_len(left, right, count - 1);
    }
}

/// A pair is listed exactly if one of the buckets holds it.
proof fn lemma_listed<L, R, B>(
    left: Seq<Bucket<L, B>>,
    right: Seq<Bucket<R, B>>,
    count: int,
    pair: (L, R),
)
    requires
        crate::pairing::paired(left, right),
        0 <= count <= left.len(),
    ensures
        listing(left, right, count).contains(pair) <==> exists|i: int|
            i < count && #[trigger] crate::lookup::pair_at(left, right, i, pair.0, pair.1),
    decreases count,
{
    if count > 0 {
        lemma_listed(left, right, count - 1, pair);
        let before = listing(left, right, count - 1);
        let all = listing(left, right, count);
        let last = count - 1;
        if left[last].data is Some {
            assert(crate::table::linked_at(left, right, last));
            assert(!crate::table::unpaired(left, last));
            let added = (
                left[last].data->0.key,
                right[left[last].data->0.pair as int].data->0.key,
            );
            assert(crate::lookup::pair_at(left, right, last, added.0, added.1));
            assert(all[before.len() as int] == added);
            if before.contains(pair) {
                let k = choose|k: int| 0 <= k < before.len() && before[k] == pair;
                assert(all[k] == pair);
            }
        }
    }
}

/// Nothing is listed but pairs that the tables hold.
pub proof fn lemma_listing_within<L, R, B>(left: Seq<Bucket<L, B>>, right: Seq<Bucket<R, B>>)
    requires
        crate::pairing::paired(left, right),
    ensures
        forall|pair: (L, R)| #[trigger]
            listing(left, right, left.len() as int).contains(pair)
                ==> crate::pairing::table_pairs(left, right).contains(pair),
{
    assert forall|pair: (L, R)| #[trigger]
        listing(left, right, left.len() as int).contains(
            pair,
        ) implies crate::pairing::table_pairs(left, right).contains(pair) by {
        lemma_listed(left, right, left.len() as int, pair);
    }
}

/// The list of all buckets has the pairs that the tables hold, and each of them once.
pub proof fn lemma_listing<L, R, B>(left: Seq<Bucket<L, B>>, right: Seq<Bucket<R, B>>)
    requires
        crate::pairing::paired(left, right),
        crate::lookup::distinct(left),
    ensures
        listing(left, right, left.len() as int).no_duplicates(),
        forall|pair: (L, R)|
            #![trigger listing(left, right, left.len() as int).contains(pair)]
            #![trigger crate::pairing::table_pairs(left, right).contains(pair)]
            listing(left, right, left.len() as int).contains(pair)
                <==> crate::pairing::table_pairs(left, right).contains(pair),
{
    let count = left.len() as int;
    lemma_listed_once(left, right, count);
    assert forall|pair: (L, R)|
        #![trigger listing(left, right, count).contains(pair)]
        #![trigger crate::pairing::table_pairs(left, right).contains(pair)]
        listing(left, right, count).contains(pair) <==> crate::pairing::table_pairs(
            left,
            right,
        ).contains(pair) by {
        lemma_listed(left, right, count, pair);
    }
}

proof fn lemma_listed_once<L, R, B>(
    left: Seq<Bucket<L, B>>,
    right: Seq<Bucket<R, B>>,
    count: int,
)
    requires
        crate::pairing::paired(left, right),
        crate::lookup::distinct(left),
        0 <= count <= left.len(),
    ensures
        listing(left, right, count).no_duplicates(),
    decreases count,
{
    if count > 0 {
        lemma_listed_once(left, right, count - 1);
        let before = listing(left, right, count - 1);
        let last = count - 1;
        if left[last].data is Some {
            let added = (
                left[last].data->0.key,
                right[left[last].data->0.pair as int].data->0.key,
            );
            lemma_listed(left, right, count - 1, added);
            if before.contains(added) {
                assert(crate::lookup::holds(left, last, added.0));
            }
        }
    }
}

/// What a list of borrowed pairs refers to.
pub open spec fn referents<L, R>(pairs: Seq<(&L, &R)>) -> Seq<(L, R)> {
    Seq::new(pairs.len(), |i: int| (*pairs[i].0, *pairs[i].1))
}

/// Lists the pairs of two tables.
pub fn borrow_pairs<'a, L, R, B>(
    left_data: &'a Vec<Bucket<L, B>>,
    right_data: &'a Vec<Bucket<R, B>>,
) -> (pairs: Vec<(&'a L, &'a R)>)
    ensures
        crate::pairing::paired(left_data@, right_data@) ==> referents(pairs@) == listing(
            left_data@,
            right_data@,
            left_data.len() as int,
        ),
{
    let mut pairs: Vec<(&'a L, &'a R)> = Vec::new();
    let mut next: usize = 0;
    while next < left_data.len()
        invariant
            next <= left_data.len(),
            crate::pairing::paired(left_data@, right_data@) ==> referents(pairs@) == listing(
                left_data@,
                right_data@,
                next as int,
            ),
        decreases left_data.len() - next,
    {
        if let Some(entry) = &left_data[next].data {
            proof {
                if crate::pairing::paired(left_data@, right_data@) {
                    assert(crate::table::linked_at(left_data@, right_data@, next as int));
                    assert(!crate::table::unpaired(left_data@, next as int));
                }
            }
            if entry.pair < right_data.len() {
                if let Some(partner) = &right_data[entry.pair].data {
                    pairs.push((&entry.key, &partner.key));
                }
            }
        }
        next = next + 1;
    }
    pairs
}

/// Takes the pairs of two tables out of them.
pub fn into_pairs<L, R, B>(left_data: Vec<Bucket<L, B>>, right_data: Vec<Bucket<R, B>>) -> (pairs: Vec<
    (L, R),
>)
    ensures
        crate::pairing::paired(left_data@, right_data@) ==> pairs@ == listing(
            left_data@,
            right_data@,
            left_data.len() as int,
        ),
{
    let ghost lefts = left_data@;
    let ghost rights = right_data@;
    let mut left_data = left_data;
    let mut right_data = right_data;
    let mut pairs: Vec<(L, R)> = Vec::new();
    let mut next: usize = 0;
    while next < left_data.len()
        invariant
            next <= left_data.len(),
            left_data.len() == lefts.len(),
            right_data.len() == rights.len(),
            forall|i: int| next <= i < lefts.len() ==> #[trigger] left_data[i] == lefts[i],
            crate::pairing::paired(lefts, rights) ==> {
                &&& forall|j: int|
                    0 <= j < rights.len() && (#[trigger] rights[j]).data is Some
                        && rights[j].data->0.pair >= next ==> right_data[j] == rights[j]
                &&& pairs@ == listing(lefts, rights, next as int)
            },
        decreases left_data.len() - next,
    {
        if let Some(entry) = left_data[next].data.take() {
            proof {
                if crate::pairing::paired(lefts, rights) {
                    assert(crate::table::linked_at(lefts, rights, next as int));
                    assert(!crate::table::unpaired(lefts, next as int));
                }
            }
            if entry.pair < right_data.len() {
                if let Some(partner) = right_data[entry.pair].data.take() {
                    pairs.push((entry.key, partner.key));
                }
            }
        }
        next = next + 1;
    }
    pairs
}

} // verus!
