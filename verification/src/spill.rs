//! A plain list of pairs, for those that tables cannot take.
use crate::hashing::matches_query;
use std::borrow::Borrow;
use vstd::prelude::*;

verus! {

/// Finds the pair of a left key.
pub(crate) fn find_left<L, R, Q: ?Sized>(left: &Q, spill: &Vec<(L, R)>) -> (found: Option<usize>) where
    L: Borrow<Q> + Eq,
    Q: Eq,

    ensures
        match found {
            Some(index) => {
                &&& index < spill.len()
                &&& vstd::std_specs::hash::obeys_key_model::<L>() ==> crate::hashing::sole_match(
                    spill[index as int].0,
                    left,
                )
            },
            None => vstd::std_specs::hash::obeys_key_model::<L>() ==> forall|i: int|
                0 <= i < spill.len() ==> !crate::hashing::key_matches(#[trigger] spill[i].0, left),
        },
{
    let mut next: usize = 0;
    while next < spill.len()
        invariant
            next <= spill.len(),
            vstd::std_specs::hash::obeys_key_model::<L>() ==> forall|i: int|
                0 <= i < next ==> !crate::hashing::key_matches(#[trigger] spill[i].0, left),
        decreases spill.len() - next,
    {
        if matches_query(&spill[next].0, left) {
            return Some(next);
        }
        next = next + 1;
    }
    None
}

/// Finds the pair of a right key.
pub(crate) fn find_right<L, R, Q: ?Sized>(right: &Q, spill: &Vec<(L, R)>) -> (found: Option<usize>) where
    R: Borrow<Q> + Eq,
    Q: Eq,

    ensures
        match found {
            Some(index) => {
                &&& index < spill.len()
                &&& vstd::std_specs::hash::obeys_key_model::<R>() ==> crate::hashing::sole_match(
                    spill[index as int].1,
                    right,
                )
            },
            None => vstd::std_specs::hash::obeys_key_model::<R>() ==> forall|i: int|
                0 <= i < spill.len() ==> !crate::hashing::key_matches(#[trigger] spill[i].1, right),
        },
{
    let mut next: usize = 0;
    while next < spill.len()
        invariant
            next <= spill.len(),
            vstd::std_specs::hash::obeys_key_model::<R>() ==> forall|i: int|
                0 <= i < next ==> !crate::hashing::key_matches(#[trigger] spill[i].1, right),
        decreases spill.len() - next,
    {
        if matches_query(&spill[next].1, right) {
            return Some(next);
        }
        next = next + 1;
    }
    None
}

/// Removing one place of a list without duplicates removes one element.
pub proof fn lemma_remove<A>(list: Seq<A>, index: int)
    requires
        list.no_duplicates(),
        0 <= index < list.len(),
    ensures
        list.remove(index).no_duplicates(),
        list.remove(index).to_set() == list.to_set().remove(list[index]),
{
    let fewer = list.remove(index);
    assert forall|a: A| #[trigger] fewer.to_set().contains(a) == list.to_set().remove(
        list[index],
    ).contains(a) by {
        if list.contains(a) && a != list[index] {
            let i = choose|i: int| 0 <= i < list.len() && list[i] == a;
            if i < index {
                assert(fewer[i] == a);
            } else {
                assert(fewer[i - 1] == a);
            }
        }
    }
}

/// Appending a further element to a list adds it to the elements.
pub proof fn lemma_push<A>(list: Seq<A>, a: A)
    ensures
        list.push(a).to_set() == list.to_set().insert(a),
        list.no_duplicates() && !list.contains(a) ==> list.push(a).no_duplicates(),
{
    let more = list.push(a);
    assert forall|b: A| #[trigger] more.to_set().contains(b) == list.to_set().insert(a).contains(
        b,
    ) by {
        if list.contains(b) {
            let i = choose|i: int| 0 <= i < list.len() && list[i] == b;
            assert(more[i] == b);
        }
        assert(more[list.len() as int] == a);
    }
}

} // verus!
