//! One-to-one relations between two types, as sets of pairs.
use vstd::prelude::*;
use vstd::std_specs::cmp::PartialEqSpec;

verus! {

/// No left and no right key belongs to more than one pair.
pub open spec fn one_to_one<L, R>(relation: Set<(L, R)>) -> bool {
    forall|p: (L, R), q: (L, R)|
        #![trigger relation.contains(p), relation.contains(q)]
        relation.contains(p) && relation.contains(q) && (p.0 == q.0 || p.1 == q.1) ==> p == q
}

/// The left key belongs to a pair.
pub open spec fn has_left<L, R>(relation: Set<(L, R)>, left: L) -> bool {
    exists|right: R| #[trigger] relation.contains((left, right))
}

/// The right key belongs to a pair.
pub open spec fn has_right<L, R>(relation: Set<(L, R)>, right: R) -> bool {
    exists|left: L| #[trigger] relation.contains((left, right))
}

/// The right key that is paired with `left`, if there is one.
pub open spec fn right_of<L, R>(relation: Set<(L, R)>, left: L) -> Option<R> {
    if has_left(relation, left) {
        Some(choose|right: R| #[trigger] relation.contains((left, right)))
    } else {
        None
    }
}

/// The left key that is paired with `right`, if there is one.
pub open spec fn left_of<L, R>(relation: Set<(L, R)>, right: R) -> Option<L> {
    if has_right(relation, right) {
        Some(choose|left: L| #[trigger] relation.contains((left, right)))
    } else {
        None
    }
}

/// A pair has `right` and the one left key that matches the query.
pub open spec fn leads_to_right<L, R, Q: ?Sized>(
    relation: Set<(L, R)>,
    query: &Q,
    right: R,
) -> bool {
    exists|left: L|
        #![trigger relation.contains((left, right))]
        relation.contains((left, right)) && crate::hashing::sole_match(left, query)
}

/// A pair has `left` and the one right key that matches the query.
pub open spec fn leads_to_left<L, R, Q: ?Sized>(
    relation: Set<(L, R)>,
    query: &Q,
    left: L,
) -> bool {
    exists|right: R|
        #![trigger relation.contains((left, right))]
        relation.contains((left, right)) && crate::hashing::sole_match(right, query)
}

/// No pair has a left key that matches the query.
pub open spec fn lacks_left<L, R, Q: ?Sized>(relation: Set<(L, R)>, query: &Q) -> bool {
    forall|pair: (L, R)| #[trigger]
        relation.contains(pair) ==> !crate::hashing::key_matches(pair.0, query)
}

/// No pair has a right key that matches the query.
pub open spec fn lacks_right<L, R, Q: ?Sized>(relation: Set<(L, R)>, query: &Q) -> bool {
    forall|pair: (L, R)| #[trigger]
        relation.contains(pair) ==> !crate::hashing::key_matches(pair.1, query)
}

/// `found` is what a left query leads to.
pub open spec fn found_right<L, R, Q: ?Sized>(
    relation: Set<(L, R)>,
    query: &Q,
    found: Option<R>,
) -> bool {
    match found {
        Some(right) => leads_to_right(relation, query, right),
        None => lacks_left(relation, query),
    }
}

/// `found` is what a right query leads to.
pub open spec fn found_left<L, R, Q: ?Sized>(
    relation: Set<(L, R)>,
    query: &Q,
    found: Option<L>,
) -> bool {
    match found {
        Some(left) => leads_to_left(relation, query, left),
        None => lacks_right(relation, query),
    }
}

/// The pairs whose left keys do not match the query.
pub open spec fn unmatched_left<L, R, Q: ?Sized>(relation: Set<(L, R)>, query: &Q) -> Set<(L, R)> {
    relation.filter(|p: (L, R)| !crate::hashing::key_matches(p.0, query))
}

/// The pairs whose right keys do not match the query.
pub open spec fn unmatched_right<L, R, Q: ?Sized>(relation: Set<(L, R)>, query: &Q) -> Set<(L, R)> {
    relation.filter(|p: (L, R)| !crate::hashing::key_matches(p.1, query))
}

/// `after` is `before` without the pair of `right` and the one left key that matches the query.
pub open spec fn removed_by_left<L, R, Q: ?Sized>(
    before: Set<(L, R)>,
    after: Set<(L, R)>,
    query: &Q,
    right: R,
) -> bool {
    exists|left: L|
        #![trigger before.contains((left, right))]
        {
            &&& before.contains((left, right))
            &&& crate::hashing::sole_match(left, query)
            &&& after == before.remove((left, right))
        }
}

/// `after` is `before` without the pair of `left` and the one right key that matches the query.
pub open spec fn removed_by_right<L, R, Q: ?Sized>(
    before: Set<(L, R)>,
    after: Set<(L, R)>,
    query: &Q,
    left: L,
) -> bool {
    exists|right: R|
        #![trigger before.contains((left, right))]
        {
            &&& before.contains((left, right))
            &&& crate::hashing::sole_match(right, query)
            &&& after == before.remove((left, right))
        }
}

/// The relation without the pairs that `left` or `right` belong to.
pub open spec fn without<L, R>(relation: Set<(L, R)>, left: L, right: R) -> Set<(L, R)> {
    relation.filter(|p: (L, R)| p.0 != left && p.1 != right)
}

/// The relation with `left` and `right` as a pair, which displaces any pair they belonged to.
pub open spec fn with_pair<L, R>(relation: Set<(L, R)>, left: L, right: R) -> Set<(L, R)> {
    without(relation, left, right).insert((left, right))
}

/// No two pairs have left keys, or right keys, that are the same.
pub open spec fn one_to_one_by<L, R>(
    relation: Set<(L, R)>,
    same_left: spec_fn(L, L) -> bool,
    same_right: spec_fn(R, R) -> bool,
) -> bool {
    forall|p: (L, R), q: (L, R)|
        #![trigger relation.contains(p), relation.contains(q)]
        relation.contains(p) && relation.contains(q) && (same_left(p.0, q.0) || same_right(
            p.1,
            q.1,
        )) ==> p == q
}

/// No pair has a left key that is the same as `left`.
pub open spec fn lacks_left_by<L, R>(
    relation: Set<(L, R)>,
    left: L,
    same: spec_fn(L, L) -> bool,
) -> bool {
    forall|p: (L, R)| #[trigger] relation.contains(p) ==> !same(p.0, left)
}

/// No pair has a right key that is the same as `right`.
pub open spec fn lacks_right_by<L, R>(
    relation: Set<(L, R)>,
    right: R,
    same: spec_fn(R, R) -> bool,
) -> bool {
    forall|p: (L, R)| #[trigger] relation.contains(p) ==> !same(p.1, right)
}

/// A pair has `right` and a left key that is the same as `left`.
pub open spec fn leads_to_right_by<L, R>(
    relation: Set<(L, R)>,
    left: L,
    right: R,
    same: spec_fn(L, L) -> bool,
) -> bool {
    exists|l: L|
        #![trigger relation.contains((l, right))]
        relation.contains((l, right)) && same(l, left)
}

/// A pair has `left` and a right key that is the same as `right`.
pub open spec fn leads_to_left_by<L, R>(
    relation: Set<(L, R)>,
    right: R,
    left: L,
    same: spec_fn(R, R) -> bool,
) -> bool {
    exists|r: R|
        #![trigger relation.contains((left, r))]
        relation.contains((left, r)) && same(r, right)
}

/// `found` is the right key that a left key the same as `left` is paired with, if there is one.
pub open spec fn found_right_by<L, R>(
    relation: Set<(L, R)>,
    left: L,
    found: Option<R>,
    same: spec_fn(L, L) -> bool,
) -> bool {
    match found {
        Some(right) => leads_to_right_by(relation, left, right, same),
        None => lacks_left_by(relation, left, same),
    }
}

/// `found` is the left key that a right key the same as `right` is paired with, if there is one.
pub open spec fn found_left_by<L, R>(
    relation: Set<(L, R)>,
    right: R,
    found: Option<L>,
    same: spec_fn(R, R) -> bool,
) -> bool {
    match found {
        Some(left) => leads_to_left_by(relation, right, left, same),
        None => lacks_right_by(relation, right, same),
    }
}

/// The pairs whose left keys are not the same as `left`.
pub open spec fn unequal_left<L, R>(
    relation: Set<(L, R)>,
    left: L,
    same: spec_fn(L, L) -> bool,
) -> Set<(L, R)> {
    relation.filter(|p: (L, R)| !same(p.0, left))
}

/// The pairs whose right keys are not the same as `right`.
pub open spec fn unequal_right<L, R>(
    relation: Set<(L, R)>,
    right: R,
    same: spec_fn(R, R) -> bool,
) -> Set<(L, R)> {
    relation.filter(|p: (L, R)| !same(p.1, right))
}

/// The relation without the pairs of keys that are the same as `left` or as `right`.
pub open spec fn without_by<L, R>(
    relation: Set<(L, R)>,
    left: L,
    right: R,
    same_left: spec_fn(L, L) -> bool,
    same_right: spec_fn(R, R) -> bool,
) -> Set<(L, R)> {
    relation.filter(|p: (L, R)| !same_left(p.0, left) && !same_right(p.1, right))
}

/// The relation with `left` and `right` as a pair, which displaces any pair of keys the same as
/// either.
pub open spec fn with_pair_by<L, R>(
    relation: Set<(L, R)>,
    left: L,
    right: R,
    same_left: spec_fn(L, L) -> bool,
    same_right: spec_fn(R, R) -> bool,
) -> Set<(L, R)> {
    without_by(relation, left, right, same_left, same_right).insert((left, right))
}

/// In a one-to-one relation a pair tells what the partner of each of its keys is.
pub proof fn lemma_partner<L, R>(relation: Set<(L, R)>, left: L, right: R)
    requires
        one_to_one(relation),
        relation.contains((left, right)),
    ensures
        right_of(relation, left) == Some(right),
        left_of(relation, right) == Some(left),
{
}

/// Taking pairs away keeps a relation one-to-one.
pub proof fn lemma_subset_one_to_one<L, R>(relation: Set<(L, R)>, fewer: Set<(L, R)>)
    requires
        one_to_one(relation),
        fewer.subset_of(relation),
    ensures
        one_to_one(fewer),
{
}

/// Adding a pair of keys that belong to none keeps a relation one-to-one.
pub proof fn lemma_insert_one_to_one<L, R>(relation: Set<(L, R)>, left: L, right: R)
    requires
        one_to_one(relation),
        !has_left(relation, left),
        !has_right(relation, right),
    ensures
        one_to_one(relation.insert((left, right))),
        with_pair(relation, left, right) == relation.insert((left, right)),
{
    assert forall|p: (L, R)| #[trigger] relation.contains(p) implies p.0 != left && p.1 != right by {
        assert(relation.contains((p.0, p.1)));
    }
}

/// In a relation without equal keys, a pair whose left key equals another is the only such pair.
pub proof fn lemma_sole_equal_left<L: Eq, R: Eq>(relation: Set<(L, R)>, pair: (L, R), left: L)
    requires
        crate::hashing::compares_lawfully::<L>(),
        one_to_one_by(
            relation,
            crate::hashing::equality::<L>(),
            crate::hashing::equality::<R>(),
        ),
        relation.contains(pair),
    ensures
        pair.0.eq_spec(&left) ==> forall|p: (L, R)| #[trigger]
            relation.contains(p) && p.0.eq_spec(&left) ==> p == pair,
{
    assert forall|p: (L, R)| #[trigger] relation.contains(p) && p.0.eq_spec(&left)
        && pair.0.eq_spec(&left) implies p == pair by {
        assert(left.eq_spec(&pair.0));
        assert(p.0.eq_spec(&pair.0));
    }
}

/// In a relation without equal keys, a pair whose right key equals another is the only such pair.
pub proof fn lemma_sole_equal_right<L: Eq, R: Eq>(relation: Set<(L, R)>, pair: (L, R), right: R)
    requires
        crate::hashing::compares_lawfully::<R>(),
        one_to_one_by(
            relation,
            crate::hashing::equality::<L>(),
            crate::hashing::equality::<R>(),
        ),
        relation.contains(pair),
    ensures
        pair.1.eq_spec(&right) ==> forall|p: (L, R)| #[trigger]
            relation.contains(p) && p.1.eq_spec(&right) ==> p == pair,
{
    assert forall|p: (L, R)| #[trigger] relation.contains(p) && p.1.eq_spec(&right)
        && pair.1.eq_spec(&right) implies p == pair by {
        assert(right.eq_spec(&pair.1));
        assert(p.1.eq_spec(&pair.1));
    }
}

} // verus!
