//! The map itself.
use crate::bitfield::{BitField, DefaultBitField};
use crate::bucket::Bucket;
use crate::builder::BiMapBuilder;
use crate::hashing::matches_query;
use crate::listing::{borrow_pairs, into_pairs};
use crate::lookup::check_side;
use crate::pairing::insert_pair;
use crate::spill::{find_left, find_right};
use std::borrow::Borrow;
use std::collections::hash_map::RandomState;
use std::hash::{BuildHasher, Hash};
use vstd::prelude::*;
use vstd::std_specs::cmp::PartialEqSpec;

verus! {

/// The number of buckets in each table of a new map.
pub const DEFAULT_HASH_MAP_SIZE: usize = 32;

/// A length that the tables of a map can have: that of a new map, doubled any number of times.
pub open spec fn is_table_len(len: nat) -> bool
    decreases len,
{
    len == DEFAULT_HASH_MAP_SIZE || (len > DEFAULT_HASH_MAP_SIZE && len % 2 == 0 && is_table_len(
        len / 2,
    ))
}

/// A two way hash map.
///
/// `L` and `R` are the left and right types that are mapped to each other. `LH` and `RH` build the
/// hashers for left and right keys. `B` is the bit field that neighbourhoods are kept in.
#[derive(Debug)]
pub struct BiMap<L, R, LH = RandomState, RH = RandomState, B = DefaultBitField> {
    /// The left keys, and where their partners are in `right_data`.
    left_data: Vec<Bucket<L, B>>,
    /// The right keys, and where their partners are in `left_data`.
    right_data: Vec<Bucket<R, B>>,
    /// Pairs that found no place in tables too long to be doubled.
    spill: Vec<(L, R)>,
    /// Builds the hashers for left keys.
    left_hasher: LH,
    /// Builds the hashers for right keys.
    right_hasher: RH,
}

impl<L, R, LH, RH, B> View for BiMap<L, R, LH, RH, B> {
    type V = Set<(L, R)>;

    /// The relation between left and right keys.
    closed spec fn view(&self) -> Set<(L, R)> {
        self.tabled().union(self.spill@.to_set())
    }
}

impl<L, R, LH, RH, B> BiMap<L, R, LH, RH, B> {
    /// Left and right keys are hashed and compared lawfully.
    pub open spec fn lawful() -> bool {
        crate::hashing::lawful::<L, LH>() && crate::hashing::lawful::<R, RH>()
    }

    /// The buckets of the left keys.
    pub closed spec fn left_table(&self) -> Seq<Bucket<L, B>> {
        self.left_data@
    }

    /// The buckets of the right keys.
    pub closed spec fn right_table(&self) -> Seq<Bucket<R, B>> {
        self.right_data@
    }

    /// The number of buckets in each table.
    pub closed spec fn table_len(&self) -> nat {
        self.left_data@.len()
    }

    /// What builds the hashers for left and for right keys.
    pub closed spec fn hashers(&self) -> (LH, RH) {
        (self.left_hasher, self.right_hasher)
    }

    /// The pairs in the tables.
    closed spec fn tabled(&self) -> Set<(L, R)> {
        crate::pairing::table_pairs(self.left_data@, self.right_data@)
    }

    /// The pairs, first those in the tables by the order of the left buckets.
    pub closed spec fn in_order(&self) -> Seq<(L, R)> {
        crate::listing::listing(
            self.left_data@,
            self.right_data@,
            self.left_data@.len() as int,
        ) + self.spill@
    }

    /// Every key has its partner, and no lawful key belongs to two pairs.
    pub closed spec fn well_paired(&self) -> bool {
        &&& crate::pairing::paired(self.left_data@, self.right_data@)
        &&& is_table_len(self.left_data@.len())
        &&& self.spill@.len() > 0 ==> self.left_data@.len() > usize::MAX / 2
        &&& Self::lawful() ==> {
            &&& crate::lookup::distinct(self.left_data@)
            &&& crate::lookup::distinct(self.right_data@)
            &&& self.spill@.no_duplicates()
            &&& self.tabled().disjoint(self.spill@.to_set())
            &&& crate::relation::one_to_one(self@)
        }
    }
}

impl<L, R, LH, RH, B: BitField> BiMap<L, R, LH, RH, B> {
    /// The number of pairs up to which the tables keep their length, whatever the keys hash to: their
    /// length by the load factor of 1.1, but no more than a neighbourhood has places.
    ///
    /// The quotient is reckoned in single precision, where the factor turns a length into 15252014
    /// parts of 2^24.
    pub open spec fn pairs_without_growth(&self) -> nat {
        let by_load = self.table_len() * 15252014 / 16777216;
        if by_load <= B::width() {
            by_load
        } else {
            B::width()
        }
    }

    /// Returns a lower bound on the number of pairs that the map can hold without needing to be
    /// resized.
    pub fn capacity(&self) -> (capacity: usize)
        ensures
            capacity == self.pairs_without_growth(),
            capacity <= B::width(),
            11 * capacity <= 10 * self.table_len(),
            capacity < B::width() ==> 167772160 * self.table_len() < 184549376 * (capacity + 1) + 6
                * self.table_len(),
    {
        let len: usize = self.left_data.len();
        let by_load: u128 = (len as u128) * 15252014 / 16777216;
        let width: usize = B::size();
        if by_load <= width as u128 {
            by_load as usize
        } else {
            width
        }
    }

    /// No key has been put into the map yet.
    pub closed spec fn untouched(&self) -> bool {
        &&& forall|i: int|
            0 <= i < self.left_data@.len() ==> (#[trigger] self.left_data@[i]).is_empty()
        &&& forall|i: int|
            0 <= i < self.right_data@.len() ==> (#[trigger] self.right_data@[i]).is_empty()
        &&& self.spill@.len() == 0
    }

    /// Makes a map without pairs.
    pub(crate) fn with_hashers(left_hasher: LH, right_hasher: RH) -> (map: Self)
        ensures
            map.well_paired(),
            map.untouched(),
            map@ == Set::<(L, R)>::empty(),
            map.in_order() == Seq::<(L, R)>::empty(),
            map.table_len() == DEFAULT_HASH_MAP_SIZE,
            map.hashers() == (left_hasher, right_hasher),
    {
        let map = BiMap {
            left_data: Bucket::empty_vec(DEFAULT_HASH_MAP_SIZE),
            right_data: Bucket::empty_vec(DEFAULT_HASH_MAP_SIZE),
            spill: Vec::new(),
            left_hasher,
            right_hasher,
        };
        proof {
            map.lemma_untouched();
        }
        map
    }

    /// A map that no key has been put into is well paired and relates nothing.
    proof fn lemma_untouched(&self)
        requires
            self.untouched(),
            self.left_data@.len() == self.right_data@.len() <= usize::MAX,
            is_table_len(self.left_data@.len()),
        ensures
            self.well_paired(),
            self@ == Set::<(L, R)>::empty(),
            self.in_order() == Seq::<(L, R)>::empty(),
    {
        assert forall|i: int| 0 <= i < self.left_data@.len() implies (#[trigger] self.left_data@[i]).data
            is None by {
            assert(self.left_data@[i].is_empty());
        }
        crate::listing::lemma_listing_empty(
            self.left_data@,
            self.right_data@,
            self.left_data@.len() as int,
        );
        crate::pairing::lemma_empty_table(self.left_data@, self.right_data@);
        crate::pairing::lemma_empty_table(self.right_data@, self.left_data@);
        assert(self@ =~= Set::<(L, R)>::empty());
    }
}

impl<L, R> Default for BiMap<L, R> {
    fn default() -> (map: Self)
        ensures
            map.well_paired(),
            map.untouched(),
            map@ == Set::<(L, R)>::empty(),
            map.in_order() == Seq::<(L, R)>::empty(),
            map.table_len() == DEFAULT_HASH_MAP_SIZE,
            crate::builder::randomly_seeded(map.hashers().0),
            crate::builder::randomly_seeded(map.hashers().1),
    {
        BiMapBuilder::new().finish()
    }
}

impl<L, R> BiMap<L, R> {
    /// Makes a map without pairs.
    pub fn new() -> (map: Self)
        ensures
            map.well_paired(),
            map.untouched(),
            map@ == Set::<(L, R)>::empty(),
            map.in_order() == Seq::<(L, R)>::empty(),
            map.table_len() == DEFAULT_HASH_MAP_SIZE,
            crate::builder::randomly_seeded(map.hashers().0),
            crate::builder::randomly_seeded(map.hashers().1),
    {
        Default::default()
    }
}

impl<L, R, LH, RH, B> BiMap<L, R, LH, RH, B> {
    /// Visits the pairs, each of them once.
    pub fn iter(&self) -> (pairs: std::vec::IntoIter<(&L, &R)>)
        requires
            self.well_paired(),
        ensures
            crate::listing::referents(vstd::std_specs::iter::IteratorSpec::remaining(&pairs))
                == self.in_order(),
            Self::lawful() ==> self.in_order().no_duplicates() && self.in_order().to_set() == self@,
    {
        self.into_iter()
    }

    /// The tables have the length of those of a new map, or have been doubled since.
    pub proof fn lemma_table_len(&self)
        requires
            self.well_paired(),
        ensures
            is_table_len(self.table_len()),
    {
    }

    /// The pairs are no more than the buckets of a table, while that is no longer than half of what a
    /// `usize` counts.
    pub proof fn lemma_fits(&self)
        requires
            self.well_paired(),
            self.table_len() <= usize::MAX / 2,
        ensures
            self.in_order().len() <= self.table_len(),
    {
        crate::listing::lemma_listing_len(
            self.left_data@,
            self.right_data@,
            self.left_data@.len() as int,
        );
    }

    /// No key belongs to two pairs, and the pairs are finitely many.
    pub proof fn lemma_one_to_one(&self)
        requires
            self.well_paired(),
            Self::lawful(),
        ensures
            crate::relation::one_to_one(self@),
            self@.finite(),
    {
        self.lemma_in_order();
        vstd::seq_lib::seq_to_set_is_finite(self.in_order());
    }

    /// The pairs in order are those of the relation, without repetition.
    pub proof fn lemma_in_order(&self)
        requires
            self.well_paired(),
            Self::lawful(),
        ensures
            self.in_order().no_duplicates(),
            self.in_order().to_set() == self@,
    {
        let tabled = crate::listing::listing(
            self.left_data@,
            self.right_data@,
            self.left_data@.len() as int,
        );
        crate::listing::lemma_listing(self.left_data@, self.right_data@);
        assert forall|pair: (L, R)| #[trigger]
            self.in_order().to_set().contains(pair) == self@.contains(pair) by {
            if tabled.contains(pair) {
                let k = choose|k: int| 0 <= k < tabled.len() && tabled[k] == pair;
                assert(self.in_order()[k] == pair);
            }
            if self.spill@.contains(pair) {
                let k = choose|k: int| 0 <= k < self.spill@.len() && self.spill@[k] == pair;
                assert(self.in_order()[tabled.len() + k] == pair);
            }
            if self.in_order().contains(pair) {
                let k = choose|k: int| 0 <= k < self.in_order().len() && self.in_order()[k] == pair;
                if k < tabled.len() {
                    assert(tabled[k] == pair);
                } else {
                    assert(self.spill@[k - tabled.len()] == pair);
                }
            }
        }
        assert(self.in_order().to_set() =~= self@);
        assert forall|i: int, j: int|
            0 <= i < self.in_order().len() && 0 <= j < self.in_order().len() && i
                != j implies self.in_order()[i] != self.in_order()[j] by {
            let (low, high) = if i < j {
                (i, j)
            } else {
                (j, i)
            };
            if low < tabled.len() <= high {
                assert(tabled.contains(tabled[low]));
                assert(self.spill@.contains(self.spill@[high - tabled.len()]));
                assert(self.spill@.to_set().contains(self.spill@[high - tabled.len()]));
            }
        }
    }
}

impl<'a, L, R, LH, RH, B> IntoIterator for &'a BiMap<L, R, LH, RH, B> {
    type Item = (&'a L, &'a R);

    type IntoIter = std::vec::IntoIter<(&'a L, &'a R)>;

    fn into_iter(self) -> (pairs: Self::IntoIter)
        ensures
            self.well_paired() ==> {
                &&& crate::listing::referents(vstd::std_specs::iter::IteratorSpec::remaining(&pairs))
                    == self.in_order()
                &&& BiMap::<L, R, LH, RH, B>::lawful() ==> self.in_order().no_duplicates()
                    && self.in_order().to_set() == self@
            },
    {
        let mut pairs = borrow_pairs(&self.left_data, &self.right_data);
        let ghost tabled = pairs@;
        assert(crate::listing::referents(tabled) + self.spill@.take(0)
            =~= crate::listing::referents(tabled));
        let mut next: usize = 0;
        while next < self.spill.len()
            invariant
                next <= self.spill.len(),
                crate::listing::referents(pairs@) == crate::listing::referents(tabled)
                    + self.spill@.take(next as int),
            decreases self.spill.len() - next,
        {
            let ghost before = pairs@;
            pairs.push((&self.spill[next].0, &self.spill[next].1));
            proof {
                assert(crate::listing::referents(pairs@) =~= crate::listing::referents(before).push(
                    self.spill@[next as int],
                ));
                assert(self.spill@.take(next + 1) =~= self.spill@.take(next as int).push(
                    self.spill@[next as int],
                ));
            }
            next = next + 1;
        }
        proof {
            assert(self.spill@.take(next as int) =~= self.spill@);
            if self.well_paired() && BiMap::<L, R, LH, RH, B>::lawful() {
                self.lemma_in_order();
            }
        }
        pairs.into_iter()
    }
}

impl<L, R, LH, RH, B> IntoIterator for BiMap<L, R, LH, RH, B> {
    type Item = (L, R);

    type IntoIter = std::vec::IntoIter<(L, R)>;

    fn into_iter(self) -> (pairs: Self::IntoIter)
        ensures
            self.well_paired() ==> {
                &&& vstd::std_specs::iter::IteratorSpec::remaining(&pairs) == self.in_order()
                &&& BiMap::<L, R, LH, RH, B>::lawful() ==> self.in_order().no_duplicates()
                    && self.in_order().to_set() == self@
            },
    {
        proof {
            if self.well_paired() && BiMap::<L, R, LH, RH, B>::lawful() {
                self.lemma_in_order();
            }
        }
        let mut pairs = into_pairs(self.left_data, self.right_data);
        let mut spill = self.spill;
        pairs.append(&mut spill);
        pairs.into_iter()
    }
}

impl<L, R, LH, RH, B> BiMap<L, R, LH, RH, B> where
    L: Hash + Eq,
    R: Hash + Eq,
    LH: BuildHasher,
    RH: BuildHasher,
    B: BitField,
 {
    /// Every key is filed under a bucket that it hashes to.
    pub closed spec fn well_homed(&self) -> bool {
        &&& crate::lookup::homed(self.left_data@, self.left_hasher)
        &&& crate::lookup::homed(self.right_data@, self.right_hasher)
    }

    /// Every key is on record, within the neighbourhood of the bucket that it hashes to, and nothing
    /// else is.
    pub closed spec fn well_placed(&self) -> bool {
        &&& crate::table::side_wf(self.left_data@)
        &&& crate::table::side_wf(self.right_data@)
        &&& self.well_homed()
    }

    /// Left and right keys are compared by equivalences, and equal ones hash alike.
    pub open spec fn congruent(&self) -> bool {
        &&& crate::hashing::congruent::<L, LH>(self.hashers().0)
        &&& crate::hashing::congruent::<R, RH>(self.hashers().1)
    }

    /// The tables are short enough to be doubled.
    pub open spec fn can_grow(&self) -> bool {
        self.table_len() <= usize::MAX / 2
    }

    /// No two keys of a side are equal.
    pub closed spec fn told_apart(&self) -> bool {
        self.congruent() && self.can_grow() ==> {
            &&& crate::lookup::distinct_by(self.left_data@, crate::hashing::equality::<L>())
            &&& crate::lookup::distinct_by(self.right_data@, crate::hashing::equality::<R>())
        }
    }

    /// What holds of a map between any two calls.
    pub open spec fn wf(&self) -> bool {
        &&& self.well_paired()
        &&& self.untouched() || (self.well_placed() && self.told_apart())
    }

    /// Also in a map that no key has been put into, every key is well placed.
    proof fn lemma_well_placed(&self)
        requires
            self.wf(),
        ensures
            self.well_placed(),
            self.told_apart(),
    {
        if self.untouched() {
            crate::pairing::lemma_empty_side(self.left_data@, self.left_hasher);
            crate::pairing::lemma_empty_side(self.right_data@, self.right_hasher);
        }
    }

    /// The tables have a place for each of two keys that they do not hold.
    pub closed spec fn has_place_for(&self, left: L, right: R) -> bool {
        &&& !crate::pairing::crowded_out(self.left_data@, self.left_hasher, left)
        &&& !crate::pairing::crowded_out(self.right_data@, self.right_hasher, right)
    }

    /// The map is `before` without the pairs of two keys, in tables of the same length.
    pub open spec fn cleared_of(&self, before: Self, left: L, right: R) -> bool {
        &&& self.wf()
        &&& self.hashers() == before.hashers()
        &&& self.table_len() == before.table_len()
        &&& self@ == crate::relation::without(before@, left, right)
    }

    /// The tables of `after` are longer than those of this map exactly if these had no place for two
    /// keys once the pairs of either were gone.
    pub open spec fn grows_for_want_of_place(&self, after: Self, left: L, right: R) -> bool {
        exists|between: Self| #[trigger]
            between.cleared_of(*self, left, right) && (after.table_len() == self.table_len()
                <==> between.has_place_for(left, right))
    }

    /// The map has half as many places as `larger`, fewer of its pairs, and no place for one that it
    /// lacks.
    pub open spec fn too_small_for(&self, larger: Self, pair: (L, R)) -> bool {
        &&& self.wf()
        &&& self.hashers() == larger.hashers()
        &&& 2 * self.table_len() == larger.table_len()
        &&& self@.subset_of(larger@)
        &&& larger@.contains(pair)
        &&& !self@.contains(pair)
        &&& !self.has_place_for(pair.0, pair.1)
    }

    /// The tables are as long as they are because some of the pairs left another without a place in
    /// tables of half the length.
    pub open spec fn outgrew_half(&self) -> bool {
        exists|half: Self, pair: (L, R)| #[trigger] half.too_small_for(*self, pair)
    }

    /// With more pairs in tables of the same length, these still had to be as long as they are.
    proof fn lemma_outgrew_half(&self, fuller: Self)
        requires
            self.outgrew_half(),
            fuller.hashers() == self.hashers(),
            fuller.table_len() == self.table_len(),
            self@.subset_of(fuller@),
        ensures
            fuller.outgrew_half(),
    {
        let (half, pair) = choose|half: Self, pair: (L, R)| #[trigger]
            half.too_small_for(*self, pair);
        assert(half.too_small_for(fuller, pair));
    }

    /// No pair has a key that equals one of two.
    pub open spec fn lacks_equals(&self, left: L, right: R) -> bool {
        &&& crate::relation::lacks_left_by(self@, left, crate::hashing::equality::<L>())
        &&& crate::relation::lacks_right_by(self@, right, crate::hashing::equality::<R>())
    }

    /// No two pairs have equal keys.
    pub proof fn lemma_one_to_one_by(&self)
        requires
            self.wf(),
            self.congruent(),
            self.can_grow(),
        ensures
            crate::relation::one_to_one_by(
                self@,
                crate::hashing::equality::<L>(),
                crate::hashing::equality::<R>(),
            ),
            self.in_order().no_duplicates(),
            self.in_order().to_set() == self@,
            self@.finite(),
    {
        self.lemma_well_placed();
        let lefts = self.left_data@;
        let rights = self.right_data@;
        assert forall|p: (L, R), q: (L, R)|
            #![trigger self@.contains(p), self@.contains(q)]
            self@.contains(p) && self@.contains(q) && (p.0.eq_spec(&q.0) || p.1.eq_spec(
                &q.1,
            )) implies p == q by {
            let i = choose|i: int| #[trigger]
                crate::lookup::pair_at(lefts, rights, i, p.0, p.1);
            let j = choose|j: int| #[trigger]
                crate::lookup::pair_at(lefts, rights, j, q.0, q.1);
            assert(crate::table::linked_at(lefts, rights, i));
            assert(crate::table::linked_at(lefts, rights, j));
            assert(!crate::table::unpaired(lefts, i));
            assert(!crate::table::unpaired(lefts, j));
            assert(crate::lookup::holds(lefts, i, p.0));
            assert(crate::lookup::holds(lefts, j, q.0));
            assert(crate::lookup::holds(rights, lefts[i].data->0.pair as int, p.1));
            assert(crate::lookup::holds(rights, lefts[j].data->0.pair as int, q.1));
        }
        crate::lookup::lemma_distinct(lefts);
        crate::listing::lemma_listing(lefts, rights);
        let list = crate::listing::listing(lefts, rights, lefts.len() as int);
        assert(self.in_order() =~= list);
        assert forall|pair: (L, R)| #[trigger]
            self.in_order().to_set().contains(pair) == self@.contains(pair) by {
            assert(list.contains(pair) == self.tabled().contains(pair));
        }
        assert(self.in_order().to_set() =~= self@);
        vstd::seq_lib::seq_to_set_is_finite(self.in_order());
    }

    /// Where no pair has an equal key, no table does.
    proof fn lemma_lacks_equals(&self, left: L, right: R)
        requires
            self.wf(),
            self.congruent(),
            self.lacks_equals(left, right),
        ensures
            crate::lookup::absent_by(self.left_data@, left, crate::hashing::equality::<L>()),
            crate::lookup::absent_by(self.right_data@, right, crate::hashing::equality::<R>()),
    {
        let lefts = self.left_data@;
        let rights = self.right_data@;
        assert forall|i: int, held: L| #[trigger]
            crate::lookup::holds(lefts, i, held) implies !held.eq_spec(&left) && !left.eq_spec(
            &held,
        ) by {
            crate::pairing::lemma_held(lefts, rights, i, held);
            let r = rights[lefts[i].data->0.pair as int].data->0.key;
            assert(self@.contains((held, r)));
        }
        assert forall|j: int, held: R| #[trigger]
            crate::lookup::holds(rights, j, held) implies !held.eq_spec(&right) && !right.eq_spec(
            &held,
        ) by {
            crate::pairing::lemma_held(rights, lefts, j, held);
            let l = lefts[rights[j].data->0.pair as int].data->0.key;
            crate::pairing::lemma_flip(lefts, rights, l, held);
            assert(self@.contains((l, held)));
        }
    }

    /// Each of two keys may hash to a bucket in whose neighbourhood a place is free.
    closed spec fn has_gap_for(&self, left: L, right: R) -> bool {
        &&& crate::pairing::has_gap(self.left_data@, self.left_hasher, left)
        &&& crate::pairing::has_gap(self.right_data@, self.right_hasher, right)
    }

    /// Two keys hash to one bucket each.
    closed spec fn homes_known(&self, left: L, right: R) -> bool {
        let len = self.left_data@.len() as int;
        &&& crate::hashing::has_one_home::<L, L, LH>(self.left_hasher, &left, len)
        &&& crate::hashing::has_one_home::<R, R, RH>(self.right_hasher, &right, len)
    }

    /// The map is finite, and has room for any two keys while it holds fewer pairs than a table and
    /// a neighbourhood have places.
    pub proof fn lemma_room(&self, left: L, right: R)
        requires
            self.wf(),
            Self::lawful() || (self.congruent() && self.can_grow()),
        ensures
            self@.finite(),
            self@.len() < self.table_len() && self@.len() < B::width() ==> self.has_place_for(
                left,
                right,
            ),
    {
        self.lemma_well_placed();
        if Self::lawful() {
            self.lemma_in_order();
        } else {
            self.lemma_one_to_one_by();
            crate::lookup::lemma_distinct(self.left_data@);
            crate::lookup::lemma_distinct(self.right_data@);
        }
        vstd::seq_lib::seq_to_set_is_finite(self.in_order());
        assert(self.tabled().subset_of(self@));
        vstd::set_lib::lemma_len_subset(self.tabled(), self@);
        if self@.len() < self.table_len() && self@.len() < B::width() {
            crate::pairing::lemma_room(
                self.left_data@,
                self.right_data@,
                self.left_hasher,
                self.right_hasher,
                left,
                right,
            );
        }
    }

    /// Two keys that hash to one bucket each, with a free place in its neighbourhood, have a place.
    proof fn lemma_gap_suffices(&self, left: L, right: R)
        requires
            self.wf(),
            self.has_gap_for(left, right),
            self.homes_known(left, right),
        ensures
            self.has_place_for(left, right),
    {
        self.lemma_well_placed();
        crate::pairing::lemma_gap_suffices(self.left_data@, self.left_hasher, left);
        crate::pairing::lemma_gap_suffices(self.right_data@, self.right_hasher, right);
    }

    /// The left keys of the pairs and `left` hash to different buckets, and so do the right keys and
    /// `right`: their hashes differ by no whole number of turns around the tables.
    pub open spec fn keys_apart(&self, left: L, right: R) -> bool {
        let len = self.table_len() as int;
        &&& forall|p: (L, R), q: (L, R)|
            #![trigger self@.contains(p), self@.contains(q)]
            self@.contains(p) && self@.contains(q) && p != q ==> {
                &&& crate::hashing::hashes_apart(self.hashers().0, p.0, q.0, len)
                &&& crate::hashing::hashes_apart(self.hashers().1, p.1, q.1, len)
            }
        &&& forall|p: (L, R)| #[trigger]
            self@.contains(p) ==> {
                &&& crate::hashing::hashes_apart(self.hashers().0, p.0, left, len)
                &&& crate::hashing::hashes_apart(self.hashers().1, p.1, right, len)
            }
    }

    /// What the predicates on a map say of its tables.
    pub proof fn lemma_tables(&self, left: L, right: R)
        ensures
            self.table_len() == self.left_table().len(),
            self.consistent() <==> {
                &&& self.left_table().len() == self.right_table().len()
                &&& crate::lookup::in_step(self.left_table(), self.right_table())
                &&& crate::lookup::in_step(self.right_table(), self.left_table())
            },
            self.well_homed() <==> {
                &&& crate::lookup::homed(self.left_table(), self.hashers().0)
                &&& crate::lookup::homed(self.right_table(), self.hashers().1)
            },
            self.well_filed() <==> {
                &&& crate::lookup::hashed(self.left_table(), self.hashers().0)
                &&& crate::lookup::hashed(self.right_table(), self.hashers().1)
            },
            self.has_place_for(left, right) <==> {
                &&& !crate::pairing::crowded_out(self.left_table(), self.hashers().0, left)
                &&& !crate::pairing::crowded_out(self.right_table(), self.hashers().1, right)
            },
    {
    }

    /// Where the keys of a well-formed map are.
    pub proof fn lemma_well_formed(&self)
        requires
            self.wf(),
        ensures
            self.left_table().len() == self.right_table().len() == self.table_len(),
            crate::pairing::paired(self.left_table(), self.right_table()),
            crate::table::side_wf(self.left_table()),
            crate::table::side_wf(self.right_table()),
            self.well_homed(),
            self.can_grow() ==> self@ == crate::pairing::table_pairs(
                self.left_table(),
                self.right_table(),
            ),
    {
        self.lemma_well_placed();
        if self.can_grow() {
            assert(self@ =~= self.tabled());
        }
    }

    /// Keys that hash to buckets of their own have a place while there are fewer pairs than places.
    pub proof fn lemma_keys_apart(&self, left: L, right: R)
        requires
            self.wf(),
            Self::lawful() || (self.congruent() && self.can_grow()),
            self.keys_apart(left, right),
            self@.len() < self.table_len(),
        ensures
            self.has_place_for(left, right),
    {
        self.lemma_well_placed();
        self.lemma_room(left, right);
        if !Self::lawful() {
            crate::lookup::lemma_distinct(self.left_data@);
            crate::lookup::lemma_distinct(self.right_data@);
        }
        let lefts = self.left_data@;
        let rights = self.right_data@;
        assert(self.tabled().subset_of(self@));
        vstd::set_lib::lemma_len_subset(self.tabled(), self@);
        crate::pairing::lemma_flip_len(lefts, rights);
        assert forall|i: int, a: L| #[trigger] crate::lookup::holds(lefts, i, a) implies self@.contains(
            (a, rights[lefts[i].data->0.pair as int].data->0.key),
        ) by {
            crate::pairing::lemma_held(lefts, rights, i, a);
        }
        assert forall|j: int, b: R| #[trigger] crate::lookup::holds(rights, j, b) implies self@.contains(
            (lefts[rights[j].data->0.pair as int].data->0.key, b),
        ) by {
            crate::pairing::lemma_held(rights, lefts, j, b);
            let l = lefts[rights[j].data->0.pair as int].data->0.key;
            crate::pairing::lemma_flip(lefts, rights, l, b);
        }
        crate::pairing::lemma_spread_out(
            lefts,
            rights,
            self.left_hasher,
            self.right_hasher,
            left,
        );
        crate::pairing::lemma_spread_out(
            rights,
            lefts,
            self.right_hasher,
            self.left_hasher,
            right,
        );
    }

    /// Removes the pair of a left key.
    fn take_left<Q: ?Sized>(&mut self, left: &Q) -> (taken: Option<(L, R)>) where
        L: Borrow<Q>,
        Q: Hash + Eq,

        requires
            old(self).wf(),
        ensures
            final(self).wf(),
            final(self).hashers() == old(self).hashers(),
            final(self).table_len() == old(self).table_len(),
            Self::lawful() ==> match taken {
                Some(pair) => {
                    &&& crate::hashing::sole_match(pair.0, left)
                    &&& final(self)@ == old(self)@.remove(pair)
                },
                None => crate::relation::lacks_left(old(self)@, left),
            },
            match taken {
                Some(pair) => {
                    &&& old(self)@.contains(pair)
                    &&& final(self)@.subset_of(old(self)@)
                    &&& old(self).table_len() <= usize::MAX / 2 ==> final(self).has_gap_for(
                        pair.0,
                        pair.1,
                    )
                },
                None => *final(self) == *old(self),
            },
            old(self).congruent() && old(self).can_grow() ==> forall|other: L| #[trigger]
                crate::hashing::key_matches(other, left) ==> match taken {
                    Some(pair) => {
                        &&& pair.0.eq_spec(&other)
                        &&& final(self)@ == old(self)@.remove(pair)
                    },
                    None => crate::relation::lacks_left_by(
                        old(self)@,
                        other,
                        crate::hashing::equality::<L>(),
                    ),
                },
            old(self).untouched() ==> taken is None,
            old(self).congruent() ==> forall|other: L| #[trigger]
                crate::hashing::key_matches(other, left) ==> crate::hashing::has_one_home::<
                    L,
                    L,
                    LH,
                >(final(self).hashers().0, &other, final(self).table_len() as int),
            Self::lawful() ==> crate::hashing::has_one_home::<L, Q, LH>(
                final(self).hashers().0,
                left,
                final(self).table_len() as int,
            ),
    {
        proof {
            self.lemma_well_placed();
        }
        let ghost lefts = self.left_data@;
        let ghost rights = self.right_data@;
        match crate::lookup::remove(left, &mut self.left_data, &mut self.right_data, &self.left_hasher) {
            Some((l, r)) => {
                proof {
                    crate::pairing::lemma_taken_out(
                        lefts,
                        rights,
                        self.left_data@,
                        self.right_data@,
                        l,
                        r,
                        self.left_hasher,
                        self.right_hasher,
                    );
                    crate::pairing::lemma_vacated_pair(
                        lefts,
                        rights,
                        self.left_data@,
                        self.right_data@,
                        l,
                        r,
                        self.left_hasher,
                        self.right_hasher,
                    );
                    assert(old(self).tabled().contains((l, r)));
                    assert(self@.subset_of(old(self)@));
                    if Self::lawful() {
                        assert(self@ =~= old(self)@.remove((l, r)));
                        crate::relation::lemma_subset_one_to_one(old(self)@, self@);
                    }
                }
                Some((l, r))
            },
            None => {
                proof {
                    if Self::lawful() {
                        self.lemma_left_missing(left);
                    }
                }
                match find_left(left, &self.spill) {
                    Some(index) => Some(self.take_spilled(index)),
                    None => {
                        proof {
                            if Self::lawful() {
                                self.lemma_left_spill_missing(left);
                            }
                        }
                        None
                    },
                }
            },
        }
    }

    /// Removes the pair of a right key.
    fn take_right<Q: ?Sized>(&mut self, right: &Q) -> (taken: Option<(L, R)>) where
        R: Borrow<Q>,
        Q: Hash + Eq,

        requires
            old(self).wf(),
        ensures
            final(self).wf(),
            final(self).hashers() == old(self).hashers(),
            final(self).table_len() == old(self).table_len(),
            Self::lawful() ==> match taken {
                Some(pair) => {
                    &&& crate::hashing::sole_match(pair.1, right)
                    &&& final(self)@ == old(self)@.remove(pair)
                },
                None => crate::relation::lacks_right(old(self)@, right),
            },
            match taken {
                Some(pair) => {
                    &&& old(self)@.contains(pair)
                    &&& final(self)@.subset_of(old(self)@)
                    &&& old(self).table_len() <= usize::MAX / 2 ==> final(self).has_gap_for(
                        pair.0,
                        pair.1,
                    )
                },
                None => *final(self) == *old(self),
            },
            old(self).congruent() && old(self).can_grow() ==> forall|other: R| #[trigger]
                crate::hashing::key_matches(other, right) ==> match taken {
                    Some(pair) => {
                        &&& pair.1.eq_spec(&other)
                        &&& final(self)@ == old(self)@.remove(pair)
                    },
                    None => crate::relation::lacks_right_by(
                        old(self)@,
                        other,
                        crate::hashing::equality::<R>(),
                    ),
                },
            old(self).untouched() ==> taken is None,
            old(self).congruent() ==> forall|other: R| #[trigger]
                crate::hashing::key_matches(other, right) ==> crate::hashing::has_one_home::<
                    R,
                    R,
                    RH,
                >(final(self).hashers().1, &other, final(self).table_len() as int),
            Self::lawful() ==> crate::hashing::has_one_home::<R, Q, RH>(
                final(self).hashers().1,
                right,
                final(self).table_len() as int,
            ),
    {
        proof {
            self.lemma_well_placed();
        }
        let ghost lefts = self.left_data@;
        let ghost rights = self.right_data@;
        match crate::lookup::remove(
            right,
            &mut self.right_data,
            &mut self.left_data,
            &self.right_hasher,
        ) {
            Some((r, l)) => {
                proof {
                    crate::pairing::lemma_taken_out(
                        rights,
                        lefts,
                        self.right_data@,
                        self.left_data@,
                        r,
                        l,
                        self.right_hasher,
                        self.left_hasher,
                    );
                    crate::pairing::lemma_vacated_pair(
                        rights,
                        lefts,
                        self.right_data@,
                        self.left_data@,
                        r,
                        l,
                        self.right_hasher,
                        self.left_hasher,
                    );
                    crate::pairing::lemma_flip(lefts, rights, l, r);
                    assert(old(self).tabled().contains((l, r)));
                    assert forall|pair: (L, R)| #[trigger]
                        self.tabled().contains(pair) implies old(self).tabled().contains(pair) by {
                        crate::pairing::lemma_flip(lefts, rights, pair.0, pair.1);
                        crate::pairing::lemma_flip(
                            self.left_data@,
                            self.right_data@,
                            pair.0,
                            pair.1,
                        );
                    }
                    assert(self@.subset_of(old(self)@));
                    if old(self).congruent() && old(self).can_grow() {
                        crate::lookup::lemma_distinct(rights);
                    }
                    if crate::lookup::distinct(rights) {
                        assert forall|pair: (L, R)| #[trigger]
                            self.tabled().contains(pair) == old(self).tabled().remove(
                                (l, r),
                            ).contains(pair) by {
                            crate::pairing::lemma_flip(lefts, rights, pair.0, pair.1);
                            crate::pairing::lemma_flip(
                                self.left_data@,
                                self.right_data@,
                                pair.0,
                                pair.1,
                            );
                        }
                        assert(self.tabled() =~= old(self).tabled().remove((l, r)));
                        if old(self).can_grow() {
                            assert(self@ =~= old(self)@.remove((l, r)));
                        }
                    }
                    if Self::lawful() {
                        assert(self@ =~= old(self)@.remove((l, r)));
                        crate::relation::lemma_subset_one_to_one(old(self)@, self@);
                    }
                }
                Some((l, r))
            },
            None => {
                proof {
                    if Self::lawful() {
                        self.lemma_right_missing(right);
                    }
                    if old(self).congruent() && old(self).can_grow() {
                        assert forall|other: R| #[trigger]
                            crate::hashing::key_matches(
                                other,
                                right,
                            ) implies crate::relation::lacks_right_by(
                            self@,
                            other,
                            crate::hashing::equality::<R>(),
                        ) by {
                            self.lemma_right_absent(other);
                        }
                    }
                }
                match find_right(right, &self.spill) {
                    Some(index) => Some(self.take_spilled(index)),
                    None => {
                        proof {
                            if Self::lawful() {
                                self.lemma_right_spill_missing(right);
                            }
                        }
                        None
                    },
                }
            },
        }
    }

    /// Inserts a pair. Returned is who was paired with the left key before, and who with the right
    /// key; pairs that either of them belonged to are gone.
    pub fn insert(&mut self, left: L, right: R) -> (former: (Option<R>, Option<L>))
        requires
            old(self).wf(),
        ensures
            final(self).wf(),
            final(self).hashers() == old(self).hashers(),
            final(self).table_len() >= old(self).table_len(),
            Self::lawful() ==> {
                &&& final(self)@ == crate::relation::with_pair(old(self)@, left, right)
                &&& final(self)@.contains((left, right))
                &&& former.0 == crate::relation::right_of(old(self)@, left)
                &&& former.1 == crate::relation::left_of(old(self)@, right)
            },
            Self::lawful() && !crate::relation::has_left(old(self)@, left)
                && !crate::relation::has_right(old(self)@, right) && old(self).table_len()
                <= usize::MAX / 2 ==> (final(self).table_len() == old(self).table_len()
                <==> old(self).has_place_for(left, right)),
            Self::lawful() && old(self).table_len() <= usize::MAX / 2
                ==> old(self).grows_for_want_of_place(*final(self), left, right),
            Self::lawful() && old(self)@.contains((left, right)) ==> final(self).table_len()
                == old(self).table_len(),
            Self::lawful() && crate::relation::without(old(self)@, left, right).len() < old(
                self,
            ).table_len() && crate::relation::without(old(self)@, left, right).len() < B::width()
                ==> final(self).table_len() == old(self).table_len(),
            Self::lawful() && crate::relation::with_pair(old(self)@, left, right).len()
                <= old(self).pairs_without_growth() ==> final(self).table_len()
                == old(self).table_len(),
            Self::lawful() ==> final(self).table_len() == old(self).table_len()
                || final(self).outgrew_half(),
            old(self).congruent() && final(self).can_grow() ==> {
                &&& final(self)@ == crate::relation::with_pair_by(
                    old(self)@,
                    left,
                    right,
                    crate::hashing::equality::<L>(),
                    crate::hashing::equality::<R>(),
                )
                &&& crate::relation::found_right_by(
                    old(self)@,
                    left,
                    former.0,
                    crate::hashing::equality::<L>(),
                )
                &&& crate::relation::found_left_by(
                    old(self)@,
                    right,
                    former.1,
                    crate::hashing::equality::<R>(),
                )
            },
            old(self).congruent() && old(self).can_grow() && old(self).lacks_equals(left, right)
                ==> (final(self).table_len() == old(self).table_len() <==> old(self).has_place_for(
                left,
                right,
            )),
            old(self).congruent() && old(self).can_grow() && crate::relation::with_pair_by(
                old(self)@,
                left,
                right,
                crate::hashing::equality::<L>(),
                crate::hashing::equality::<R>(),
            ).len() <= old(self).pairs_without_growth() ==> final(self).table_len() == old(
                self,
            ).table_len(),
            ((Self::lawful() && !crate::relation::has_left(old(self)@, left)
                && !crate::relation::has_right(old(self)@, right)) || (old(self).congruent()
                && old(self).can_grow() && old(self).lacks_equals(left, right)))
                && old(self).keys_apart(left, right) && old(self)@.len() < old(self).table_len()
                ==> final(self).table_len() == old(self).table_len(),
            final(self).pairs_without_growth() >= old(self).pairs_without_growth(),
            final(self)@.subset_of(old(self)@.insert((left, right))),
            final(self).table_len() == old(self).table_len() ==> final(self)@.contains(
                (left, right),
            ),
            former.0 is Some ==> crate::relation::has_right(old(self)@, former.0->0),
            former.1 is Some ==> crate::relation::has_left(old(self)@, former.1->0),
            old(self).untouched() ==> former == (None::<R>, None::<L>),
        decreases usize::MAX - old(self).table_len(), 1int,
    {
        let former = self.take_both(&left, &right);
        proof {
            if Self::lawful() || (self.congruent() && self.can_grow()) {
                self.lemma_room(left, right);
                if self.keys_apart(left, right) && self@.len() < self.table_len() {
                    self.lemma_keys_apart(left, right);
                }
            }
        }
        let ghost crowded = *self;
        assert(Self::lawful() ==> crowded.cleared_of(*old(self), left, right));
        if let Some((left, right)) = self.place(left, right) {
            let len: usize = self.left_data.len();
            if len <= usize::MAX / 2 {
                self.grow(left, right, Ghost(crowded));
            } else {
                self.spill_over(left, right);
            }
        }
        former
    }

    /// Keeps a pair of keys that belong to none, and for which the tables have no place.
    fn spill_over(&mut self, left: L, right: R)
        requires
            old(self).wf(),
            old(self).table_len() > usize::MAX / 2,
            Self::lawful() ==> !crate::relation::has_left(old(self)@, left),
            Self::lawful() ==> !crate::relation::has_right(old(self)@, right),
        ensures
            final(self).wf(),
            final(self).hashers() == old(self).hashers(),
            final(self).table_len() == old(self).table_len(),
            final(self)@ == old(self)@.insert((left, right)),
    {
        proof {
            self.lemma_well_placed();
            crate::spill::lemma_push(self.spill@, (left, right));
            if Self::lawful() {
                assert(!self@.contains((left, right)));
                crate::relation::lemma_insert_one_to_one(self@, left, right);
            }
        }
        self.spill.push((left, right));
        assert(self@ =~= old(self)@.insert((left, right)));
    }

    /// The tables are of one length, every key in them is on record, and partners point at each other.
    pub closed spec fn consistent(&self) -> bool {
        &&& self.left_data@.len() == self.right_data@.len()
        &&& crate::lookup::in_step(self.left_data@, self.right_data@)
        &&& crate::lookup::in_step(self.right_data@, self.left_data@)
    }

    /// Every key hashes to no bucket but the one that it is filed under.
    pub closed spec fn well_filed(&self) -> bool {
        &&& crate::lookup::hashed(self.left_data@, self.left_hasher)
        &&& crate::lookup::hashed(self.right_data@, self.right_hasher)
    }

    /// Checks the tables: that they are of one length, that every key hashes to the bucket it is
    /// filed under and is on record there, and that partners point at each other.
    pub fn invariants(&self) -> (ok: bool)
        ensures
            ok ==> self.consistent(),
            (Self::lawful() || self.congruent()) && ok ==> self.well_filed(),
            (Self::lawful() || self.congruent()) && self.well_homed() ==> ok == self.consistent(),
            (Self::lawful() || self.congruent()) && self.wf() ==> ok,
    {
        let ok = self.left_data.len() == self.right_data.len() && check_side(
            &self.left_data,
            &self.right_data,
            &self.left_hasher,
        ) && check_side(&self.right_data, &self.left_data, &self.right_hasher);
        proof {
            if self.wf() {
                self.lemma_well_placed();
                assert forall|i: int|
                    0 <= i < self.left_data@.len() implies #[trigger] crate::lookup::in_step_at(
                    self.left_data@,
                    self.right_data@,
                    i,
                ) by {
                    assert(crate::table::recorded_at(self.left_data@, i));
                    assert(crate::table::linked_at(self.left_data@, self.right_data@, i));
                    assert(!crate::table::unpaired(self.left_data@, i));
                }
                assert forall|i: int|
                    0 <= i < self.right_data@.len() implies #[trigger] crate::lookup::in_step_at(
                    self.right_data@,
                    self.left_data@,
                    i,
                ) by {
                    assert(crate::table::recorded_at(self.right_data@, i));
                    assert(crate::table::linked_at(self.right_data@, self.left_data@, i));
                    assert(!crate::table::unpaired(self.right_data@, i));
                }
            }
        }
        ok
    }

    /// Looks up the right key that is paired with a left key.
    pub fn get_left<'a, Q: ?Sized>(&'a self, left: &Q) -> (right: Option<&'a R>) where
        L: Borrow<Q>,
        Q: Hash + Eq,

        requires
            self.wf(),
        ensures
            Self::lawful() ==> crate::relation::found_right(
                self@,
                left,
                match right {
                    Some(right) => Some(*right),
                    None => None,
                },
            ),
            self.congruent() && self.can_grow() ==> forall|owned: L| #[trigger]
                crate::hashing::key_matches(owned, left) ==> crate::relation::found_right_by(
                    self@,
                    owned,
                    match right {
                        Some(right) => Some(*right),
                        None => None,
                    },
                    crate::hashing::equality::<L>(),
                ),
            right is Some ==> crate::relation::has_right(self@, *right->0),
            self.untouched() ==> right is None,
    {
        proof {
            self.lemma_well_placed();
        }
        match crate::lookup::get(left, &self.left_data, &self.right_data, &self.left_hasher) {
            Some(right) => {
                proof {
                    assert(!self.untouched() && crate::relation::has_right(self@, *right)) by {
                        let (i, l) = choose|i: int, l: L| #[trigger]
                            crate::lookup::pair_at(
                                self.left_data@,
                                self.right_data@,
                                i,
                                l,
                                *right,
                            );
                        assert(!self.left_data@[i].is_empty());
                        assert(self@.contains((l, *right)));
                    }
                    if self.congruent() && self.can_grow() {
                        assert forall|owned: L| #[trigger]
                            crate::hashing::key_matches(
                                owned,
                                left,
                            ) implies crate::relation::leads_to_right_by(
                            self@,
                            owned,
                            *right,
                            crate::hashing::equality::<L>(),
                        ) by {
                            let (i, l) = choose|i: int, l: L| #[trigger]
                                crate::lookup::pair_at(
                                    self.left_data@,
                                    self.right_data@,
                                    i,
                                    l,
                                    *right,
                                ) && l.eq_spec(&owned);
                            assert(self@.contains((l, *right)));
                        }
                    }
                    if Self::lawful() {
                        let (i, l) = choose|i: int, l: L| #[trigger]
                            crate::lookup::pair_at(
                                self.left_data@,
                                self.right_data@,
                                i,
                                l,
                                *right,
                            ) && crate::hashing::sole_match(l, left);
                        assert(crate::pairing::related(
                            self.left_data@,
                            self.right_data@,
                            l,
                            *right,
                        ));
                        assert(self@.contains((l, *right)));
                    }
                }
                Some(right)
            },
            None => {
                proof {
                    if Self::lawful() {
                        self.lemma_left_missing(left);
                    }
                }
                match find_left(left, &self.spill) {
                    Some(index) => {
                        let right = &self.spill[index].1;
                        proof {
                            let l = self.spill@[index as int].0;
                            assert(self.spill@.contains((l, *right)));
                            assert(self@.contains((l, *right)));
                        }
                        Some(right)
                    },
                    None => {
                        proof {
                            if Self::lawful() {
                                self.lemma_left_spill_missing(left);
                            }
                        }
                        None
                    },
                }
            },
        }
    }

    /// Looks up the left key that is paired with a right key.
    pub fn get_right<'a, Q: ?Sized>(&'a self, right: &Q) -> (left: Option<&'a L>) where
        R: Borrow<Q>,
        Q: Hash + Eq,

        requires
            self.wf(),
        ensures
            Self::lawful() ==> crate::relation::found_left(
                self@,
                right,
                match left {
                    Some(left) => Some(*left),
                    None => None,
                },
            ),
            self.congruent() && self.can_grow() ==> forall|owned: R| #[trigger]
                crate::hashing::key_matches(owned, right) ==> crate::relation::found_left_by(
                    self@,
                    owned,
                    match left {
                        Some(left) => Some(*left),
                        None => None,
                    },
                    crate::hashing::equality::<R>(),
                ),
            left is Some ==> crate::relation::has_left(self@, *left->0),
            self.untouched() ==> left is None,
    {
        proof {
            self.lemma_well_placed();
        }
        match crate::lookup::get(right, &self.right_data, &self.left_data, &self.right_hasher) {
            Some(left) => {
                proof {
                    assert(!self.untouched() && crate::relation::has_left(self@, *left)) by {
                        let (j, r) = choose|j: int, r: R| #[trigger]
                            crate::lookup::pair_at(
                                self.right_data@,
                                self.left_data@,
                                j,
                                r,
                                *left,
                            );
                        assert(!self.right_data@[j].is_empty());
                        crate::pairing::lemma_flip(self.left_data@, self.right_data@, *left, r);
                        assert(self@.contains((*left, r)));
                    }
                    if self.congruent() && self.can_grow() {
                        assert forall|owned: R| #[trigger]
                            crate::hashing::key_matches(
                                owned,
                                right,
                            ) implies crate::relation::leads_to_left_by(
                            self@,
                            owned,
                            *left,
                            crate::hashing::equality::<R>(),
                        ) by {
                            let (j, r) = choose|j: int, r: R| #[trigger]
                                crate::lookup::pair_at(
                                    self.right_data@,
                                    self.left_data@,
                                    j,
                                    r,
                                    *left,
                                ) && r.eq_spec(&owned);
                            crate::pairing::lemma_flip(
                                self.left_data@,
                                self.right_data@,
                                *left,
                                r,
                            );
                            assert(self@.contains((*left, r)));
                        }
                    }
                    if Self::lawful() {
                        let (j, r) = choose|j: int, r: R| #[trigger]
                            crate::lookup::pair_at(
                                self.right_data@,
                                self.left_data@,
                                j,
                                r,
                                *left,
                            ) && crate::hashing::sole_match(r, right);
                        assert(crate::pairing::related(
                            self.right_data@,
                            self.left_data@,
                            r,
                            *left,
                        ));
                        crate::pairing::lemma_flip(self.left_data@, self.right_data@, *left, r);
                        assert(self@.contains((*left, r)));
                    }
                }
                Some(left)
            },
            None => {
                proof {
                    if Self::lawful() {
                        self.lemma_right_missing(right);
                    }
                }
                match find_right(right, &self.spill) {
                    Some(index) => {
                        let left = &self.spill[index].0;
                        proof {
                            let r = self.spill@[index as int].1;
                            assert(self.spill@.contains((*left, r)));
                            assert(self@.contains((*left, r)));
                        }
                        Some(left)
                    },
                    None => {
                        proof {
                            if Self::lawful() {
                                self.lemma_right_spill_missing(right);
                            }
                        }
                        None
                    },
                }
            },
        }
    }

    /// Removes the pair of a left key, and returns its right key.
    pub fn remove_left<Q: ?Sized>(&mut self, left: &Q) -> (right: Option<R>) where
        L: Borrow<Q>,
        Q: Hash + Eq,

        requires
            old(self).wf(),
        ensures
            final(self).wf(),
            final(self).hashers() == old(self).hashers(),
            final(self).table_len() == old(self).table_len(),
            Self::lawful() ==> match right {
                Some(right) => crate::relation::removed_by_left(
                    old(self)@,
                    final(self)@,
                    left,
                    right,
                ),
                None => {
                    &&& crate::relation::lacks_left(old(self)@, left)
                    &&& final(self)@ == old(self)@
                },
            },
            old(self).congruent() && old(self).can_grow() ==> forall|owned: L| #[trigger]
                crate::hashing::key_matches(owned, left) ==> {
                    &&& crate::relation::found_right_by(
                        old(self)@,
                        owned,
                        right,
                        crate::hashing::equality::<L>(),
                    )
                    &&& final(self)@ == crate::relation::unequal_left(
                        old(self)@,
                        owned,
                        crate::hashing::equality::<L>(),
                    )
                },
            right is Some ==> crate::relation::has_right(old(self)@, right->0),
            right is None ==> *final(self) == *old(self),
            old(self).untouched() ==> right is None,
    {
        proof {
            if self.congruent() && self.can_grow() {
                self.lemma_one_to_one_by();
            }
        }
        match self.take_left(left) {
            Some((l, right)) => {
                proof {
                    assert(old(self)@.contains((l, right)));
                    if old(self).congruent() && old(self).can_grow() {
                        assert forall|owned: L| #[trigger]
                            crate::hashing::key_matches(
                                owned,
                                left,
                            ) implies self@ == crate::relation::unequal_left(
                            old(self)@,
                            owned,
                            crate::hashing::equality::<L>(),
                        ) by {
                            crate::relation::lemma_sole_equal_left(old(self)@, (l, right), owned);
                            assert(self@ =~= crate::relation::unequal_left(
                                old(self)@,
                                owned,
                                crate::hashing::equality::<L>(),
                            ));
                        }
                    }
                }
                Some(right)
            },
            None => {
                proof {
                    if old(self).congruent() && old(self).can_grow() {
                        assert forall|owned: L| #[trigger]
                            crate::hashing::key_matches(
                                owned,
                                left,
                            ) implies self@ == crate::relation::unequal_left(
                            old(self)@,
                            owned,
                            crate::hashing::equality::<L>(),
                        ) by {
                            assert(self@ =~= crate::relation::unequal_left(
                                old(self)@,
                                owned,
                                crate::hashing::equality::<L>(),
                            ));
                        }
                    }
                }
                None
            },
        }
    }

    /// Removes the pair of a right key, and returns its left key.
    pub fn remove_right<Q: ?Sized>(&mut self, right: &Q) -> (left: Option<L>) where
        R: Borrow<Q>,
        Q: Hash + Eq,

        requires
            old(self).wf(),
        ensures
            final(self).wf(),
            final(self).hashers() == old(self).hashers(),
            final(self).table_len() == old(self).table_len(),
            Self::lawful() ==> match left {
                Some(left) => crate::relation::removed_by_right(
                    old(self)@,
                    final(self)@,
                    right,
                    left,
                ),
                None => {
                    &&& crate::relation::lacks_right(old(self)@, right)
                    &&& final(self)@ == old(self)@
                },
            },
            old(self).congruent() && old(self).can_grow() ==> forall|owned: R| #[trigger]
                crate::hashing::key_matches(owned, right) ==> {
                    &&& crate::relation::found_left_by(
                        old(self)@,
                        owned,
                        left,
                        crate::hashing::equality::<R>(),
                    )
                    &&& final(self)@ == crate::relation::unequal_right(
                        old(self)@,
                        owned,
                        crate::hashing::equality::<R>(),
                    )
                },
            left is Some ==> crate::relation::has_left(old(self)@, left->0),
            left is None ==> *final(self) == *old(self),
            old(self).untouched() ==> left is None,
    {
        proof {
            if self.congruent() && self.can_grow() {
                self.lemma_one_to_one_by();
            }
        }
        match self.take_right(right) {
            Some((left, r)) => {
                proof {
                    assert(old(self)@.contains((left, r)));
                    if old(self).congruent() && old(self).can_grow() {
                        assert forall|owned: R| #[trigger]
                            crate::hashing::key_matches(
                                owned,
                                right,
                            ) implies self@ == crate::relation::unequal_right(
                            old(self)@,
                            owned,
                            crate::hashing::equality::<R>(),
                        ) by {
                            crate::relation::lemma_sole_equal_right(old(self)@, (left, r), owned);
                            assert(self@ =~= crate::relation::unequal_right(
                                old(self)@,
                                owned,
                                crate::hashing::equality::<R>(),
                            ));
                        }
                    }
                }
                Some(left)
            },
            None => {
                proof {
                    if old(self).congruent() && old(self).can_grow() {
                        assert forall|owned: R| #[trigger]
                            crate::hashing::key_matches(
                                owned,
                                right,
                            ) implies self@ == crate::relation::unequal_right(
                            old(self)@,
                            owned,
                            crate::hashing::equality::<R>(),
                        ) by {
                            assert(self@ =~= crate::relation::unequal_right(
                                old(self)@,
                                owned,
                                crate::hashing::equality::<R>(),
                            ));
                        }
                    }
                }
                None
            },
        }
    }

    /// Inserts a pair of keys that belong to none, if the tables have a place for both.
    fn place(&mut self, left: L, right: R) -> (rejected: Option<(L, R)>)
        requires
            old(self).wf(),
            Self::lawful() ==> !crate::relation::has_left(old(self)@, left),
            Self::lawful() ==> !crate::relation::has_right(old(self)@, right),
            old(self).congruent() && old(self).can_grow() ==> old(self).lacks_equals(left, right),
        ensures
            final(self).wf(),
            final(self).hashers() == old(self).hashers(),
            final(self).table_len() == old(self).table_len(),
            match rejected {
                None => {
                    &&& final(self)@ == old(self)@.insert((left, right))
                    &&& old(self).homes_known(left, right) ==> old(self).has_place_for(left, right)
                },
                Some(pair) => {
                    &&& pair == (left, right)
                    &&& !old(self).has_place_for(left, right)
                    &&& final(self)@ == old(self)@
                },
            },
    {
        proof {
            self.lemma_well_placed();
        }
        let ghost lefts = self.left_data@;
        let ghost rights = self.right_data@;
        proof {
            if Self::lawful() {
                assert forall|i: int| !#[trigger] crate::lookup::holds(lefts, i, left) by {
                    if crate::lookup::holds(lefts, i, left) {
                        crate::pairing::lemma_held(lefts, rights, i, left);
                        let r = rights[lefts[i].data->0.pair as int].data->0.key;
                        assert(self@.contains((left, r)));
                    }
                }
                assert forall|j: int| !#[trigger] crate::lookup::holds(rights, j, right) by {
                    if crate::lookup::holds(rights, j, right) {
                        crate::pairing::lemma_held(rights, lefts, j, right);
                        let l = lefts[rights[j].data->0.pair as int].data->0.key;
                        crate::pairing::lemma_flip(lefts, rights, l, right);
                        assert(self@.contains((l, right)));
                    }
                }
                crate::relation::lemma_insert_one_to_one(self@, left, right);
                assert(!self@.contains((left, right)));
            }
            if self.congruent() && self.can_grow() {
                self.lemma_lacks_equals(left, right);
            }
        }
        let rejected = insert_pair(
            left,
            right,
            &mut self.left_data,
            &mut self.right_data,
            &self.left_hasher,
            &self.right_hasher,
        );
        proof {
            if rejected is None {
                assert(self@ =~= old(self)@.insert((left, right)));
            } else {
                assert(self@ =~= old(self)@);
            }
            crate::hashing::lemma_key_matches_itself(left, left);
            crate::hashing::lemma_key_matches_itself(right, right);
        }
        rejected
    }

    /// Doubles the tables and fills them anew, with a further pair of keys that belong to none and
    /// that the map had no place for as it was in `crowded`.
    fn grow(&mut self, left: L, right: R, Ghost(crowded): Ghost<Self>)
        requires
            old(self).wf(),
            old(self).table_len() <= usize::MAX / 2,
            crowded.wf(),
            crowded.hashers() == old(self).hashers(),
            crowded.table_len() == old(self).table_len(),
            !crowded.has_place_for(left, right),
            Self::lawful() ==> crowded@ == old(self)@,
            old(self).congruent() ==> old(self).lacks_equals(left, right),
            Self::lawful() ==> !crate::relation::has_left(old(self)@, left),
            Self::lawful() ==> !crate::relation::has_right(old(self)@, right),
        ensures
            final(self).wf(),
            final(self).hashers() == old(self).hashers(),
            final(self).table_len() >= 2 * old(self).table_len(),
            Self::lawful() ==> final(self)@ == old(self)@.insert((left, right)),
            old(self).congruent() && final(self).can_grow() ==> final(self)@ == old(self)@.insert(
                (left, right),
            ),
            final(self)@.subset_of(old(self)@.insert((left, right))),
            Self::lawful() ==> final(self).outgrew_half(),
        decreases usize::MAX - old(self).table_len(), 0int,
    {
        let ghost before = self@;
        proof {
            self.lemma_well_placed();
            crate::listing::lemma_listing_within(self.left_data@, self.right_data@);
            if self.congruent() {
                self.lemma_one_to_one_by();
                crate::lookup::lemma_distinct(self.left_data@);
            }
        }
        let len: usize = self.left_data.len();
        let mut left_data = Bucket::empty_vec(2 * len);
        let mut right_data = Bucket::empty_vec(2 * len);
        std::mem::swap(&mut self.left_data, &mut left_data);
        std::mem::swap(&mut self.right_data, &mut right_data);
        proof {
            assert(is_table_len(len as nat));
            assert(is_table_len((2 * len) as nat));
            self.lemma_untouched();
            if Self::lawful() || old(self).congruent() {
                crate::listing::lemma_listing(left_data@, right_data@);
            }
        }
        let pairs = into_pairs(left_data, right_data);
        let ghost list = pairs@;
        self.insert(left, right);
        proof {
            if Self::lawful() || (old(self).congruent() && self.can_grow()) {
                assert(self@ =~= Set::empty().insert((left, right)));
            }
        }
        for pair in it: pairs.into_iter()
            invariant
                it.seq() == list,
                self.wf(),
                len == old(self).table_len(),
                self.table_len() >= 2 * len,
                0 < len,
                self.hashers() == old(self).hashers(),
                Self::lawful() ==> {
                    &&& self@ == list.take(it.index()).to_set().insert((left, right))
                    &&& list.no_duplicates()
                    &&& forall|p: (L, R)| #[trigger] list.contains(p) <==> before.contains(p)
                    &&& crate::relation::one_to_one(before)
                    &&& !crate::relation::has_left(before, left)
                    &&& !crate::relation::has_right(before, right)
                    &&& self.table_len() == 2 * len || self.outgrew_half()
                },
                forall|p: (L, R)| #[trigger] list.contains(p) ==> before.contains(p),
                self@.subset_of(before.insert((left, right))),
                self.congruent() ==> {
                    &&& list.no_duplicates()
                    &&& forall|p: (L, R)| #[trigger] list.contains(p) <==> before.contains(p)
                    &&& crate::relation::one_to_one_by(
                        before,
                        crate::hashing::equality::<L>(),
                        crate::hashing::equality::<R>(),
                    )
                    &&& crate::relation::lacks_left_by(
                        before,
                        left,
                        crate::hashing::equality::<L>(),
                    )
                    &&& crate::relation::lacks_right_by(
                        before,
                        right,
                        crate::hashing::equality::<R>(),
                    )
                },
                self.congruent() && self.can_grow() ==> self@ == list.take(
                    it.index(),
                ).to_set().insert((left, right)),
        {
            let ghost earlier = *self;
            let (l, r) = pair;
            proof {
                let done = it.index() as int;
                assert(list[done] == (l, r));
                assert(list.contains((l, r)));
                if Self::lawful() || (self.congruent() && self.can_grow()) {
                    assert(list.take(done + 1) =~= list.take(done).push((l, r)));
                    crate::spill::lemma_push(list.take(done), (l, r));
                    assert(self@.insert((l, r)) =~= list.take(done + 1).to_set().insert(
                        (left, right),
                    ));
                }
                if self.congruent() && self.can_grow() {
                    lemma_next_by(list, done, before, left, right);
                }
                if Self::lawful() {
                    lemma_next(list, done, before, left, right);
                    crate::relation::lemma_insert_one_to_one(self@, l, r);
                }
            }
            self.insert(l, r);
            proof {
                if Self::lawful() && earlier.outgrew_half() && self.table_len()
                    == earlier.table_len() {
                    earlier.lemma_outgrew_half(*self);
                }
            }
        }
        proof {
            assert(list.take(list.len() as int) =~= list);
            if old(self).congruent() && self.can_grow() {
                assert(self@ =~= before.insert((left, right)));
            }
            if Self::lawful() {
                assert(self@ =~= before.insert((left, right)));
                if self.table_len() == 2 * len {
                    assert(!before.contains((left, right)));
                    assert(crowded.too_small_for(*self, (left, right)));
                }
            }
        }
    }

    /// Removes the pairs of a left and of a right key, and returns who their partners were.
    fn take_both(&mut self, left: &L, right: &R) -> (former: (Option<R>, Option<L>))
        requires
            old(self).wf(),
        ensures
            final(self).wf(),
            final(self).hashers() == old(self).hashers(),
            final(self).table_len() == old(self).table_len(),
            Self::lawful() ==> {
                &&& final(self)@ == crate::relation::without(old(self)@, *left, *right)
                &&& final(self).homes_known(*left, *right)
                &&& former.0 == crate::relation::right_of(old(self)@, *left)
                &&& former.1 == crate::relation::left_of(old(self)@, *right)
            },
            Self::lawful() && !crate::relation::has_left(old(self)@, *left)
                && !crate::relation::has_right(old(self)@, *right) ==> *final(self) == *old(self),
            Self::lawful() && old(self)@.contains((*left, *right)) && old(self).table_len()
                <= usize::MAX / 2 ==> final(self).has_place_for(*left, *right),
            final(self)@.subset_of(old(self)@),
            old(self).congruent() && old(self).can_grow() ==> {
                &&& final(self).homes_known(*left, *right)
                &&& old(self).lacks_equals(*left, *right) ==> *final(self) == *old(self)
                &&& final(self)@ == crate::relation::without_by(
                    old(self)@,
                    *left,
                    *right,
                    crate::hashing::equality::<L>(),
                    crate::hashing::equality::<R>(),
                )
                &&& crate::relation::found_right_by(
                    old(self)@,
                    *left,
                    former.0,
                    crate::hashing::equality::<L>(),
                )
                &&& crate::relation::found_left_by(
                    old(self)@,
                    *right,
                    former.1,
                    crate::hashing::equality::<R>(),
                )
            },
            former.0 is Some ==> crate::relation::has_right(old(self)@, former.0->0),
            former.1 is Some ==> crate::relation::has_left(old(self)@, former.1->0),
            old(self).untouched() ==> former == (None::<R>, None::<L>),
    {
        let ghost before = self@;
        let ghost equals = self.congruent() && self.can_grow();
        proof {
            crate::hashing::lemma_key_matches_itself(*left, *left);
            crate::hashing::lemma_key_matches_itself(*right, *right);
            if equals {
                self.lemma_one_to_one_by();
            }
        }
        match self.take_left(left) {
            Some((old_left, old_right)) => {
                let ghost between = self@;
                proof {
                    assert(before.contains((old_left, old_right)));
                    if equals {
                        crate::relation::lemma_sole_equal_left(before, (old_left, old_right), *left);
                        crate::relation::lemma_sole_equal_right(before, (old_left, old_right), *right);
                    }
                    if Self::lawful() {
                        crate::hashing::lemma_key_matches_itself(old_left, *left);
                        crate::hashing::lemma_key_matches_itself(old_right, *right);
                        crate::relation::lemma_partner(before, old_left, old_right);
                    }
                }
                let same: bool = matches_query(&old_right, right);
                match self.take_right(right) {
                    Some((other_left, other_right)) => {
                        proof {
                            assert(before.contains((other_left, other_right)));
                            if equals {
                                crate::relation::lemma_sole_equal_right(before, (other_left, other_right), *right);
                                assert(self@ =~= crate::relation::without_by(
                                    before,
                                    *left,
                                    *right,
                                    crate::hashing::equality::<L>(),
                                    crate::hashing::equality::<R>(),
                                ));
                            }
                            if Self::lawful() {
                                crate::hashing::lemma_key_matches_itself(other_right, *right);
                                crate::relation::lemma_partner(before, other_left, *right);
                                assert(self@ =~= crate::relation::without(before, *left, *right));
                            }
                        }
                        (Some(old_right), Some(other_left))
                    },
                    None => {
                        proof {
                            if equals {
                                assert(self@ =~= crate::relation::without_by(
                                    before,
                                    *left,
                                    *right,
                                    crate::hashing::equality::<L>(),
                                    crate::hashing::equality::<R>(),
                                ));
                            }
                            if Self::lawful() {
                                lemma_no_right(between, *right);
                                assert(self@ =~= crate::relation::without(before, *left, *right));
                                if same && self.table_len() <= usize::MAX / 2 {
                                    self.lemma_gap_suffices(*left, *right);
                                }
                            }
                        }
                        if same {
                            (Some(old_right), Some(old_left))
                        } else {
                            proof {
                                if Self::lawful() {
                                    assert forall|l: L| !#[trigger] before.contains((l, *right)) by {
                                        assert(!between.contains((l, *right)));
                                    }
                                }
                            }
                            (Some(old_right), None)
                        }
                    },
                }
            },
            None => {
                proof {
                    if Self::lawful() {
                        lemma_no_left(before, *left);
                    }
                }
                match self.take_right(right) {
                    Some((other_left, other_right)) => {
                        proof {
                            assert(before.contains((other_left, other_right)));
                            if equals {
                                crate::relation::lemma_sole_equal_right(before, (other_left, other_right), *right);
                                assert(self@ =~= crate::relation::without_by(
                                    before,
                                    *left,
                                    *right,
                                    crate::hashing::equality::<L>(),
                                    crate::hashing::equality::<R>(),
                                ));
                            }
                            if Self::lawful() {
                                crate::hashing::lemma_key_matches_itself(other_right, *right);
                                crate::relation::lemma_partner(before, other_left, *right);
                                assert(self@ =~= crate::relation::without(before, *left, *right));
                            }
                        }
                        (None, Some(other_left))
                    },
                    None => {
                        proof {
                            if equals {
                                assert(self@ =~= crate::relation::without_by(
                                    before,
                                    *left,
                                    *right,
                                    crate::hashing::equality::<L>(),
                                    crate::hashing::equality::<R>(),
                                ));
                            }
                            if Self::lawful() {
                                lemma_no_right(before, *right);
                                assert(self@ =~= crate::relation::without(before, *left, *right));
                            }
                        }
                        (None, None)
                    },
                }
            },
        }
    }

    /// Removes a pair from the spill.
    fn take_spilled(&mut self, index: usize) -> (taken: (L, R))
        requires
            old(self).wf(),
            index < old(self).spill@.len(),
        ensures
            final(self).wf(),
            final(self).hashers() == old(self).hashers(),
            final(self).table_len() == old(self).table_len(),
            taken == old(self).spill@[index as int],
            old(self)@.contains(taken),
            final(self)@.subset_of(old(self)@),
            Self::lawful() ==> final(self)@ == old(self)@.remove(taken),
    {
        proof {
            self.lemma_well_placed();
        }
        let taken = self.spill.remove(index);
        proof {
            assert(old(self).spill@.contains(taken));
            assert forall|pair: (L, R)|
                self.spill@.contains(pair) implies #[trigger] old(self).spill@.contains(pair) by {
                let i = choose|i: int| 0 <= i < self.spill@.len() && self.spill@[i] == pair;
                assert(old(self).spill@[if i < index { i } else { i + 1 }] == pair);
            }
            if Self::lawful() {
                crate::spill::lemma_remove(old(self).spill@, index as int);
                assert(self@ =~= old(self)@.remove(taken));
                crate::relation::lemma_subset_one_to_one(old(self)@, self@);
            }
        }
        taken
    }

    /// A query that no key of the left table matches is matched by no pair in the tables.
    proof fn lemma_left_missing<Q: ?Sized>(&self, left: &Q)
        requires
            self.wf(),
            crate::lookup::missing(self.left_data@, left),
        ensures
            crate::relation::lacks_left(self.tabled(), left),
    {
        assert forall|pair: (L, R)| #[trigger]
            self.tabled().contains(pair) implies !crate::hashing::key_matches(pair.0, left) by {
            let i = choose|i: int| #[trigger]
                crate::lookup::pair_at(self.left_data@, self.right_data@, i, pair.0, pair.1);
            assert(crate::lookup::holds(self.left_data@, i, pair.0));
        }
    }

    /// A right key that none of the right table equals is equalled by no pair.
    proof fn lemma_right_absent(&self, right: R)
        requires
            self.wf(),
            self.can_grow(),
            crate::lookup::absent_by(self.right_data@, right, crate::hashing::equality::<R>()),
        ensures
            crate::relation::lacks_right_by(self@, right, crate::hashing::equality::<R>()),
    {
        assert forall|pair: (L, R)| #[trigger]
            self@.contains(pair) implies !pair.1.eq_spec(&right) by {
            let i = choose|i: int| #[trigger]
                crate::lookup::pair_at(self.left_data@, self.right_data@, i, pair.0, pair.1);
            let j = self.left_data@[i].data->0.pair as int;
            assert(crate::lookup::holds(self.right_data@, j, pair.1));
        }
    }

    /// A query that no left key in the tables or in the spill matches is matched by no pair.
    proof fn lemma_left_spill_missing<Q: ?Sized>(&self, left: &Q)
        requires
            crate::relation::lacks_left(self.tabled(), left),
            forall|i: int|
                0 <= i < self.spill@.len() ==> !crate::hashing::key_matches(
                    #[trigger] self.spill[i].0,
                    left,
                ),
        ensures
            crate::relation::lacks_left(self@, left),
    {
        assert forall|pair: (L, R)| #[trigger]
            self@.contains(pair) implies !crate::hashing::key_matches(pair.0, left) by {
            if self.spill@.contains(pair) {
                let i = choose|i: int| 0 <= i < self.spill@.len() && self.spill@[i] == pair;
                assert(self.spill[i].0 == pair.0);
            }
        }
    }

    /// A query that no right key in the tables or in the spill matches is matched by no pair.
    proof fn lemma_right_spill_missing<Q: ?Sized>(&self, right: &Q)
        requires
            crate::relation::lacks_right(self.tabled(), right),
            forall|i: int|
                0 <= i < self.spill@.len() ==> !crate::hashing::key_matches(
                    #[trigger] self.spill[i].1,
                    right,
                ),
        ensures
            crate::relation::lacks_right(self@, right),
    {
        assert forall|pair: (L, R)| #[trigger]
            self@.contains(pair) implies !crate::hashing::key_matches(pair.1, right) by {
            if self.spill@.contains(pair) {
                let i = choose|i: int| 0 <= i < self.spill@.len() && self.spill@[i] == pair;
                assert(self.spill[i].1 == pair.1);
            }
        }
    }

    /// A query that no key of the right table matches is matched by no pair in the tables.
    proof fn lemma_right_missing<Q: ?Sized>(&self, right: &Q)
        requires
            self.wf(),
            crate::lookup::missing(self.right_data@, right),
        ensures
            crate::relation::lacks_right(self.tabled(), right),
    {
        assert forall|pair: (L, R)| #[trigger]
            self.tabled().contains(pair) implies !crate::hashing::key_matches(pair.1, right) by {
            let i = choose|i: int| #[trigger]
                crate::lookup::pair_at(self.left_data@, self.right_data@, i, pair.0, pair.1);
            let j = self.left_data@[i].data->0.pair as int;
            assert(crate::lookup::holds(self.right_data@, j, pair.1));
        }
    }
}

/// A left key that no pair matches belongs to none.
proof fn lemma_no_left<L, R>(relation: Set<(L, R)>, left: L)
    requires
        crate::relation::lacks_left(relation, &left),
    ensures
        !crate::relation::has_left(relation, left),
        forall|pair: (L, R)| #[trigger] relation.contains(pair) ==> pair.0 != left,
{
    assert forall|pair: (L, R)| #[trigger] relation.contains(pair) implies pair.0 != left by {
        crate::hashing::lemma_key_matches_itself(pair.0, left);
    }
}

/// A right key that no pair matches belongs to none.
proof fn lemma_no_right<L, R>(relation: Set<(L, R)>, right: R)
    requires
        crate::relation::lacks_right(relation, &right),
    ensures
        !crate::relation::has_right(relation, right),
        forall|pair: (L, R)| #[trigger] relation.contains(pair) ==> pair.1 != right,
{
    assert forall|pair: (L, R)| #[trigger] relation.contains(pair) implies pair.1 != right by {
        crate::hashing::lemma_key_matches_itself(pair.1, right);
    }
}

/// While a one-to-one relation is filled in pair by pair, the keys of the next pair belong to none.
proof fn lemma_next<L, R>(
    list: Seq<(L, R)>,
    done: int,
    relation: Set<(L, R)>,
    left: L,
    right: R,
)
    requires
        0 <= done < list.len(),
        list.no_duplicates(),
        forall|p: (L, R)| #[trigger] list.contains(p) <==> relation.contains(p),
        crate::relation::one_to_one(relation),
        !crate::relation::has_left(relation, left),
        !crate::relation::has_right(relation, right),
    ensures
        ({
            let filled = list.take(done).to_set().insert((left, right));
            &&& crate::relation::one_to_one(filled)
            &&& !crate::relation::has_left(filled, list[done].0)
            &&& !crate::relation::has_right(filled, list[done].1)
        }),
{
    let part = list.take(done).to_set();
    let filled = part.insert((left, right));
    let next = list[done];
    assert(list.contains(next));
    assert(relation.contains((next.0, next.1)));
    assert forall|p: (L, R)| #[trigger] part.contains(p) implies {
        &&& relation.contains(p)
        &&& p != next
    } by {
        let i = choose|i: int| 0 <= i < done && list.take(done)[i] == p;
        assert(list[i] == p);
        assert(list.contains(p));
    }
    crate::relation::lemma_subset_one_to_one(relation, part);
    assert(!crate::relation::has_left(part, left));
    assert(!crate::relation::has_right(part, right));
    crate::relation::lemma_insert_one_to_one(part, left, right);
    assert forall|r: R| !#[trigger] filled.contains((next.0, r)) by {
        if part.contains((next.0, r)) {
            assert(relation.contains((next.0, r)));
        }
    }
    assert forall|l: L| !#[trigger] filled.contains((l, next.1)) by {
        if part.contains((l, next.1)) {
            assert(relation.contains((l, next.1)));
        }
    }
}

/// While a relation without equal keys is filled in pair by pair, the keys of the next pair equal
/// none.
proof fn lemma_next_by<L: Hash + Eq, R: Hash + Eq>(
    list: Seq<(L, R)>,
    done: int,
    relation: Set<(L, R)>,
    left: L,
    right: R,
)
    requires
        crate::hashing::compares_lawfully::<L>(),
        crate::hashing::compares_lawfully::<R>(),
        0 <= done < list.len(),
        list.no_duplicates(),
        forall|p: (L, R)| #[trigger] list.contains(p) <==> relation.contains(p),
        crate::relation::one_to_one_by(
            relation,
            crate::hashing::equality::<L>(),
            crate::hashing::equality::<R>(),
        ),
        crate::relation::lacks_left_by(relation, left, crate::hashing::equality::<L>()),
        crate::relation::lacks_right_by(relation, right, crate::hashing::equality::<R>()),
    ensures
        ({
            let filled = list.take(done).to_set().insert((left, right));
            crate::relation::with_pair_by(
                filled,
                list[done].0,
                list[done].1,
                crate::hashing::equality::<L>(),
                crate::hashing::equality::<R>(),
            ) == filled.insert(list[done])
        }),
{
    let filled = list.take(done).to_set().insert((left, right));
    let next = list[done];
    assert(list.contains(next));
    assert forall|p: (L, R)| #[trigger] filled.contains(p) implies !p.0.eq_spec(&next.0)
        && !p.1.eq_spec(&next.1) by {
        if p != (left, right) {
            let i = choose|i: int| 0 <= i < done && list.take(done)[i] == p;
            assert(list[i] == p);
            assert(list.contains(p));
        } else {
            assert(relation.contains(next));
            assert(!next.0.eq_spec(&left));
            assert(!next.1.eq_spec(&right));
        }
    }
    assert(crate::relation::without_by(
        filled,
        next.0,
        next.1,
        crate::hashing::equality::<L>(),
        crate::hashing::equality::<R>(),
    ) =~= filled);
}

} // verus!
