//! Choosing how a map hashes and keeps its keys.
use crate::map::BiMap;
use crate::bitfield::{BitField, DefaultBitField};
use std::collections::hash_map::RandomState;
use std::marker::PhantomData;
use vstd::prelude::*;

verus! {

/// [`RandomState::new`] makes a hash builder with keys of its own. Nothing is claimed of them.
pub assume_specification[ RandomState::new ]() -> RandomState;

/// Whether `hasher` is one that [`RandomState::new`] may have made.
pub open spec fn randomly_seeded(hasher: RandomState) -> bool {
    call_ensures(RandomState::new, (), hasher)
}

/// Makes maps with hash builders and neighbourhoods of choice.
#[derive(Debug)]
pub struct BiMapBuilder<LH = RandomState, RH = RandomState, B = DefaultBitField> {
    /// Builds the hashers for left keys.
    left_hasher: LH,
    /// Builds the hashers for right keys.
    right_hasher: RH,
    /// The bit field that neighbourhoods are kept in.
    bitfield: PhantomData<B>,
}

impl BiMapBuilder {
    /// Starts from randomly seeded hash builders and the default neighbourhoods.
    ///
    /// What the seeds are is left to chance: the builder keeps what [`RandomState::new`] has made.
    pub fn new() -> (builder: BiMapBuilder)
        ensures
            randomly_seeded(builder.hashers().0),
            randomly_seeded(builder.hashers().1),
    {
        let random_state = RandomState::new;
        BiMapBuilder {
            left_hasher: random_state(),
            right_hasher: random_state(),
            bitfield: PhantomData,
        }
    }
}

impl<LH, RH, B> BiMapBuilder<LH, RH, B> {
    /// What builds the hashers for left and for right keys.
    pub closed spec fn hashers(&self) -> (LH, RH) {
        (self.left_hasher, self.right_hasher)
    }

    /// Chooses the hash builder for left keys.
    pub fn left_hasher<H>(self, left_hasher: H) -> (builder: BiMapBuilder<H, RH, B>)
        ensures
            builder.hashers() == (left_hasher, self.hashers().1),
    {
        BiMapBuilder { left_hasher, right_hasher: self.right_hasher, bitfield: PhantomData }
    }

    /// Chooses the hash builder for right keys.
    pub fn right_hasher<H>(self, right_hasher: H) -> (builder: BiMapBuilder<LH, H, B>)
        ensures
            builder.hashers() == (self.hashers().0, right_hasher),
    {
        BiMapBuilder { left_hasher: self.left_hasher, right_hasher, bitfield: PhantomData }
    }

    /// Chooses the bit field that neighbourhoods are kept in.
    pub fn bitfield<C>(self) -> (builder: BiMapBuilder<LH, RH, C>)
        ensures
            builder.hashers() == self.hashers(),
    {
        BiMapBuilder {
            left_hasher: self.left_hasher,
            right_hasher: self.right_hasher,
            bitfield: PhantomData,
        }
    }
}

impl<LH, RH, B: BitField> BiMapBuilder<LH, RH, B> {
    /// Makes a map without pairs.
    pub fn finish<L, R>(self) -> (map: BiMap<L, R, LH, RH, B>)
        ensures
            map.well_paired(),
            map.untouched(),
            map@ == Set::<(L, R)>::empty(),
            map.in_order() == Seq::<(L, R)>::empty(),
            map.table_len() == crate::map::DEFAULT_HASH_MAP_SIZE,
            map.hashers() == self.hashers(),
    {
        BiMap::with_hashers(self.left_hasher, self.right_hasher)
    }
}

} // verus!
