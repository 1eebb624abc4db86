//! The buckets that a table is made of.
use crate::bitfield::BitField;
use vstd::prelude::*;

verus! {

/// A key held by a bucket.
#[derive(Debug)]
pub struct Entry<K> {
    /// The key itself.
    pub key: K,
    /// Where the key's partner is in the opposite table; `usize::MAX` while it has none.
    pub pair: usize,
    /// The bucket that the key hashes to.
    pub ideal: usize,
}

/// One place of a table.
#[derive(Debug)]
pub struct Bucket<K, B> {
    /// How far behind this bucket the keys are that hash to it.
    pub neighbourhood: B,
    /// The key that is held here, whatever bucket it hashes to.
    pub data: Option<Entry<K>>,
}

impl<K, B: BitField> Bucket<K, B> {
    /// Whether the bucket holds no key and no key hashes to it.
    pub open spec fn is_empty(self) -> bool {
        &&& self.data is None
        &&& forall|o: int| 0 <= o < B::width() ==> !#[trigger] self.neighbourhood.bit(o)
    }

    /// Builds a table of `len` empty buckets.
    pub fn empty_vec(len: usize) -> (table: Vec<Self>)
        ensures
            table.len() == len,
            forall|i: int| 0 <= i < len ==> (#[trigger] table[i]).is_empty(),
    {
        let mut table: Vec<Self> = Vec::new();
        while table.len() < len
            invariant
                table.len() <= len,
                forall|i: int| 0 <= i < table.len() ==> (#[trigger] table[i]).is_empty(),
            decreases len - table.len(),
        {
            table.push(Bucket { neighbourhood: B::zeros(), data: None });
        }
        table
    }
}

} // verus!
