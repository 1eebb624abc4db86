//! Fixed-width bit sets that record which buckets of a neighbourhood are taken.
use vstd::prelude::*;

verus! {

/// The bit set a map uses when none is chosen: neighbourhoods of 32 buckets.
pub type DefaultBitField = u32;

/// A set of offsets below a fixed width.
pub trait BitField: Copy {
    /// The number of offsets that the set can hold.
    spec fn width() -> nat;

    /// Whether the offset `index` is in the set.
    spec fn bit(self, index: int) -> bool;

    /// Every bit set holds at least one offset, and its width can be counted in a `usize`.
    proof fn lemma_width()
        ensures
            0 < Self::width() <= usize::MAX,
    ;

    /// The number of offsets that the set can hold.
    fn size() -> (n: usize)
        ensures
            n == Self::width(),
    ;

    /// The set without any offset.
    fn zeros() -> (field: Self)
        ensures
            forall|i: int| 0 <= i < Self::width() ==> !#[trigger] field.bit(i),
    ;

    /// The set of every offset but `index`.
    fn zero_at(index: usize) -> (field: Self)
        requires
            index < Self::width(),
        ensures
            forall|i: int| 0 <= i < Self::width() ==> (#[trigger] field.bit(i) <==> i != index),
    ;

    /// The set of the offset `index` alone.
    fn one_at(index: usize) -> (field: Self)
        requires
            index < Self::width(),
        ensures
            forall|i: int| 0 <= i < Self::width() ==> (#[trigger] field.bit(i) <==> i == index),
    ;

    /// The union of two sets.
    fn or(self, other: Self) -> (field: Self)
        ensures
            forall|i: int|
                0 <= i < Self::width() ==> (#[trigger] field.bit(i) <==> self.bit(i) || other.bit(i)),
    ;

    /// The intersection of two sets.
    fn and(self, other: Self) -> (field: Self)
        ensures
            forall|i: int|
                0 <= i < Self::width() ==> (#[trigger] field.bit(i) <==> self.bit(i) && other.bit(i)),
    ;

    /// Whether the offset `index` is in the set.
    fn get(self, index: usize) -> (set: bool)
        requires
            index < Self::width(),
        ensures
            set == self.bit(index as int),
    ;

    /// Whether every offset is in the set.
    fn full(self) -> (full: bool)
        ensures
            full == (forall|i: int| 0 <= i < Self::width() ==> #[trigger] self.bit(i)),
    ;

    /// The offsets in the set, from the smallest to the largest.
    fn iter(self) -> (offsets: Vec<usize>)
        ensures
            forall|k: int|
                0 <= k < offsets.len() ==> #[trigger] offsets[k] < Self::width() && self.bit(
                    offsets[k] as int,
                ),
            forall|i: int|
                0 <= i < Self::width() && #[trigger] self.bit(i) ==> offsets@.contains(i as usize),
            forall|j: int, k: int| 0 <= j < k < offsets.len() ==> offsets[j] < offsets[k],
    {
        let mut offsets: Vec<usize> = Vec::new();
        let size: usize = Self::size();
        let mut next: usize = 0;
        while next < size
            invariant
                size == Self::width(),
                next <= size,
                forall|k: int|
                    0 <= k < offsets.len() ==> #[trigger] offsets[k] < next && self.bit(
                        offsets[k] as int,
                    ),
                forall|i: int| 0 <= i < next && #[trigger] self.bit(i) ==> offsets@.contains(i as usize),
                forall|j: int, k: int| 0 <= j < k < offsets.len() ==> offsets[j] < offsets[k],
            decreases size - next,
        {
            let ghost before = offsets@;
            if self.get(next) {
                offsets.push(next);
                proof {
                    assert(offsets@[before.len() as int] == next);
                    assert forall|i: int| 0 <= i <= next && #[trigger] self.bit(i) implies offsets@.contains(
                        i as usize,
                    ) by {
                        if i < next {
                            let k = choose|k: int| 0 <= k < before.len() && before[k] == i as usize;
                            assert(offsets@[k] == i as usize);
                        }
                    }
                }
            }
            next = next + 1;
        }
        offsets
    }
}

impl BitField for u8 {
    open spec fn width() -> nat {
        8
    }

    open spec fn bit(self, index: int) -> bool {
        0 <= index < 8 && (self >> (index as u8)) & 1u8 == 1u8
    }

    proof fn lemma_width() {
    }

    fn size() -> (n: usize) {
        8
    }

    fn zeros() -> (field: Self) {
        assert forall|i: int| 0 <= i < 8 implies !#[trigger] 0u8.bit(i) by {
            let j = i as u8;
            assert((0u8 >> j) & 1u8 == 0u8) by (bit_vector);
        }
        0
    }

    fn zero_at(index: usize) -> (field: Self) {
        let k: u8 = index as u8;
        assert forall|i: int| 0 <= i < 8 implies (#[trigger] (!(1u8 << k)).bit(i) <==> i != index) by {
            let j = i as u8;
            assert((!(1u8 << k) >> j) & 1u8 == 1u8 <==> j != k) by (bit_vector)
                requires
                    j < 8,
                    k < 8,
            ;
        }
        !(1u8 << k)
    }

    fn one_at(index: usize) -> (field: Self) {
        let k: u8 = index as u8;
        assert forall|i: int| 0 <= i < 8 implies (#[trigger] (1u8 << k).bit(i) <==> i == index) by {
            let j = i as u8;
            assert(((1u8 << k) >> j) & 1u8 == 1u8 <==> j == k) by (bit_vector)
                requires
                    j < 8,
                    k < 8,
            ;
        }
        1u8 << k
    }

    fn or(self, other: Self) -> (field: Self) {
        assert forall|i: int| 0 <= i < 8 implies (#[trigger] (self | other).bit(i) <==> self.bit(i)
            || other.bit(i)) by {
            let j = i as u8;
            assert(((self | other) >> j) & 1u8 == 1u8 <==> (self >> j) & 1u8 == 1u8 || (other >> j)
                & 1u8 == 1u8) by (bit_vector)
                requires
                    j < 8,
            ;
        }
        self | other
    }

    fn and(self, other: Self) -> (field: Self) {
        assert forall|i: int| 0 <= i < 8 implies (#[trigger] (self & other).bit(i) <==> self.bit(i)
            && other.bit(i)) by {
            let j = i as u8;
            assert(((self & other) >> j) & 1u8 == 1u8 <==> (self >> j) & 1u8 == 1u8 && (other >> j)
                & 1u8 == 1u8) by (bit_vector)
                requires
                    j < 8,
            ;
        }
        self & other
    }

    fn get(self, index: usize) -> (set: bool) {
        (self >> (index as u8)) & 1 == 1
    }

    fn full(self) -> (full: bool) {
        proof {
            if self == u8::MAX {
                assert forall|i: int| 0 <= i < 8 implies #[trigger] self.bit(i) by {
                    let j = i as u8;
                    assert((0xffu8 >> j) & 1u8 == 1u8) by (bit_vector)
                        requires
                            j < 8,
                    ;
                }
            } else {
                let x = self;
                let inverse = !x;
                assert(inverse != 0) by (bit_vector)
                    requires
                        x != 0xffu8,
                        inverse == !x,
                ;
                vstd::std_specs::bits::axiom_u8_trailing_zeros(inverse);
                let j = vstd::std_specs::bits::u8_trailing_zeros(inverse) as u8;
                assert((x >> j) & 1u8 == 0u8) by (bit_vector)
                    requires
                        j < 8,
                        inverse == !x,
                        (inverse >> j) & 1u8 == 1u8,
                ;
                assert(!self.bit(j as int));
            }
        }
        self == u8::MAX
    }
}

impl BitField for u32 {
    open spec fn width() -> nat {
        32
    }

    open spec fn bit(self, index: int) -> bool {
        0 <= index < 32 && (self >> (index as u32)) & 1u32 == 1u32
    }

    proof fn lemma_width() {
    }

    fn size() -> (n: usize) {
        32
    }

    fn zeros() -> (field: Self) {
        assert forall|i: int| 0 <= i < 32 implies !#[trigger] 0u32.bit(i) by {
            let j = i as u32;
            assert((0u32 >> j) & 1u32 == 0u32) by (bit_vector);
        }
        0
    }

    fn zero_at(index: usize) -> (field: Self) {
        let k: u32 = index as u32;
        assert forall|i: int| 0 <= i < 32 implies (#[trigger] (!(1u32 << k)).bit(i) <==> i != index) by {
            let j = i as u32;
            assert((!(1u32 << k) >> j) & 1u32 == 1u32 <==> j != k) by (bit_vector)
                requires
                    j < 32,
                    k < 32,
            ;
        }
        !(1u32 << k)
    }

    fn one_at(index: usize) -> (field: Self) {
        let k: u32 = index as u32;
        assert forall|i: int| 0 <= i < 32 implies (#[trigger] (1u32 << k).bit(i) <==> i == index) by {
            let j = i as u32;
            assert(((1u32 << k) >> j) & 1u32 == 1u32 <==> j == k) by (bit_vector)
                requires
                    j < 32,
                    k < 32,
            ;
        }
        1u32 << k
    }

    fn or(self, other: Self) -> (field: Self) {
        assert forall|i: int| 0 <= i < 32 implies (#[trigger] (self | other).bit(i) <==> self.bit(i)
            || other.bit(i)) by {
            let j = i as u32;
            assert(((self | other) >> j) & 1u32 == 1u32 <==> (self >> j) & 1u32 == 1u32 || (other >> j)
                & 1u32 == 1u32) by (bit_vector)
                requires
                    j < 32,
            ;
        }
        self | other
    }

    fn and(self, other: Self) -> (field: Self) {
        assert forall|i: int| 0 <= i < 32 implies (#[trigger] (self & other).bit(i) <==> self.bit(i)
            && other.bit(i)) by {
            let j = i as u32;
            assert(((self & other) >> j) & 1u32 == 1u32 <==> (self >> j) & 1u32 == 1u32 && (other >> j)
                & 1u32 == 1u32) by (bit_vector)
                requires
                    j < 32,
            ;
        }
        self & other
    }

    fn get(self, index: usize) -> (set: bool) {
        (self >> (index as u32)) & 1 == 1
    }

    fn full(self) -> (full: bool) {
        proof {
            if self == u32::MAX {
                assert forall|i: int| 0 <= i < 32 implies #[trigger] self.bit(i) by {
                    let j = i as u32;
                    assert((0xffff_ffffu32 >> j) & 1u32 == 1u32) by (bit_vector)
                        requires
                            j < 32,
                    ;
                }
            } else {
                let x = self;
                let inverse = !x;
                assert(inverse != 0) by (bit_vector)
                    requires
                        x != 0xffff_ffffu32,
                        inverse == !x,
                ;
                vstd::std_specs::bits::axiom_u32_trailing_zeros(inverse);
                let j = vstd::std_specs::bits::u32_trailing_zeros(inverse) as u32;
                assert((x >> j) & 1u32 == 0u32) by (bit_vector)
                    requires
                        j < 32,
                        inverse == !x,
                        (inverse >> j) & 1u32 == 1u32,
                ;
                assert(!self.bit(j as int));
            }
        }
        self == u32::MAX
    }
}

} // verus!
