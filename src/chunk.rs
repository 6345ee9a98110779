//! Fixed-capacity bit containers of indexes.
use vstd::prelude::*;

use crate::index::{IndexBackward, IndexCollection, IndexForward, IndexKey, IndexStore};

pub mod array;
pub mod unsigned;


pub use array::ArrayChunk;
pub use unsigned::UnsignedChunk;

verus! {

/// The indexes whose key is below `bits`: everything a chunk of that many bits can hold.
pub open spec fn chunk_domain<I: IndexKey>(bits: u32) -> Set<I> {
    Set::new(|i: I| i.key() < bits as int)
}

/// The indexes in exactly one of `a` and `b`.
pub open spec fn symmetric<I>(a: Set<I>, b: Set<I>) -> Set<I> {
    a.difference(b).union(b.difference(a))
}

/// A chunk of indexes: a fixed-capacity set of the indexes below `BITS`, with bitwise set operations.
pub trait IndexChunk: Copy + IndexCollection + IndexStore + IndexForward + IndexBackward {
    /// Number of bits in this chunk.
    const BITS: u32;

    /// A chunk holds only indexes below `BITS`, and admits exactly those.
    proof fn lemma_domain(&self)
        requires
            self.wf(),
        ensures
            self.contents().subset_of(chunk_domain::<Self::Index>(Self::BITS)),
            forall|i: Self::Index| Self::admits(i) <==> i.key() < Self::BITS as int,
    ;

    /// The chunk domain has exactly `BITS` indexes.
    proof fn lemma_domain_len()
        requires
            Self::constructible(),
        ensures
            chunk_domain::<Self::Index>(Self::BITS).finite(),
            chunk_domain::<Self::Index>(Self::BITS).len() == Self::BITS,
    ;

    /// `self` is the bitwise inverse of `other`, bit for bit.
    spec fn inverse_of(self, other: Self) -> bool;

    /// Inversion is symmetric.
    proof fn lemma_inverse_symmetric(a: Self, b: Self)
        ensures
            a.inverse_of(b) == b.inverse_of(a),
    ;

    /// A chunk has a single inverse.
    proof fn lemma_inverse_unique(a: Self, b: Self, c: Self)
        requires
            b.inverse_of(a),
            c.inverse_of(a),
        ensures
            b == c,
    ;

    /// The indexes in both chunks.
    fn bitand(self, other: Self) -> (r: Self)
        requires
            self.wf(),
            other.wf(),
        ensures
            r.wf(),
            r.contents() == self.contents().intersect(other.contents()),
    ;

    /// The indexes in either chunk.
    fn bitor(self, other: Self) -> (r: Self)
        requires
            self.wf(),
            other.wf(),
        ensures
            r.wf(),
            r.contents() == self.contents().union(other.contents()),
    ;

    /// The indexes in exactly one chunk.
    fn bitxor(self, other: Self) -> (r: Self)
        requires
            self.wf(),
            other.wf(),
        ensures
            r.wf(),
            r.contents() == symmetric(self.contents(), other.contents()),
    ;

    /// The indexes in `self` but not in `other`.
    fn sub(self, other: Self) -> (r: Self)
        requires
            self.wf(),
            other.wf(),
        ensures
            r.wf(),
            r.contents() == self.contents().difference(other.contents()),
    ;

    /// Keeps the indexes that `other` holds too.
    fn bitand_assign(&mut self, other: Self)
        requires
            old(self).wf(),
            other.wf(),
        ensures
            final(self).wf(),
            final(self).contents() == old(self).contents().intersect(other.contents()),
    ;

    /// Adds the indexes of `other`.
    fn bitor_assign(&mut self, other: Self)
        requires
            old(self).wf(),
            other.wf(),
        ensures
            final(self).wf(),
            final(self).contents() == old(self).contents().union(other.contents()),
    ;

    /// Keeps the indexes exactly one of the chunks holds.
    fn bitxor_assign(&mut self, other: Self)
        requires
            old(self).wf(),
            other.wf(),
        ensures
            final(self).wf(),
            final(self).contents() == symmetric(old(self).contents(), other.contents()),
    ;

    /// Removes the indexes of `other`.
    fn sub_assign(&mut self, other: Self)
        requires
            old(self).wf(),
            other.wf(),
        ensures
            final(self).wf(),
            final(self).contents() == old(self).contents().difference(other.contents()),
    ;

    /// The indexes below `BITS` that are not in `self`.
    fn not(self) -> (r: Self)
        requires
            self.wf(),
        ensures
            r.wf(),
            r.contents() == chunk_domain::<Self::Index>(Self::BITS).difference(self.contents()),
            r.inverse_of(self),
    ;
}

} // verus!
