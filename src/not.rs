//! Negated views: the complement of a view, without copying it.
use vstd::prelude::*;

use crate::chunk::{chunk_domain, IndexChunk};

use crate::index::{
    above, below, greatest, least, lemma_greatest_unique, lemma_least_unique, nth_above, nth_below, IndexBackward,
    IndexBackwardChunked, IndexForward, IndexForwardChunked, IndexOrdered, IndexOrderedChunked, IndexVault,
    IndexView, IndexViewChunked,
};

verus! {

/// A view of the indexes that the wrapped view does not contain.
#[derive(Clone, Copy, Debug)]
pub struct NotView<S>(S);

impl<S> NotView<S> {
    /// The wrapped view.
    pub closed spec fn view_of(&self) -> S {
        self.0
    }

    /// Wraps a view.
    pub fn new(view: S) -> (r: Self)
        ensures
            r.view_of() == view,
    {
        NotView(view)
    }

    /// Returns the wrapped view.
    pub fn as_view(&self) -> (r: &S)
        ensures
            *r == self.view_of(),
    {
        &self.0
    }

    /// Returns the wrapped view, mutably.
    pub fn as_view_mut(&mut self) -> (r: &mut S)
        ensures
            *r == old(self).view_of(),
            final(self).view_of() == *final(r),
    {
        &mut self.0
    }

    /// Returns the wrapped view.
    pub fn into_view(self) -> (r: S)
        ensures
            r == self.view_of(),
    {
        self.0
    }
}

/// A view which can report how many indexes it does not contain, out of its capacity.
pub trait IndexViewNot: IndexView {
    /// How many indexes the view can address.
    spec fn capacity(&self) -> nat;

    /// The view holds no more indexes than it can address.
    proof fn lemma_capacity(&self)
        requires
            self.wf(),
        ensures
            self.count() <= self.capacity(),
    ;

    /// Returns the number of indexes not contained, out of the capacity.
    fn len_not(&self) -> (r: usize)
        requires
            self.wf(),
        ensures
            r + self.count() == self.capacity(),
    ;
}

impl<'a, T: IndexViewNot> IndexViewNot for &'a T {
    open spec fn capacity(&self) -> nat {
        (**self).capacity()
    }

    proof fn lemma_capacity(&self) {
        (**self).lemma_capacity()
    }

    fn len_not(&self) -> (r: usize) {
        (**self).len_not()
    }
}

/// Forward traversal of the indexes a view does not contain, by ascending key.
pub trait IndexForwardNot: IndexForward + IndexViewNot {
    /// Returns the least index not contained, if any.
    fn first_not(&self) -> (r: Option<Self::Index>)
        requires
            self.wf(),
        ensures
            least(self.contents().complement(), r),
    ;

    /// Returns the least index not contained strictly after the provided one, if any.
    fn next_after_not(&self, current: Self::Index) -> (r: Option<Self::Index>)
        requires
            self.wf(),
        ensures
            least(above(self.contents().complement(), current), r),
    ;

    /// Returns the n-th index not contained after the provided one, or the number of steps still missing.
    fn nth_after_not(&self, n: usize, current: Self::Index) -> (r: Result<Self::Index, usize>)
        requires
            self.wf(),
            n < usize::MAX,
        ensures
            match r {
                Ok(i) => nth_above(self.contents().complement(), current, n as nat) == Ok::<
                    Self::Index,
                    nat,
                >(i),
                Err(k) => k >= 1 && nth_above(self.contents().complement(), current, n as nat) == Err::<
                    Self::Index,
                    nat,
                >(k as nat),
            },
    {
        let ghost start = current;
        let mut cursor = current;
        let mut i: usize = 0;
        while i < n
            invariant
                self.wf(),
                i <= n < usize::MAX,
                start == current,
                nth_above(self.contents().complement(), start, n as nat) == nth_above(
                    self.contents().complement(),
                    cursor,
                    (n - i) as nat,
                ),
            decreases n - i,
        {
            let next = self.next_after_not(cursor);
            proof {
                lemma_least_unique(self.contents().complement(), cursor, next);
            }
            match next {
                Some(x) => {
                    cursor = x;
                },
                None => {
                    assert(nth_above(self.contents().complement(), cursor, (n - i) as nat) == Err::<
                        Self::Index,
                        nat,
                    >((n - i + 1) as nat));
                    return Err(n - i + 1);
                },
            }
            i = i + 1;
        }
        let next = self.next_after_not(cursor);
        proof {
            lemma_least_unique(self.contents().complement(), cursor, next);
        }
        match next {
            Some(x) => Ok(x),
            None => Err(1),
        }
    }
}

/// Backward traversal of the indexes a view does not contain, by descending key.
pub trait IndexBackwardNot: IndexBackward + IndexViewNot {
    /// Returns the greatest index not contained, if any.
    fn last_not(&self) -> (r: Option<Self::Index>)
        requires
            self.wf(),
        ensures
            greatest(self.contents().complement(), r),
    ;

    /// Returns the greatest index not contained strictly before the provided one, if any.
    fn next_before_not(&self, current: Self::Index) -> (r: Option<Self::Index>)
        requires
            self.wf(),
        ensures
            greatest(below(self.contents().complement(), current), r),
    ;

    /// Returns the n-th index not contained before the provided one, or the number of steps still missing.
    fn nth_before_not(&self, n: usize, current: Self::Index) -> (r: Result<Self::Index, usize>)
        requires
            self.wf(),
            n < usize::MAX,
        ensures
            match r {
                Ok(i) => nth_below(self.contents().complement(), current, n as nat) == Ok::<
                    Self::Index,
                    nat,
                >(i),
                Err(k) => k >= 1 && nth_below(self.contents().complement(), current, n as nat) == Err::<
                    Self::Index,
                    nat,
                >(k as nat),
            },
    {
        let ghost start = current;
        let mut cursor = current;
        let mut i: usize = 0;
        while i < n
            invariant
                self.wf(),
                i <= n < usize::MAX,
                start == current,
                nth_below(self.contents().complement(), start, n as nat) == nth_below(
                    self.contents().complement(),
                    cursor,
                    (n - i) as nat,
                ),
            decreases n - i,
        {
            let next = self.next_before_not(cursor);
            proof {
                lemma_greatest_unique(self.contents().complement(), cursor, next);
            }
            match next {
                Some(x) => {
                    cursor = x;
                },
                None => {
                    assert(nth_below(self.contents().complement(), cursor, (n - i) as nat) == Err::<
                        Self::Index,
                        nat,
                    >((n - i + 1) as nat));
                    return Err(n - i + 1);
                },
            }
            i = i + 1;
        }
        let next = self.next_before_not(cursor);
        proof {
            lemma_greatest_unique(self.contents().complement(), cursor, next);
        }
        match next {
            Some(x) => Ok(x),
            None => Err(1),
        }
    }
}

/// An ordered view of the indexes not contained.
pub trait IndexOrderedNot: IndexForwardNot + IndexOrdered {}

/// Chunk-granularity forward traversal for the negated view: the chunks are those of the view itself.
pub trait IndexForwardChunkedNot: IndexForwardChunked + IndexViewNot {
    /// Returns the first chunk index of the negated view.
    fn first_chunk_not(&self) -> (r: Option<Self::ChunkIndex>)
        requires
            self.wf(),
        ensures
            least(Set::new(|o: Self::ChunkIndex| self.chunk_at(o) is Some), r),
    ;

    /// Returns the next chunk index of the negated view after the provided one, if any.
    fn next_chunk_after_not(&self, current: Self::ChunkIndex) -> (r: Option<Self::ChunkIndex>)
        requires
            self.wf(),
        ensures
            least(above(Set::new(|o: Self::ChunkIndex| self.chunk_at(o) is Some), current), r),
    {
        self.next_chunk_after(current)
    }
}

/// Chunk-granularity backward traversal for the negated view: the chunks are those of the view itself.
pub trait IndexBackwardChunkedNot: IndexBackwardChunked + IndexViewNot {
    /// Returns the last chunk index of the negated view.
    fn last_chunk_not(&self) -> (r: Option<Self::ChunkIndex>)
        requires
            self.wf(),
        ensures
            greatest(Set::new(|o: Self::ChunkIndex| self.chunk_at(o) is Some), r),
    ;

    /// Returns the next chunk index of the negated view before the provided one, if any.
    fn next_chunk_before_not(&self, index: Self::ChunkIndex) -> (r: Option<Self::ChunkIndex>)
        requires
            self.wf(),
        ensures
            greatest(below(Set::new(|o: Self::ChunkIndex| self.chunk_at(o) is Some), index), r),
    {
        self.next_chunk_before(index)
    }
}

/// An ordered chunked view of the indexes not contained.
pub trait IndexOrderedChunkedNot: IndexForwardChunkedNot + IndexOrderedChunked {}

impl<'a, T: IndexForwardNot> IndexForwardNot for &'a T {
    fn first_not(&self) -> (r: Option<T::Index>) {
        (**self).first_not()
    }

    fn next_after_not(&self, current: T::Index) -> (r: Option<T::Index>) {
        (**self).next_after_not(current)
    }
}

impl<'a, T: IndexBackwardNot> IndexBackwardNot for &'a T {
    fn last_not(&self) -> (r: Option<T::Index>) {
        (**self).last_not()
    }

    fn next_before_not(&self, current: T::Index) -> (r: Option<T::Index>) {
        (**self).next_before_not(current)
    }
}

impl<'a, T: IndexOrderedNot> IndexOrderedNot for &'a T {}

impl<S: IndexViewNot> IndexView for NotView<S> {
    type Index = S::Index;

    open spec fn wf(&self) -> bool {
        self.view_of().wf()
    }

    open spec fn contents(&self) -> Set<S::Index> {
        self.view_of().contents().complement()
    }

    open spec fn count(&self) -> nat {
        (self.view_of().capacity() - self.view_of().count()) as nat
    }

    fn is_empty(&self) -> (r: bool) {
        self.0.len_not() == 0
    }

    fn len(&self) -> (r: usize) {
        self.0.len_not()
    }

    fn contains(&self, index: S::Index) -> (r: bool) {
        !self.0.contains(index)
    }
}

impl<S: IndexViewNot + IndexVault> IndexVault for NotView<S> {}

impl<S: IndexForwardNot> IndexForward for NotView<S> {
    fn first(&self) -> (r: Option<S::Index>) {
        self.0.first_not()
    }

    fn next_after(&self, current: S::Index) -> (r: Option<S::Index>) {
        self.0.next_after_not(current)
    }
}

impl<S: IndexBackwardNot + IndexForwardNot> IndexBackward for NotView<S> {
    fn last(&self) -> (r: Option<S::Index>) {
        self.0.last_not()
    }

    fn next_before(&self, current: S::Index) -> (r: Option<S::Index>) {
        self.0.next_before_not(current)
    }
}

impl<S: IndexOrderedNot> IndexOrdered for NotView<S> {}

/// The negated view is chunked as the view is: each chunk is inverted within its bits, and what no chunk covers
/// is negated too.
impl<S: IndexViewChunked + IndexViewNot> IndexViewChunked for NotView<S> {
    type ChunkIndex = S::ChunkIndex;
    type Chunk = S::Chunk;

    open spec fn splittable(index: S::Index) -> bool {
        S::splittable(index)
    }

    open spec fn fusable(outer: S::ChunkIndex, inner: <S::Chunk as IndexView>::Index) -> bool {
        S::fusable(outer, inner)
    }

    open spec fn spec_fuse(outer: S::ChunkIndex, inner: <S::Chunk as IndexView>::Index) -> S::Index {
        S::spec_fuse(outer, inner)
    }

    open spec fn spec_split(index: S::Index) -> (S::ChunkIndex, <S::Chunk as IndexView>::Index) {
        S::spec_split(index)
    }

    open spec fn chunk_at(&self, outer: S::ChunkIndex) -> Option<Set<<S::Chunk as IndexView>::Index>> {
        match self.view_of().chunk_at(outer) {
            Some(h) => Some(
                chunk_domain::<<S::Chunk as IndexView>::Index>(<S::Chunk as IndexChunk>::BITS).difference(h),
            ),
            None => None,
        }
    }

    open spec fn beyond(&self) -> bool {
        !self.view_of().beyond()
    }

    fn fuse(outer: S::ChunkIndex, inner: <S::Chunk as IndexView>::Index) -> (r: S::Index) {
        S::fuse(outer, inner)
    }

    fn split(index: S::Index) -> (r: (S::ChunkIndex, <S::Chunk as IndexView>::Index)) {
        S::split(index)
    }

    /// The chunk of the view, inverted within its bits.
    fn get_chunk(&self, index: S::ChunkIndex) -> (r: Option<S::Chunk>) {
        match self.0.get_chunk(index) {
            Some(c) => Some(c.not()),
            None => None,
        }
    }

    proof fn lemma_split_fuse(index: S::Index) {
        S::lemma_split_fuse(index);
    }

    proof fn lemma_two_levels(&self, index: S::Index) {
        self.view_of().lemma_two_levels(index);
        if S::splittable(index) {
            S::lemma_split_fuse(index);
        }
    }
}

impl<S: IndexForwardChunkedNot> IndexForwardChunked for NotView<S> {
    fn first_chunk(&self) -> (r: Option<S::ChunkIndex>) {
        let r = self.0.first_chunk_not();
        proof {
            assert(Set::new(|o: S::ChunkIndex| self.chunk_at(o) is Some) =~= Set::new(
                |o: S::ChunkIndex| self.view_of().chunk_at(o) is Some,
            ));
        }
        r
    }

    fn next_chunk_after(&self, current: S::ChunkIndex) -> (r: Option<S::ChunkIndex>) {
        let r = self.0.next_chunk_after_not(current);
        proof {
            assert(Set::new(|o: S::ChunkIndex| self.chunk_at(o) is Some) =~= Set::new(
                |o: S::ChunkIndex| self.view_of().chunk_at(o) is Some,
            ));
        }
        r
    }
}

impl<S: IndexBackwardChunkedNot> IndexBackwardChunked for NotView<S> {
    fn last_chunk(&self) -> (r: Option<S::ChunkIndex>) {
        let r = self.0.last_chunk_not();
        proof {
            assert(Set::new(|o: S::ChunkIndex| self.chunk_at(o) is Some) =~= Set::new(
                |o: S::ChunkIndex| self.view_of().chunk_at(o) is Some,
            ));
        }
        r
    }

    fn next_chunk_before(&self, index: S::ChunkIndex) -> (r: Option<S::ChunkIndex>) {
        let r = self.0.next_chunk_before_not(index);
        proof {
            assert(Set::new(|o: S::ChunkIndex| self.chunk_at(o) is Some) =~= Set::new(
                |o: S::ChunkIndex| self.view_of().chunk_at(o) is Some,
            ));
        }
        r
    }
}

impl<S: IndexOrderedChunkedNot> IndexOrderedChunked for NotView<S> {}

} // verus!
