//! Capability traits for index-keyed collections.
//!
//! Each store exposes its abstract contents as a `Set` of indexes, and every operation is specified over that
//! set. Traversal is by ascending (forward) or descending (backward) key.
use vstd::prelude::*;

verus! {

/// An index: a copyable identifier with an integral key that totally orders it.
pub trait IndexKey: Copy + Sized {
    /// The integral key of the index.
    spec fn key(self) -> int;

    /// One more than the largest key any index may have.
    spec fn key_limit() -> int;

    /// Returns whether `self` is ordered strictly before `other`.
    fn precedes(self, other: Self) -> (r: bool)
        ensures
            r == (self.key() < other.key()),
    ;

    /// Returns whether `self` and `other` are the same index.
    fn same(self, other: Self) -> (r: bool)
        ensures
            r == (self == other),
    ;

    /// Keys identify indexes, and lie within `0..key_limit()`.
    proof fn lemma_key(a: Self, b: Self)
        ensures
            a.key() == b.key() <==> a == b,
            0 <= a.key() < Self::key_limit(),
    ;
}

impl IndexKey for u8 {
    open spec fn key(self) -> int {
        self as int
    }

    open spec fn key_limit() -> int {
        0x100
    }

    fn precedes(self, other: Self) -> (r: bool) {
        self < other
    }

    fn same(self, other: Self) -> (r: bool) {
        self == other
    }

    proof fn lemma_key(a: Self, b: Self) {
    }
}

impl IndexKey for u16 {
    open spec fn key(self) -> int {
        self as int
    }

    open spec fn key_limit() -> int {
        0x1_0000
    }

    fn precedes(self, other: Self) -> (r: bool) {
        self < other
    }

    fn same(self, other: Self) -> (r: bool) {
        self == other
    }

    proof fn lemma_key(a: Self, b: Self) {
    }
}

impl IndexKey for u32 {
    open spec fn key(self) -> int {
        self as int
    }

    open spec fn key_limit() -> int {
        0x1_0000_0000
    }

    fn precedes(self, other: Self) -> (r: bool) {
        self < other
    }

    fn same(self, other: Self) -> (r: bool) {
        self == other
    }

    proof fn lemma_key(a: Self, b: Self) {
    }
}

impl IndexKey for u64 {
    open spec fn key(self) -> int {
        self as int
    }

    open spec fn key_limit() -> int {
        0x1_0000_0000_0000_0000
    }

    fn precedes(self, other: Self) -> (r: bool) {
        self < other
    }

    fn same(self, other: Self) -> (r: bool) {
        self == other
    }

    proof fn lemma_key(a: Self, b: Self) {
    }
}

impl IndexKey for usize {
    open spec fn key(self) -> int {
        self as int
    }

    open spec fn key_limit() -> int {
        usize::MAX + 1
    }

    fn precedes(self, other: Self) -> (r: bool) {
        self < other
    }

    fn same(self, other: Self) -> (r: bool) {
        self == other
    }

    proof fn lemma_key(a: Self, b: Self) {
    }
}

/// A bound of a span of indexes.
#[derive(Clone, Copy, Debug, PartialEq, Eq)]
pub enum Bound<I> {
    /// The bound value is part of the span.
    Included(I),
    /// The bound value is not part of the span.
    Excluded(I),
    /// There is no bound.
    Unbounded,
}

/// The indexes of `s` whose key is strictly greater than that of `c`.
pub open spec fn above<I: IndexKey>(s: Set<I>, c: I) -> Set<I> {
    s.filter(|j: I| c.key() < j.key())
}

/// The indexes of `s` whose key is strictly less than that of `c`.
pub open spec fn below<I: IndexKey>(s: Set<I>, c: I) -> Set<I> {
    s.filter(|j: I| j.key() < c.key())
}

/// `i` is the index of least key in `s`.
pub open spec fn is_least<I: IndexKey>(s: Set<I>, i: I) -> bool {
    s.contains(i) && forall|j: I| #[trigger] s.contains(j) ==> i.key() <= j.key()
}

/// `i` is the index of greatest key in `s`.
pub open spec fn is_greatest<I: IndexKey>(s: Set<I>, i: I) -> bool {
    s.contains(i) && forall|j: I| #[trigger] s.contains(j) ==> j.key() <= i.key()
}

/// `r` is the least index of `s`, or `None` when `s` is empty.
pub open spec fn least<I: IndexKey>(s: Set<I>, r: Option<I>) -> bool {
    match r {
        Some(i) => is_least(s, i),
        None => forall|j: I| !#[trigger] s.contains(j),
    }
}

/// `r` is the greatest index of `s`, or `None` when `s` is empty.
pub open spec fn greatest<I: IndexKey>(s: Set<I>, r: Option<I>) -> bool {
    match r {
        Some(i) => is_greatest(s, i),
        None => forall|j: I| !#[trigger] s.contains(j),
    }
}

/// The least index of `s` strictly above `c`, if any.
pub open spec fn least_above<I: IndexKey>(s: Set<I>, c: I) -> Option<I> {
    if exists|i: I| is_least(above(s, c), i) {
        Some(choose|i: I| is_least(above(s, c), i))
    } else {
        None
    }
}

/// The greatest index of `s` strictly below `c`, if any.
pub open spec fn greatest_below<I: IndexKey>(s: Set<I>, c: I) -> Option<I> {
    if exists|i: I| is_greatest(below(s, c), i) {
        Some(choose|i: I| is_greatest(below(s, c), i))
    } else {
        None
    }
}

/// Skips `n` indexes of `s` upward from `c`, and returns the next one, or how many steps were still missing.
pub open spec fn nth_above<I: IndexKey>(s: Set<I>, c: I, n: nat) -> Result<I, nat>
    decreases n,
{
    match least_above(s, c) {
        None => Err(n + 1),
        Some(x) => if n == 0 {
            Ok(x)
        } else {
            nth_above(s, x, (n - 1) as nat)
        },
    }
}

/// Skips `n` indexes of `s` downward from `c`, and returns the next one, or how many steps were still missing.
pub open spec fn nth_below<I: IndexKey>(s: Set<I>, c: I, n: nat) -> Result<I, nat>
    decreases n,
{
    match greatest_below(s, c) {
        None => Err(n + 1),
        Some(x) => if n == 0 {
            Ok(x)
        } else {
            nth_below(s, x, (n - 1) as nat)
        },
    }
}

/// The least index of a set is the one `least_above` names.
pub proof fn lemma_least_unique<I: IndexKey>(s: Set<I>, c: I, r: Option<I>)
    requires
        least(above(s, c), r),
    ensures
        r == least_above(s, c),
{
    match r {
        Some(i) => {
            assert(is_least(above(s, c), i));
            let k = choose|k: I| is_least(above(s, c), k);
            assert(i.key() <= k.key() && k.key() <= i.key());
            I::lemma_key(i, k);
        },
        None => {
            assert forall|i: I| !is_least(above(s, c), i) by {
                assert(!above(s, c).contains(i));
            }
        },
    }
}

/// The greatest index of a set is the one `greatest_below` names.
pub proof fn lemma_greatest_unique<I: IndexKey>(s: Set<I>, c: I, r: Option<I>)
    requires
        greatest(below(s, c), r),
    ensures
        r == greatest_below(s, c),
{
    match r {
        Some(i) => {
            assert(is_greatest(below(s, c), i));
            let k = choose|k: I| is_greatest(below(s, c), k);
            assert(i.key() <= k.key() && k.key() <= i.key());
            I::lemma_key(i, k);
        },
        None => {
            assert forall|i: I| !is_greatest(below(s, c), i) by {
                assert(!below(s, c).contains(i));
            }
        },
    }
}

/// Error of operations which cannot fail: this library never constructs a value of it.
#[derive(Clone, Copy, Debug, PartialEq, Eq)]
pub struct Never {
    unreachable: (),
}

/// A view of indexes.
///
/// NoPhantom: `contains` reports exactly the indexes of `contents`, which only ever holds indexes that were
/// inserted and not removed since.
pub trait IndexView {
    /// The type of the index.
    type Index: IndexKey;

    /// Internal consistency of the view.
    spec fn wf(&self) -> bool;

    /// The indexes in the view.
    spec fn contents(&self) -> Set<Self::Index>;

    /// The number of indexes the view reports.
    spec fn count(&self) -> nat;

    /// Returns whether the collection is empty, or not.
    fn is_empty(&self) -> (r: bool)
        requires
            self.wf(),
        ensures
            r == (self.count() == 0),
    ;

    /// Returns the number of indexes in the collection.
    fn len(&self) -> (r: usize)
        requires
            self.wf(),
        ensures
            r as nat == self.count(),
    ;

    /// Returns whether the given index is contained in the store.
    fn contains(&self, index: Self::Index) -> (r: bool)
        requires
            self.wf(),
        ensures
            r == self.contents().contains(index),
    ;
}

/// A collection of indexes, which can be constructed.
pub trait IndexCollection: IndexView {
    /// The span of index values which may be inserted.
    spec fn spec_span() -> (Bound<Self::Index>, Bound<Self::Index>);

    /// Returns the span of index values which may be inserted.
    fn span() -> (r: (Bound<Self::Index>, Bound<Self::Index>))
        requires
            Self::constructible(),
        ensures
            r == Self::spec_span(),
    ;

    /// Whether the type can be instantiated: its capacity fits its index type.
    spec fn constructible() -> bool;

    /// Constructs a new, empty, collection.
    fn new() -> (r: Self) where Self: Sized
        requires
            Self::constructible(),
        ensures
            r.wf(),
            r.contents() == Set::<Self::Index>::empty(),
            r.count() == 0,
    ;

    /// Constructs a new, empty, collection, sized for indexes within the given span.
    fn with_span(range: (Bound<Self::Index>, Bound<Self::Index>)) -> (r: Self) where Self: Sized
        requires
            Self::constructible(),
        ensures
            r.wf(),
            r.contents() == Set::<Self::Index>::empty(),
            r.count() == 0,
    ;
}

/// A store of indexes, which can be mutated.
pub trait IndexStore: IndexView {
    /// Error on insertion.
    type InsertionError;

    /// Whether `index` may be inserted in this store: inserting any other index is a programming error.
    spec fn admits(index: Self::Index) -> bool;

    /// Whether insertion of an admitted index always succeeds.
    spec fn infallible() -> bool;

    /// A store holds finitely many indexes, and counts them exactly.
    proof fn lemma_count(&self)
        requires
            self.wf(),
        ensures
            self.contents().finite(),
            self.count() == self.contents().len(),
    ;

    /// Removes all the indexes from the store.
    fn clear(&mut self)
        requires
            old(self).wf(),
        ensures
            final(self).wf(),
            final(self).contents() == Set::<Self::Index>::empty(),
            final(self).count() == 0,
    ;

    /// Inserts the index in the store, returns whether it is newly inserted.
    ///
    /// On error the store is left unchanged.
    fn insert(&mut self, index: Self::Index) -> (r: Result<bool, Self::InsertionError>)
        requires
            old(self).wf(),
            Self::admits(index),
        ensures
            final(self).wf(),
            Self::infallible() ==> r is Ok,
            old(self).contents().contains(index) ==> r == Ok::<bool, Self::InsertionError>(false),
            match r {
                Ok(inserted) => {
                    &&& inserted == !old(self).contents().contains(index)
                    &&& final(self).contents() == old(self).contents().insert(index)
                },
                Err(_) => final(self).contents() == old(self).contents(),
            },
    ;

    /// Removes the index from the store, returns whether it was in the store prior to removal.
    fn remove(&mut self, index: Self::Index) -> (r: bool)
        requires
            old(self).wf(),
        ensures
            final(self).wf(),
            r == old(self).contents().contains(index),
            final(self).contents() == old(self).contents().remove(index),
    ;
}

/// A trustworthy vault of indexes: traversal yields every contained index (NoTheft).
///
/// Traversal here is specified against `contents` itself, so every traversable view of this library is a vault.
pub trait IndexVault: IndexView {}

/// Forward traversal of the indexes of a view, by ascending key.
pub trait IndexForward: IndexView {
    /// Returns the least index contained, if any.
    fn first(&self) -> (r: Option<Self::Index>)
        requires
            self.wf(),
        ensures
            least(self.contents(), r),
    ;

    /// Returns the least index contained strictly after the provided one, if any.
    fn next_after(&self, current: Self::Index) -> (r: Option<Self::Index>)
        requires
            self.wf(),
        ensures
            least(above(self.contents(), current), r),
    ;

    /// Returns the n-th index after the provided one, or the number of steps still missing.
    fn nth_after(&self, n: usize, current: Self::Index) -> (r: Result<Self::Index, usize>)
        requires
            self.wf(),
            n < usize::MAX,
        ensures
            match r {
                Ok(i) => nth_above(self.contents(), current, n as nat) == Ok::<Self::Index, nat>(i),
                Err(k) => k >= 1 && nth_above(self.contents(), current, n as nat) == Err::<Self::Index, nat>(
                    k as nat,
                ),
            },
    {
        let ghost start = current;
        let mut cursor = current;
        let mut i: usize = 0;
        while i < n
            invariant
                self.wf(),
                i <= n < usize::MAX,
                start == current,
                nth_above(self.contents(), start, n as nat) == nth_above(
                    self.contents(),
                    cursor,
                    (n - i) as nat,
                ),
            decreases n - i,
        {
            let next = self.next_after(cursor);
            proof {
                lemma_least_unique(self.contents(), cursor, next);
            }
            match next {
                Some(x) => {
                    cursor = x;
                },
                None => {
                    assert(nth_above(self.contents(), cursor, (n - i) as nat) == Err::<Self::Index, nat>(
                        (n - i + 1) as nat,
                    ));
                    assert(nth_above(self.contents(), start, n as nat) == Err::<Self::Index, nat>(
                        (n - i + 1) as nat,
                    ));
                    return Err(n - i + 1);
                },
            }
            i = i + 1;
        }
        let next = self.next_after(cursor);
        proof {
            lemma_least_unique(self.contents(), cursor, next);
        }
        match next {
            Some(x) => Ok(x),
            None => Err(1),
        }
    }
}

/// Backward traversal of the indexes of a view, by descending key: the exact mirror of forward traversal.
pub trait IndexBackward: IndexForward {
    /// Returns the greatest index contained, if any.
    fn last(&self) -> (r: Option<Self::Index>)
        requires
            self.wf(),
        ensures
            greatest(self.contents(), r),
    ;

    /// Returns the greatest index contained strictly before the provided one, if any.
    fn next_before(&self, current: Self::Index) -> (r: Option<Self::Index>)
        requires
            self.wf(),
        ensures
            greatest(below(self.contents(), current), r),
    ;

    /// Returns the n-th index before the provided one, or the number of steps still missing.
    fn nth_before(&self, n: usize, current: Self::Index) -> (r: Result<Self::Index, usize>)
        requires
            self.wf(),
            n < usize::MAX,
        ensures
            match r {
                Ok(i) => nth_below(self.contents(), current, n as nat) == Ok::<Self::Index, nat>(i),
                Err(k) => k >= 1 && nth_below(self.contents(), current, n as nat) == Err::<Self::Index, nat>(
                    k as nat,
                ),
            },
    {
        let ghost start = current;
        let mut cursor = current;
        let mut i: usize = 0;
        while i < n
            invariant
                self.wf(),
                i <= n < usize::MAX,
                start == current,
                nth_below(self.contents(), start, n as nat) == nth_below(
                    self.contents(),
                    cursor,
                    (n - i) as nat,
                ),
            decreases n - i,
        {
            let next = self.next_before(cursor);
            proof {
                lemma_greatest_unique(self.contents(), cursor, next);
            }
            match next {
                Some(x) => {
                    cursor = x;
                },
                None => {
                    assert(nth_below(self.contents(), cursor, (n - i) as nat) == Err::<Self::Index, nat>(
                        (n - i + 1) as nat,
                    ));
                    assert(nth_below(self.contents(), start, n as nat) == Err::<Self::Index, nat>(
                        (n - i + 1) as nat,
                    ));
                    return Err(n - i + 1);
                },
            }
            i = i + 1;
        }
        let next = self.next_before(cursor);
        proof {
            lemma_greatest_unique(self.contents(), cursor, next);
        }
        match next {
            Some(x) => Ok(x),
            None => Err(1),
        }
    }
}

/// An ordered view: forward traversal yields strictly increasing indexes.
///
/// The traversal contracts above already fix ascending order; implementing this marker states it for merges.
pub trait IndexOrdered: IndexForward {}

} // verus!

verus! {

/// The indexes held by a chunk that may be absent.
pub open spec fn held<I>(chunk: Option<Set<I>>) -> Set<I> {
    match chunk {
        Some(h) => h,
        None => Set::empty(),
    }
}

/// A view that is addressed in two levels: a chunk index, and an index within that chunk.
///
/// SplitFuse: `fuse(split(index)) == index`.
/// TwoLevels: `contains(index)` if and only if the chunk of `split(index).0` contains `split(index).1`.
pub trait IndexViewChunked: IndexView {
    /// Index of the chunks.
    type ChunkIndex: IndexKey;

    /// Type of the chunk.
    type Chunk: crate::chunk::IndexChunk;

    /// Whether `index` can be split: indexes a store of this type may hold.
    spec fn splittable(index: Self::Index) -> bool;

    /// Whether `(outer, inner)` can be fused back into an index.
    spec fn fusable(outer: Self::ChunkIndex, inner: <Self::Chunk as IndexView>::Index) -> bool;

    /// The index made of a chunk index and an index in that chunk.
    spec fn spec_fuse(outer: Self::ChunkIndex, inner: <Self::Chunk as IndexView>::Index) -> Self::Index;

    /// The chunk index and in-chunk index of an index.
    spec fn spec_split(index: Self::Index) -> (Self::ChunkIndex, <Self::Chunk as IndexView>::Index);

    /// The indexes held by the chunk at the given chunk index, if that chunk exists.
    spec fn chunk_at(&self, outer: Self::ChunkIndex) -> Option<Set<<Self::Chunk as IndexView>::Index>>;

    /// Whether the view contains the indexes that no chunk covers.
    spec fn beyond(&self) -> bool;

    /// Fuses a tuple (chunk index, index-in-chunk) into a single index.
    fn fuse(outer: Self::ChunkIndex, inner: <Self::Chunk as IndexView>::Index) -> (r: Self::Index)
        requires
            Self::fusable(outer, inner),
        ensures
            r == Self::spec_fuse(outer, inner),
    ;

    /// Splits an index into a tuple (chunk index, index-in-chunk).
    fn split(index: Self::Index) -> (r: (Self::ChunkIndex, <Self::Chunk as IndexView>::Index))
        requires
            Self::splittable(index),
        ensures
            r == Self::spec_split(index),
    ;

    /// Returns the given chunk, if any.
    ///
    /// The chunk is returned by value, so that it may be materialized on the fly.
    fn get_chunk(&self, index: Self::ChunkIndex) -> (r: Option<Self::Chunk>)
        requires
            self.wf(),
        ensures
            r is Some == self.chunk_at(index) is Some,
            r matches Some(c) ==> c.wf() && self.chunk_at(index) == Some(c.contents()),
    ;

    /// Splitting then fusing gives back the index, and the in-chunk index lies within the chunk.
    proof fn lemma_split_fuse(index: Self::Index)
        requires
            Self::splittable(index),
        ensures
            Self::fusable(Self::spec_split(index).0, Self::spec_split(index).1),
            Self::spec_fuse(Self::spec_split(index).0, Self::spec_split(index).1) == index,
            Self::spec_split(index).1.key() < <Self::Chunk as crate::chunk::IndexChunk>::BITS as int,
    ;

    /// Membership agrees with membership in the chunk that `split` designates; where no chunk covers the index,
    /// membership is `beyond`.
    proof fn lemma_two_levels(&self, index: Self::Index)
        requires
            self.wf(),
        ensures
            Self::splittable(index) ==> (self.contents().contains(index) <==> match self.chunk_at(
                Self::spec_split(index).0,
            ) {
                Some(h) => h.contains(Self::spec_split(index).1),
                None => self.beyond(),
            }),
            !Self::splittable(index) ==> (self.contents().contains(index) <==> self.beyond()),
    ;
}

/// A chunked store, whose chunks can be replaced.
pub trait IndexStoreChunked: IndexViewChunked {
    /// Error on `set_chunk`.
    type SetError;

    /// Whether `chunk` may be placed at `index`.
    spec fn settable(&self, index: Self::ChunkIndex, chunk: Self::Chunk) -> bool;

    /// A store holds nothing that its chunks do not.
    proof fn lemma_nothing_beyond(&self)
        requires
            self.wf(),
        ensures
            !self.beyond(),
    ;

    /// Replaces the chunk at the given index; on error nothing changes.
    fn set_chunk(&mut self, index: Self::ChunkIndex, chunk: Self::Chunk) -> (r: Result<(), Self::SetError>)
        requires
            old(self).wf(),
            chunk.wf(),
        ensures
            final(self).wf(),
            r is Ok <==> old(self).settable(index, chunk),
            r is Ok ==> final(self).chunk_at(index) == Some(chunk.contents()),
            r is Ok ==> forall|o: Self::ChunkIndex|
                o != index ==> #[trigger] held(final(self).chunk_at(o)) == held(old(self).chunk_at(o)),
            r is Err ==> final(self).contents() == old(self).contents(),
    ;
}

/// Forward traversal of the chunks of a chunked view, by ascending chunk index.
pub trait IndexForwardChunked: IndexViewChunked {
    /// Returns the first chunk index; no chunk before it holds any index.
    fn first_chunk(&self) -> (r: Option<Self::ChunkIndex>)
        requires
            self.wf(),
        ensures
            least(Set::new(|o: Self::ChunkIndex| self.chunk_at(o) is Some), r),
    ;

    /// Returns the next chunk index after the provided one, if any.
    fn next_chunk_after(&self, current: Self::ChunkIndex) -> (r: Option<Self::ChunkIndex>)
        requires
            self.wf(),
        ensures
            least(above(Set::new(|o: Self::ChunkIndex| self.chunk_at(o) is Some), current), r),
    ;
}

/// Backward traversal of the chunks of a chunked view, by descending chunk index.
pub trait IndexBackwardChunked: IndexViewChunked {
    /// Returns the last chunk index; no chunk after it holds any index.
    fn last_chunk(&self) -> (r: Option<Self::ChunkIndex>)
        requires
            self.wf(),
        ensures
            greatest(Set::new(|o: Self::ChunkIndex| self.chunk_at(o) is Some), r),
    ;

    /// Returns the next chunk index before the provided one, if any.
    fn next_chunk_before(&self, index: Self::ChunkIndex) -> (r: Option<Self::ChunkIndex>)
        requires
            self.wf(),
        ensures
            greatest(below(Set::new(|o: Self::ChunkIndex| self.chunk_at(o) is Some), index), r),
    ;
}

/// An ordered chunked view: chunk traversal yields strictly increasing chunk indexes.
pub trait IndexOrderedChunked: IndexForwardChunked {}

// Views through a shared reference behave as the view itself.
impl<'a, T: IndexView> IndexView for &'a T {
    type Index = T::Index;

    open spec fn wf(&self) -> bool {
        (**self).wf()
    }

    open spec fn contents(&self) -> Set<T::Index> {
        (**self).contents()
    }

    open spec fn count(&self) -> nat {
        (**self).count()
    }

    fn is_empty(&self) -> (r: bool) {
        (**self).is_empty()
    }

    fn len(&self) -> (r: usize) {
        (**self).len()
    }

    fn contains(&self, index: T::Index) -> (r: bool) {
        (**self).contains(index)
    }
}

impl<'a, T: IndexVault> IndexVault for &'a T {}

impl<'a, T: IndexForward> IndexForward for &'a T {
    fn first(&self) -> (r: Option<T::Index>) {
        (**self).first()
    }

    fn next_after(&self, current: T::Index) -> (r: Option<T::Index>) {
        (**self).next_after(current)
    }
}

impl<'a, T: IndexBackward> IndexBackward for &'a T {
    fn last(&self) -> (r: Option<T::Index>) {
        (**self).last()
    }

    fn next_before(&self, current: T::Index) -> (r: Option<T::Index>) {
        (**self).next_before(current)
    }
}

impl<'a, T: IndexOrdered> IndexOrdered for &'a T {}

} // verus!
