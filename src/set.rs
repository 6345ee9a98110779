//! Index-keyed sets built over any store: `IndexSet`, and `IndexOrdSet` whose set algebra merges ordered
//! traversals.
use vstd::prelude::*;

use crate::chunk::symmetric;
use crate::index::{
    Bound, IndexBackward, IndexCollection, IndexForward, IndexKey, IndexOrdered, IndexStore, IndexView,
};
use crate::not::{IndexViewNot, NotView};
use crate::set::iter::{ahead, bound, distance_up, lemma_advance, lemma_start_up, rests_in};

pub mod algebra;
pub mod entry;
pub mod extract;
pub mod iter;

pub use algebra::{
    Difference, Intersection, IntersectionOrd, SymmetricDifference, SymmetricDifferenceOrd, Union, UnionOrd,
};
pub use entry::{Entry, OccupiedEntry, VacantEntry};
pub use extract::{Drain, ExtractIf};
pub use iter::{IntoIter, IntoIterRev, Iter, IterRev};

verus! {

/// A set of indexes, over any store.
#[derive(Clone, Copy, Debug)]
pub struct IndexSet<S> {
    store: S,
}

/// A set of indexes over an ordered store, whose set algebra merges the two ordered traversals.
#[derive(Clone, Copy, Debug)]
pub struct IndexOrdSet<S> {
    store: S,
}

impl<S: IndexView> IndexSet<S> {
    /// The store is consistent.
    pub open spec fn wf(&self) -> bool {
        self.spec_store().wf()
    }

    /// The store owned by the set.
    pub closed spec fn spec_store(&self) -> S {
        self.store
    }

    /// The indexes in the set.
    pub open spec fn contents(&self) -> Set<S::Index> {
        self.spec_store().contents()
    }

    /// Wraps a store: the set holds what the store holds.
    pub fn with_store(store: S) -> (r: Self)
        ensures
            r.spec_store() == store,
            r.wf() == store.wf(),
    {
        IndexSet { store }
    }

    /// Returns the store.
    pub fn as_store(&self) -> (r: &S)
        ensures
            *r == self.spec_store(),
    {
        &self.store
    }

    /// Returns the store, mutably.
    pub fn as_store_mut(&mut self) -> (r: &mut S)
        ensures
            *r == old(self).spec_store(),
            final(self).spec_store() == *final(r),
            final(self).wf() == final(r).wf(),
    {
        &mut self.store
    }

    /// Returns the store.
    pub fn into_store(self) -> (r: S)
        ensures
            r == self.spec_store(),
    {
        self.store
    }

    /// Returns whether the set is empty.
    pub fn is_empty(&self) -> (r: bool)
        requires
            self.wf(),
        ensures
            r == (self.spec_store().count() == 0),
    {
        self.store.is_empty()
    }

    /// Returns the number of indexes in the set.
    pub fn len(&self) -> (r: usize)
        requires
            self.wf(),
        ensures
            r as nat == self.spec_store().count(),
    {
        self.store.len()
    }

    /// Returns whether the index is in the set.
    pub fn contains(&self, index: S::Index) -> (r: bool)
        requires
            self.wf(),
        ensures
            r == self.contents().contains(index),
    {
        self.store.contains(index)
    }
}

impl<S: IndexViewNot> IndexSet<S> {
    /// A view of the indexes not in the set.
    pub fn as_not(&self) -> (r: NotView<&S>)
        requires
            self.wf(),
        ensures
            r.wf(),
            r.contents() == self.contents().complement(),
    {
        NotView::new(&self.store)
    }
}

impl<S: IndexCollection> IndexSet<S> {
    /// Returns the span of indexes the set may hold.
    pub fn span() -> (r: (Bound<S::Index>, Bound<S::Index>))
        requires
            S::constructible(),
        ensures
            r == S::spec_span(),
    {
        S::span()
    }

    /// Creates an empty set.
    pub fn new() -> (r: Self)
        requires
            S::constructible(),
        ensures
            r.wf(),
            r.contents() == Set::<S::Index>::empty(),
            r.spec_store().count() == 0,
    {
        IndexSet { store: S::new() }
    }

    /// Creates an empty set, sized for indexes of the given span.
    pub fn with_span(range: (Bound<S::Index>, Bound<S::Index>)) -> (r: Self)
        requires
            S::constructible(),
        ensures
            r.wf(),
            r.contents() == Set::<S::Index>::empty(),
            r.spec_store().count() == 0,
    {
        IndexSet { store: S::with_span(range) }
    }
}

impl<S: IndexStore> IndexSet<S> {
    /// The set holds finitely many indexes, and its length counts them.
    pub proof fn lemma_len(&self)
        requires
            self.wf(),
        ensures
            self.contents().finite(),
            self.spec_store().count() == self.contents().len(),
    {
        self.spec_store().lemma_count();
    }

    /// Removes every index.
    pub fn clear(&mut self)
        requires
            old(self).wf(),
        ensures
            final(self).wf(),
            final(self).contents() == Set::<S::Index>::empty(),
    {
        self.store.clear()
    }

    /// Inserts the index, returns whether it is newly inserted; on error the set is unchanged.
    pub fn insert(&mut self, index: S::Index) -> (r: Result<bool, S::InsertionError>)
        requires
            old(self).wf(),
            S::admits(index),
        ensures
            final(self).wf(),
            S::infallible() ==> r is Ok,
            match r {
                Ok(inserted) => {
                    &&& inserted == !old(self).contents().contains(index)
                    &&& final(self).contents() == old(self).contents().insert(index)
                },
                Err(_) => final(self).contents() == old(self).contents(),
            },
            old(self).contents().contains(index) ==> final(self).contents() == old(self).contents() && r
                == Ok::<bool, S::InsertionError>(false),
    {
        let r = self.store.insert(index);
        proof {
            if old(self).contents().contains(index) {
                assert(old(self).contents().insert(index) =~= old(self).contents());
            }
        }
        r
    }

    /// Removes the index, returns whether it was present.
    pub fn remove(&mut self, index: S::Index) -> (r: bool)
        requires
            old(self).wf(),
        ensures
            final(self).wf(),
            r == old(self).contents().contains(index),
            final(self).contents() == old(self).contents().remove(index),
            !old(self).contents().contains(index) ==> !r && final(self).contents() == old(self).contents(),
    {
        let r = self.store.remove(index);
        proof {
            if !old(self).contents().contains(index) {
                assert(old(self).contents().remove(index) =~= old(self).contents());
            }
        }
        r
    }

    /// Inserts each of the given indexes; those whose insertion fails are left out.
    pub fn extend(&mut self, indexes: &[S::Index])
        requires
            old(self).wf(),
            forall|k: int| 0 <= k < indexes@.len() ==> S::admits(#[trigger] indexes@[k]),
        ensures
            final(self).wf(),
            old(self).contents().subset_of(final(self).contents()),
            final(self).contents().subset_of(old(self).contents().union(indexes@.to_set())),
            S::infallible() ==> final(self).contents() == old(self).contents().union(indexes@.to_set()),
    {
        let mut k: usize = 0;
        while k < indexes.len()
            invariant
                self.wf(),
                k <= indexes@.len(),
                forall|j: int| 0 <= j < indexes@.len() ==> S::admits(#[trigger] indexes@[j]),
                old(self).contents().subset_of(self.contents()),
                self.contents().subset_of(old(self).contents().union(indexes@.to_set())),
                S::infallible() ==> self.contents() == old(self).contents().union(
                    indexes@.subrange(0, k as int).to_set(),
                ),
            decreases indexes@.len() - k,
        {
            let index = indexes[k];
            let _ = self.store.insert(index);
            proof {
                assert(indexes@.to_set().contains(index));
                assert(indexes@.subrange(0, k + 1) == indexes@.subrange(0, k as int).push(index));
                indexes@.subrange(0, k as int).lemma_push_to_set_commute(index);
                assert(old(self).contents().union(indexes@.subrange(0, k + 1).to_set())
                    =~= old(self).contents().union(indexes@.subrange(0, k as int).to_set()).insert(
                    index,
                ));
            }
            k = k + 1;
        }
        proof {
            assert(indexes@.subrange(0, indexes@.len() as int) == indexes@);
        }
    }

    /// Returns the entry of the index, occupied or vacant.
    pub fn entry(&mut self, index: S::Index) -> (r: Entry<'_, S::Index, S>)
        requires
            old(self).wf(),
        ensures
            match r {
                Entry::Occupied(e) => {
                    &&& old(self).contents().contains(index)
                    &&& e.index == index
                    &&& (*e.store).wf()
                    &&& *e.store == old(self).spec_store()
                    &&& final(self).spec_store() == *final(e.store)
                },
                Entry::Vacant(e) => {
                    &&& !old(self).contents().contains(index)
                    &&& e.index == index
                    &&& (*e.store).wf()
                    &&& *e.store == old(self).spec_store()
                    &&& final(self).spec_store() == *final(e.store)
                },
            },
    {
        if self.store.contains(index) {
            Entry::Occupied(OccupiedEntry { index, store: &mut self.store })
        } else {
            Entry::Vacant(VacantEntry { index, store: &mut self.store })
        }
    }
}

impl<S: IndexForward> IndexSet<S> {
    /// Iterates over the indexes, by ascending index.
    pub fn iter(&self) -> (r: Iter<'_, S::Index, S>)
        requires
            self.wf(),
        ensures
            r.inv(),
            r.remaining() == self.contents(),
            r.measure() >= 0,
    {
        Iter::start(&self.store)
    }

    /// Iterates over the indexes, by ascending index, consuming the set.
    pub fn into_iter(self) -> (r: IntoIter<S::Index, S>)
        requires
            self.wf(),
        ensures
            r.inv(),
            r.remaining() == self.contents(),
    {
        IntoIter::start(self.store)
    }

    /// Returns whether no index of `self` is in `other`.
    pub fn is_disjoint<OS: IndexView<Index = S::Index>>(&self, other: &IndexSet<OS>) -> (r: bool)
        requires
            self.wf(),
            other.wf(),
        ensures
            r == self.contents().disjoint(other.contents()),
    {
        let mut it = self.iter();
        loop
            invariant
                it.inv(),
                other.wf(),
                it.remaining().subset_of(self.contents()),
                forall|x: S::Index|
                    #[trigger] self.contents().contains(x) && !it.remaining().contains(x)
                        ==> !other.contents().contains(x),
            decreases it.measure(),
        {
            match it.next() {
                None => {
                    return true;
                },
                Some(x) => {
                    if other.contains(x) {
                        return false;
                    }
                },
            }
        }
    }

    /// Returns whether every index of `self` is in `other`.
    pub fn is_subset<OS: IndexView<Index = S::Index>>(&self, other: &IndexSet<OS>) -> (r: bool)
        requires
            self.wf(),
            other.wf(),
        ensures
            r == self.contents().subset_of(other.contents()),
    {
        let mut it = self.iter();
        loop
            invariant
                it.inv(),
                other.wf(),
                it.remaining().subset_of(self.contents()),
                forall|x: S::Index|
                    #[trigger] self.contents().contains(x) && !it.remaining().contains(x)
                        ==> other.contents().contains(x),
            decreases it.measure(),
        {
            match it.next() {
                None => {
                    return true;
                },
                Some(x) => {
                    if !other.contains(x) {
                        return false;
                    }
                },
            }
        }
    }

    /// Returns whether every index of `other` is in `self`.
    pub fn is_superset<OS: IndexForward<Index = S::Index>>(&self, other: &IndexSet<OS>) -> (r: bool)
        requires
            self.wf(),
            other.wf(),
        ensures
            r == other.contents().subset_of(self.contents()),
    {
        other.is_subset(self)
    }
}

impl<S: IndexBackward> IndexSet<S> {
    /// Iterates over the indexes, by descending index.
    pub fn iter_rev(&self) -> (r: IterRev<'_, S::Index, S>)
        requires
            self.wf(),
        ensures
            r.inv(),
            r.remaining() == self.contents(),
            r.measure() >= 0,
    {
        IterRev::start(&self.store)
    }

    /// Iterates over the indexes, by descending index, consuming the set.
    pub fn into_iter_rev(self) -> (r: IntoIterRev<S::Index, S>)
        requires
            self.wf(),
        ensures
            r.inv(),
            r.remaining() == self.contents(),
    {
        IntoIterRev::start(self.store)
    }
}

impl<S: IndexForward + IndexStore> IndexSet<S> {
    /// Removes the indexes that the predicate rejects.
    pub fn retain<F: Fn(S::Index) -> bool>(&mut self, pred: F)
        requires
            old(self).wf(),
            forall|x: S::Index| pred.requires((x,)),
        ensures
            final(self).wf(),
            final(self).contents().subset_of(old(self).contents()),
            forall|x: S::Index| #[trigger] old(self).contents().contains(x) ==> {
                if final(self).contents().contains(x) {
                    pred.ensures((x,), true)
                } else {
                    pred.ensures((x,), false)
                }
            },
    {
        let mut cursor = self.store.first();
        proof {
            lemma_start_up(self.contents(), cursor);
        }
        loop
            invariant
                self.wf(),
                forall|x: S::Index| pred.requires((x,)),
                rests_in(self.contents(), cursor),
                ahead(self.contents(), cursor) == ahead(old(self).contents(), cursor),
                self.contents().subset_of(old(self).contents()),
                forall|x: S::Index| #[trigger]
                    old(self).contents().contains(x) && !ahead(old(self).contents(), cursor).contains(x)
                        ==> if self.contents().contains(x) {
                        pred.ensures((x,), true)
                    } else {
                        pred.ensures((x,), false)
                    },
                distance_up(cursor) >= 0,
            decreases distance_up(cursor),
        {
            match cursor {
                None => {
                    return;
                },
                Some(x) => {
                    let ghost before = self.contents();
                    let keep = pred(x);
                    if !keep {
                        self.store.remove(x);
                    }
                    let n = self.store.next_after(x);
                    proof {
                        assert(self.contents().remove(x) =~= before.remove(x));
                        lemma_advance(old(self).contents(), before, self.contents(), x, n);
                    }
                    cursor = n;
                },
            }
        }
    }

    /// Keeps only the indexes that `other` contains too.
    pub fn bitand_assign<OS: IndexView<Index = S::Index>>(&mut self, other: &IndexSet<OS>)
        requires
            old(self).wf(),
            other.wf(),
        ensures
            final(self).wf(),
            final(self).contents() == old(self).contents().intersect(other.contents()),
    {
        let mut cursor = self.store.first();
        proof {
            lemma_start_up(self.contents(), cursor);
        }
        loop
            invariant
                self.wf(),
                other.wf(),
                rests_in(self.contents(), cursor),
                ahead(self.contents(), cursor) == ahead(old(self).contents(), cursor),
                forall|x: S::Index| #[trigger]
                    self.contents().contains(x) == (old(self).contents().contains(x) && (!ahead(
                        old(self).contents(),
                        cursor,
                    ).contains(x) ==> other.contents().contains(x))),
                distance_up(cursor) >= 0,
            decreases distance_up(cursor),
        {
            match cursor {
                None => {
                    proof {
                        assert(self.contents() =~= old(self).contents().intersect(other.contents()));
                    }
                    return;
                },
                Some(x) => {
                    let ghost before = self.contents();
                    if !other.contains(x) {
                        self.store.remove(x);
                    }
                    let n = self.store.next_after(x);
                    proof {
                        assert(self.contents().remove(x) =~= before.remove(x));
                        lemma_advance(old(self).contents(), before, self.contents(), x, n);
                    }
                    cursor = n;
                },
            }
        }
    }

    /// Removes the indexes that `other` contains.
    pub fn sub_assign<OS: IndexForward<Index = S::Index>>(&mut self, other: &IndexSet<OS>)
        requires
            old(self).wf(),
            other.wf(),
        ensures
            final(self).wf(),
            final(self).contents() == old(self).contents().difference(other.contents()),
    {
        let mut it = other.iter();
        loop
            invariant
                self.wf(),
                it.inv(),
                it.remaining().subset_of(other.contents()),
                self.contents() == old(self).contents().difference(other.contents().difference(
                    it.remaining(),
                )),
            decreases it.measure(),
        {
            match it.next() {
                None => {
                    proof {
                        assert(other.contents().difference(it.remaining()) =~= other.contents());
                    }
                    return;
                },
                Some(x) => {
                    self.store.remove(x);
                    proof {
                        assert(self.contents() =~= old(self).contents().difference(
                            other.contents().difference(it.remaining()),
                        ));
                    }
                },
            }
        }
    }

    /// Inserts the indexes that `other` contains; those whose insertion fails are left out.
    pub fn bitor_assign<OS: IndexForward<Index = S::Index>>(&mut self, other: &IndexSet<OS>)
        requires
            old(self).wf(),
            other.wf(),
            forall|x: S::Index| #[trigger] other.contents().contains(x) ==> S::admits(x),
        ensures
            final(self).wf(),
            old(self).contents().subset_of(final(self).contents()),
            final(self).contents().subset_of(old(self).contents().union(other.contents())),
            S::infallible() ==> final(self).contents() == old(self).contents().union(other.contents()),
    {
        let mut it = other.iter();
        loop
            invariant
                self.wf(),
                it.inv(),
                forall|x: S::Index| #[trigger] other.contents().contains(x) ==> S::admits(x),
                it.remaining().subset_of(other.contents()),
                old(self).contents().subset_of(self.contents()),
                self.contents().subset_of(old(self).contents().union(other.contents())),
                S::infallible() ==> self.contents() == old(self).contents().union(
                    other.contents().difference(it.remaining()),
                ),
            decreases it.measure(),
        {
            match it.next() {
                None => {
                    proof {
                        assert(other.contents().difference(it.remaining()) =~= other.contents());
                    }
                    return;
                },
                Some(x) => {
                    let _ = self.store.insert(x);
                    proof {
                        if S::infallible() {
                            assert(self.contents() =~= old(self).contents().union(
                                other.contents().difference(it.remaining()),
                            ));
                        }
                    }
                },
            }
        }
    }
}

impl<S: IndexForward + IndexStore> IndexSet<S> {
    /// The indexes of `self` that `other` contains too, in `self`'s store.
    pub fn bitand<OS: IndexView<Index = S::Index>>(self, other: &IndexSet<OS>) -> (r: Self)
        requires
            self.wf(),
            other.wf(),
        ensures
            r.wf(),
            r.contents() == self.contents().intersect(other.contents()),
    {
        let mut this = self;
        this.bitand_assign(other);
        this
    }

    /// The indexes of either set, in `self`'s store; those whose insertion fails are left out.
    pub fn bitor<OS: IndexForward<Index = S::Index>>(self, other: &IndexSet<OS>) -> (r: Self)
        requires
            self.wf(),
            other.wf(),
            forall|x: S::Index| #[trigger] other.contents().contains(x) ==> S::admits(x),
        ensures
            r.wf(),
            self.contents().subset_of(r.contents()),
            r.contents().subset_of(self.contents().union(other.contents())),
            S::infallible() ==> r.contents() == self.contents().union(other.contents()),
    {
        let mut this = self;
        this.bitor_assign(other);
        this
    }

    /// The indexes of `self` that `other` does not contain, in `self`'s store.
    pub fn sub<OS: IndexForward<Index = S::Index>>(self, other: &IndexSet<OS>) -> (r: Self)
        requires
            self.wf(),
            other.wf(),
        ensures
            r.wf(),
            r.contents() == self.contents().difference(other.contents()),
    {
        let mut this = self;
        this.sub_assign(other);
        this
    }
}

impl<S: IndexCollection + IndexForward + IndexStore> IndexSet<S> {
    /// Empties the set, and yields the indexes it held, least first.
    ///
    /// The set is empty from this call on, however much of the drain is consumed.
    pub fn drain(&mut self) -> (r: Drain<S::Index, S>)
        requires
            old(self).wf(),
            S::constructible(),
        ensures
            final(self).wf(),
            final(self).contents() == Set::<S::Index>::empty(),
            r.inv(),
            r.remaining() == old(self).contents(),
    {
        let mut taken = S::new();
        core::mem::swap(&mut taken, &mut self.store);
        Drain::start(taken)
    }
}

impl<S: IndexForward + IndexStore> IndexSet<S> {
    /// Removes and yields, least first, the indexes that the predicate accepts.
    pub fn extract_if<F: Fn(S::Index) -> bool>(&mut self, pred: F) -> (r: ExtractIf<'_, S::Index, S, F>)
        requires
            old(self).wf(),
            forall|x: S::Index| pred.requires((x,)),
        ensures
            r.inv(),
            r.pred == pred,
            *r.store == old(self).spec_store(),
            r.pending() == old(self).contents(),
            final(self).spec_store() == *final(r.store),
    {
        let next = self.store.first();
        proof {
            lemma_start_up(self.contents(), next);
        }
        ExtractIf { pred, next, store: &mut self.store }
    }
}

impl<S: IndexForward> IndexSet<S> {
    /// The indexes of `self` that `other` does not contain.
    pub fn difference<'a, OS: IndexView<Index = S::Index>>(&'a self, other: &'a IndexSet<OS>) -> (r: Difference<
        'a,
        S::Index,
        S,
        OS,
    >)
        requires
            self.wf(),
            other.wf(),
        ensures
            r.inv(),
            r.remaining() == self.contents().difference(other.contents()),
    {
        Difference::new(self.iter(), &other.store)
    }

    /// The indexes of `self` that `other` contains too.
    pub fn intersection<'a, OS: IndexView<Index = S::Index>>(&'a self, other: &'a IndexSet<OS>) -> (r: Intersection<
        'a,
        S::Index,
        S,
        OS,
    >)
        requires
            self.wf(),
            other.wf(),
        ensures
            r.inv(),
            r.remaining() == self.contents().intersect(other.contents()),
    {
        Intersection::new(self.iter(), &other.store)
    }

    /// The indexes of `self`, then those of `other` that `self` does not contain.
    pub fn union<'a, OS: IndexForward<Index = S::Index>>(&'a self, other: &'a IndexSet<OS>) -> (r: Union<
        'a,
        S::Index,
        S,
        OS,
    >)
        requires
            self.wf(),
            other.wf(),
        ensures
            r.inv(),
            r.left_part() == self.contents(),
            r.right_part() == other.contents().difference(self.contents()),
            r.remaining() == self.contents().union(other.contents()),
    {
        let r = Union::new(self.iter(), other.iter(), &self.store);
        proof {
            assert(r.remaining() =~= self.contents().union(other.contents()));
        }
        r
    }

    /// The indexes of `self` that `other` does not contain, then those of `other` that `self` does not contain.
    pub fn symmetric_difference<'a, OS: IndexForward<Index = S::Index>>(
        &'a self,
        other: &'a IndexSet<OS>,
    ) -> (r: SymmetricDifference<'a, S::Index, S, OS>)
        requires
            self.wf(),
            other.wf(),
        ensures
            r.inv(),
            r.left_part() == self.contents().difference(other.contents()),
            r.right_part() == other.contents().difference(self.contents()),
            r.remaining() == symmetric(self.contents(), other.contents()),
    {
        SymmetricDifference::new(self.iter(), other.iter(), &self.store, &other.store)
    }
}

impl<S: IndexView> IndexOrdSet<S> {
    /// The store is consistent.
    pub open spec fn wf(&self) -> bool {
        self.spec_store().wf()
    }

    /// The store owned by the set.
    pub closed spec fn spec_store(&self) -> S {
        self.store
    }

    /// The indexes in the set.
    pub open spec fn contents(&self) -> Set<S::Index> {
        self.spec_store().contents()
    }

    /// Wraps a store: the set holds what the store holds.
    pub fn with_store(store: S) -> (r: Self)
        ensures
            r.spec_store() == store,
            r.wf() == store.wf(),
    {
        IndexOrdSet { store }
    }

    /// Returns the store.
    pub fn as_store(&self) -> (r: &S)
        ensures
            *r == self.spec_store(),
    {
        &self.store
    }

    /// Returns the store, mutably.
    pub fn as_store_mut(&mut self) -> (r: &mut S)
        ensures
            *r == old(self).spec_store(),
            final(self).spec_store() == *final(r),
            final(self).wf() == final(r).wf(),
    {
        &mut self.store
    }

    /// Returns the store.
    pub fn into_store(self) -> (r: S)
        ensures
            r == self.spec_store(),
    {
        self.store
    }

    /// Returns whether the set is empty.
    pub fn is_empty(&self) -> (r: bool)
        requires
            self.wf(),
        ensures
            r == (self.spec_store().count() == 0),
    {
        self.store.is_empty()
    }

    /// Returns the number of indexes in the set.
    pub fn len(&self) -> (r: usize)
        requires
            self.wf(),
        ensures
            r as nat == self.spec_store().count(),
    {
        self.store.len()
    }

    /// Returns whether the index is in the set.
    pub fn contains(&self, index: S::Index) -> (r: bool)
        requires
            self.wf(),
        ensures
            r == self.contents().contains(index),
    {
        self.store.contains(index)
    }
}

impl<S: IndexViewNot> IndexOrdSet<S> {
    /// A view of the indexes not in the set.
    pub fn as_not(&self) -> (r: NotView<&S>)
        requires
            self.wf(),
        ensures
            r.wf(),
            r.contents() == self.contents().complement(),
    {
        NotView::new(&self.store)
    }
}

impl<S: IndexCollection + IndexOrdered> IndexOrdSet<S> {
    /// Returns the span of indexes the set may hold.
    pub fn span() -> (r: (Bound<S::Index>, Bound<S::Index>))
        requires
            S::constructible(),
        ensures
            r == S::spec_span(),
    {
        S::span()
    }

    /// Creates an empty set.
    pub fn new() -> (r: Self)
        requires
            S::constructible(),
        ensures
            r.wf(),
            r.contents() == Set::<S::Index>::empty(),
            r.spec_store().count() == 0,
    {
        IndexOrdSet { store: S::new() }
    }

    /// Creates an empty set, sized for indexes of the given span.
    pub fn with_span(range: (Bound<S::Index>, Bound<S::Index>)) -> (r: Self)
        requires
            S::constructible(),
        ensures
            r.wf(),
            r.contents() == Set::<S::Index>::empty(),
            r.spec_store().count() == 0,
    {
        IndexOrdSet { store: S::with_span(range) }
    }
}

impl<S: IndexStore> IndexOrdSet<S> {
    /// The set holds finitely many indexes, and its length counts them.
    pub proof fn lemma_len(&self)
        requires
            self.wf(),
        ensures
            self.contents().finite(),
            self.spec_store().count() == self.contents().len(),
    {
        self.spec_store().lemma_count();
    }

    /// Removes every index.
    pub fn clear(&mut self)
        requires
            old(self).wf(),
        ensures
            final(self).wf(),
            final(self).contents() == Set::<S::Index>::empty(),
    {
        self.store.clear()
    }

    /// Inserts the index, returns whether it is newly inserted; on error the set is unchanged.
    pub fn insert(&mut self, index: S::Index) -> (r: Result<bool, S::InsertionError>)
        requires
            old(self).wf(),
            S::admits(index),
        ensures
            final(self).wf(),
            S::infallible() ==> r is Ok,
            match r {
                Ok(inserted) => {
                    &&& inserted == !old(self).contents().contains(index)
                    &&& final(self).contents() == old(self).contents().insert(index)
                },
                Err(_) => final(self).contents() == old(self).contents(),
            },
            old(self).contents().contains(index) ==> final(self).contents() == old(self).contents() && r
                == Ok::<bool, S::InsertionError>(false),
    {
        let r = self.store.insert(index);
        proof {
            if old(self).contents().contains(index) {
                assert(old(self).contents().insert(index) =~= old(self).contents());
            }
        }
        r
    }

    /// Removes the index, returns whether it was present.
    pub fn remove(&mut self, index: S::Index) -> (r: bool)
        requires
            old(self).wf(),
        ensures
            final(self).wf(),
            r == old(self).contents().contains(index),
            final(self).contents() == old(self).contents().remove(index),
            !old(self).contents().contains(index) ==> !r && final(self).contents() == old(self).contents(),
    {
        let r = self.store.remove(index);
        proof {
            if !old(self).contents().contains(index) {
                assert(old(self).contents().remove(index) =~= old(self).contents());
            }
        }
        r
    }

    /// Inserts each of the given indexes; those whose insertion fails are left out.
    pub fn extend(&mut self, indexes: &[S::Index])
        requires
            old(self).wf(),
            forall|k: int| 0 <= k < indexes@.len() ==> S::admits(#[trigger] indexes@[k]),
        ensures
            final(self).wf(),
            old(self).contents().subset_of(final(self).contents()),
            final(self).contents().subset_of(old(self).contents().union(indexes@.to_set())),
            S::infallible() ==> final(self).contents() == old(self).contents().union(indexes@.to_set()),
    {
        let mut k: usize = 0;
        while k < indexes.len()
            invariant
                self.wf(),
                k <= indexes@.len(),
                forall|j: int| 0 <= j < indexes@.len() ==> S::admits(#[trigger] indexes@[j]),
                old(self).contents().subset_of(self.contents()),
                self.contents().subset_of(old(self).contents().union(indexes@.to_set())),
                S::infallible() ==> self.contents() == old(self).contents().union(
                    indexes@.subrange(0, k as int).to_set(),
                ),
            decreases indexes@.len() - k,
        {
            let index = indexes[k];
            let _ = self.store.insert(index);
            proof {
                assert(indexes@.to_set().contains(index));
                assert(indexes@.subrange(0, k + 1) == indexes@.subrange(0, k as int).push(index));
                indexes@.subrange(0, k as int).lemma_push_to_set_commute(index);
                assert(old(self).contents().union(indexes@.subrange(0, k + 1).to_set())
                    =~= old(self).contents().union(indexes@.subrange(0, k as int).to_set()).insert(
                    index,
                ));
            }
            k = k + 1;
        }
        proof {
            assert(indexes@.subrange(0, indexes@.len() as int) == indexes@);
        }
    }

    /// Returns the entry of the index, occupied or vacant.
    pub fn entry(&mut self, index: S::Index) -> (r: Entry<'_, S::Index, S>)
        requires
            old(self).wf(),
        ensures
            match r {
                Entry::Occupied(e) => {
                    &&& old(self).contents().contains(index)
                    &&& e.index == index
                    &&& (*e.store).wf()
                    &&& *e.store == old(self).spec_store()
                    &&& final(self).spec_store() == *final(e.store)
                },
                Entry::Vacant(e) => {
                    &&& !old(self).contents().contains(index)
                    &&& e.index == index
                    &&& (*e.store).wf()
                    &&& *e.store == old(self).spec_store()
                    &&& final(self).spec_store() == *final(e.store)
                },
            },
    {
        if self.store.contains(index) {
            Entry::Occupied(OccupiedEntry { index, store: &mut self.store })
        } else {
            Entry::Vacant(VacantEntry { index, store: &mut self.store })
        }
    }
}

impl<S: IndexForward> IndexOrdSet<S> {
    /// Iterates over the indexes, by ascending index.
    pub fn iter(&self) -> (r: Iter<'_, S::Index, S>)
        requires
            self.wf(),
        ensures
            r.inv(),
            r.remaining() == self.contents(),
            r.measure() >= 0,
    {
        Iter::start(&self.store)
    }

    /// Iterates over the indexes, by ascending index, consuming the set.
    pub fn into_iter(self) -> (r: IntoIter<S::Index, S>)
        requires
            self.wf(),
        ensures
            r.inv(),
            r.remaining() == self.contents(),
    {
        IntoIter::start(self.store)
    }

    /// Returns whether no index of `self` is in `other`.
    pub fn is_disjoint<OS: IndexView<Index = S::Index>>(&self, other: &IndexOrdSet<OS>) -> (r: bool)
        requires
            self.wf(),
            other.wf(),
        ensures
            r == self.contents().disjoint(other.contents()),
    {
        let mut it = self.iter();
        loop
            invariant
                it.inv(),
                other.wf(),
                it.remaining().subset_of(self.contents()),
                forall|x: S::Index|
                    #[trigger] self.contents().contains(x) && !it.remaining().contains(x)
                        ==> !other.contents().contains(x),
            decreases it.measure(),
        {
            match it.next() {
                None => {
                    return true;
                },
                Some(x) => {
                    if other.contains(x) {
                        return false;
                    }
                },
            }
        }
    }

    /// Returns whether every index of `self` is in `other`.
    pub fn is_subset<OS: IndexView<Index = S::Index>>(&self, other: &IndexOrdSet<OS>) -> (r: bool)
        requires
            self.wf(),
            other.wf(),
        ensures
            r == self.contents().subset_of(other.contents()),
    {
        let mut it = self.iter();
        loop
            invariant
                it.inv(),
                other.wf(),
                it.remaining().subset_of(self.contents()),
                forall|x: S::Index|
                    #[trigger] self.contents().contains(x) && !it.remaining().contains(x)
                        ==> other.contents().contains(x),
            decreases it.measure(),
        {
            match it.next() {
                None => {
                    return true;
                },
                Some(x) => {
                    if !other.contains(x) {
                        return false;
                    }
                },
            }
        }
    }

    /// Returns whether every index of `other` is in `self`.
    pub fn is_superset<OS: IndexForward<Index = S::Index>>(&self, other: &IndexOrdSet<OS>) -> (r: bool)
        requires
            self.wf(),
            other.wf(),
        ensures
            r == other.contents().subset_of(self.contents()),
    {
        other.is_subset(self)
    }
}

impl<S: IndexBackward> IndexOrdSet<S> {
    /// Iterates over the indexes, by descending index.
    pub fn iter_rev(&self) -> (r: IterRev<'_, S::Index, S>)
        requires
            self.wf(),
        ensures
            r.inv(),
            r.remaining() == self.contents(),
            r.measure() >= 0,
    {
        IterRev::start(&self.store)
    }

    /// Iterates over the indexes, by descending index, consuming the set.
    pub fn into_iter_rev(self) -> (r: IntoIterRev<S::Index, S>)
        requires
            self.wf(),
        ensures
            r.inv(),
            r.remaining() == self.contents(),
    {
        IntoIterRev::start(self.store)
    }
}

impl<S: IndexForward + IndexStore> IndexOrdSet<S> {
    /// Removes the indexes that the predicate rejects.
    pub fn retain<F: Fn(S::Index) -> bool>(&mut self, pred: F)
        requires
            old(self).wf(),
            forall|x: S::Index| pred.requires((x,)),
        ensures
            final(self).wf(),
            final(self).contents().subset_of(old(self).contents()),
            forall|x: S::Index| #[trigger] old(self).contents().contains(x) ==> {
                if final(self).contents().contains(x) {
                    pred.ensures((x,), true)
                } else {
                    pred.ensures((x,), false)
                }
            },
    {
        let mut cursor = self.store.first();
        proof {
            lemma_start_up(self.contents(), cursor);
        }
        loop
            invariant
                self.wf(),
                forall|x: S::Index| pred.requires((x,)),
                rests_in(self.contents(), cursor),
                ahead(self.contents(), cursor) == ahead(old(self).contents(), cursor),
                self.contents().subset_of(old(self).contents()),
                forall|x: S::Index| #[trigger]
                    old(self).contents().contains(x) && !ahead(old(self).contents(), cursor).contains(x)
                        ==> if self.contents().contains(x) {
                        pred.ensures((x,), true)
                    } else {
                        pred.ensures((x,), false)
                    },
                distance_up(cursor) >= 0,
            decreases distance_up(cursor),
        {
            match cursor {
                None => {
                    return;
                },
                Some(x) => {
                    let ghost before = self.contents();
                    let keep = pred(x);
                    if !keep {
                        self.store.remove(x);
                    }
                    let n = self.store.next_after(x);
                    proof {
                        assert(self.contents().remove(x) =~= before.remove(x));
                        lemma_advance(old(self).contents(), before, self.contents(), x, n);
                    }
                    cursor = n;
                },
            }
        }
    }

    /// Keeps only the indexes that `other` contains too.
    pub fn bitand_assign<OS: IndexView<Index = S::Index>>(&mut self, other: &IndexOrdSet<OS>)
        requires
            old(self).wf(),
            other.wf(),
        ensures
            final(self).wf(),
            final(self).contents() == old(self).contents().intersect(other.contents()),
    {
        let mut cursor = self.store.first();
        proof {
            lemma_start_up(self.contents(), cursor);
        }
        loop
            invariant
                self.wf(),
                other.wf(),
                rests_in(self.contents(), cursor),
                ahead(self.contents(), cursor) == ahead(old(self).contents(), cursor),
                forall|x: S::Index| #[trigger]
                    self.contents().contains(x) == (old(self).contents().contains(x) && (!ahead(
                        old(self).contents(),
                        cursor,
                    ).contains(x) ==> other.contents().contains(x))),
                distance_up(cursor) >= 0,
            decreases distance_up(cursor),
        {
            match cursor {
                None => {
                    proof {
                        assert(self.contents() =~= old(self).contents().intersect(other.contents()));
                    }
                    return;
                },
                Some(x) => {
                    let ghost before = self.contents();
                    if !other.contains(x) {
                        self.store.remove(x);
                    }
                    let n = self.store.next_after(x);
                    proof {
                        assert(self.contents().remove(x) =~= before.remove(x));
                        lemma_advance(old(self).contents(), before, self.contents(), x, n);
                    }
                    cursor = n;
                },
            }
        }
    }

    /// Removes the indexes that `other` contains.
    pub fn sub_assign<OS: IndexForward<Index = S::Index>>(&mut self, other: &IndexOrdSet<OS>)
        requires
            old(self).wf(),
            other.wf(),
        ensures
            final(self).wf(),
            final(self).contents() == old(self).contents().difference(other.contents()),
    {
        let mut it = other.iter();
        loop
            invariant
                self.wf(),
                it.inv(),
                it.remaining().subset_of(other.contents()),
                self.contents() == old(self).contents().difference(other.contents().difference(
                    it.remaining(),
                )),
            decreases it.measure(),
        {
            match it.next() {
                None => {
                    proof {
                        assert(other.contents().difference(it.remaining()) =~= other.contents());
                    }
                    return;
                },
                Some(x) => {
                    self.store.remove(x);
                    proof {
                        assert(self.contents() =~= old(self).contents().difference(
                            other.contents().difference(it.remaining()),
                        ));
                    }
                },
            }
        }
    }

    /// Inserts the indexes that `other` contains; those whose insertion fails are left out.
    pub fn bitor_assign<OS: IndexForward<Index = S::Index>>(&mut self, other: &IndexOrdSet<OS>)
        requires
            old(self).wf(),
            other.wf(),
            forall|x: S::Index| #[trigger] other.contents().contains(x) ==> S::admits(x),
        ensures
            final(self).wf(),
            old(self).contents().subset_of(final(self).contents()),
            final(self).contents().subset_of(old(self).contents().union(other.contents())),
            S::infallible() ==> final(self).contents() == old(self).contents().union(other.contents()),
    {
        let mut it = other.iter();
        loop
            invariant
                self.wf(),
                it.inv(),
                forall|x: S::Index| #[trigger] other.contents().contains(x) ==> S::admits(x),
                it.remaining().subset_of(other.contents()),
                old(self).contents().subset_of(self.contents()),
                self.contents().subset_of(old(self).contents().union(other.contents())),
                S::infallible() ==> self.contents() == old(self).contents().union(
                    other.contents().difference(it.remaining()),
                ),
            decreases it.measure(),
        {
            match it.next() {
                None => {
                    proof {
                        assert(other.contents().difference(it.remaining()) =~= other.contents());
                    }
                    return;
                },
                Some(x) => {
                    let _ = self.store.insert(x);
                    proof {
                        if S::infallible() {
                            assert(self.contents() =~= old(self).contents().union(
                                other.contents().difference(it.remaining()),
                            ));
                        }
                    }
                },
            }
        }
    }
}

impl<S: IndexForward + IndexStore> IndexOrdSet<S> {
    /// The indexes of `self` that `other` contains too, in `self`'s store.
    pub fn bitand<OS: IndexView<Index = S::Index>>(self, other: &IndexOrdSet<OS>) -> (r: Self)
        requires
            self.wf(),
            other.wf(),
        ensures
            r.wf(),
            r.contents() == self.contents().intersect(other.contents()),
    {
        let mut this = self;
        this.bitand_assign(other);
        this
    }

    /// The indexes of either set, in `self`'s store; those whose insertion fails are left out.
    pub fn bitor<OS: IndexForward<Index = S::Index>>(self, other: &IndexOrdSet<OS>) -> (r: Self)
        requires
            self.wf(),
            other.wf(),
            forall|x: S::Index| #[trigger] other.contents().contains(x) ==> S::admits(x),
        ensures
            r.wf(),
            self.contents().subset_of(r.contents()),
            r.contents().subset_of(self.contents().union(other.contents())),
            S::infallible() ==> r.contents() == self.contents().union(other.contents()),
    {
        let mut this = self;
        this.bitor_assign(other);
        this
    }

    /// The indexes of `self` that `other` does not contain, in `self`'s store.
    pub fn sub<OS: IndexForward<Index = S::Index>>(self, other: &IndexOrdSet<OS>) -> (r: Self)
        requires
            self.wf(),
            other.wf(),
        ensures
            r.wf(),
            r.contents() == self.contents().difference(other.contents()),
    {
        let mut this = self;
        this.sub_assign(other);
        this
    }
}

impl<S: IndexCollection + IndexForward + IndexStore> IndexOrdSet<S> {
    /// Empties the set, and yields the indexes it held, least first.
    ///
    /// The set is empty from this call on, however much of the drain is consumed.
    pub fn drain(&mut self) -> (r: Drain<S::Index, S>)
        requires
            old(self).wf(),
            S::constructible(),
        ensures
            final(self).wf(),
            final(self).contents() == Set::<S::Index>::empty(),
            r.inv(),
            r.remaining() == old(self).contents(),
    {
        let mut taken = S::new();
        core::mem::swap(&mut taken, &mut self.store);
        Drain::start(taken)
    }
}

impl<S: IndexForward + IndexStore> IndexOrdSet<S> {
    /// Removes and yields, least first, the indexes that the predicate accepts.
    pub fn extract_if<F: Fn(S::Index) -> bool>(&mut self, pred: F) -> (r: ExtractIf<'_, S::Index, S, F>)
        requires
            old(self).wf(),
            forall|x: S::Index| pred.requires((x,)),
        ensures
            r.inv(),
            r.pred == pred,
            *r.store == old(self).spec_store(),
            r.pending() == old(self).contents(),
            final(self).spec_store() == *final(r.store),
    {
        let next = self.store.first();
        proof {
            lemma_start_up(self.contents(), next);
        }
        ExtractIf { pred, next, store: &mut self.store }
    }
}

impl<S: IndexOrdered> IndexOrdSet<S> {
    /// The indexes of `self` that `other` does not contain.
    pub fn difference<'a, OS: IndexView<Index = S::Index>>(&'a self, other: &'a IndexOrdSet<OS>) -> (r: Difference<
        'a,
        S::Index,
        S,
        OS,
    >)
        requires
            self.wf(),
            other.wf(),
        ensures
            r.inv(),
            r.remaining() == self.contents().difference(other.contents()),
    {
        Difference::new(self.iter(), &other.store)
    }

    /// The indexes both sets contain, by merging the two ordered traversals.
    pub fn intersection<'a, OS: IndexOrdered<Index = S::Index>>(&'a self, other: &'a IndexOrdSet<OS>) -> (r: IntersectionOrd<
        'a,
        S::Index,
        S,
        OS,
    >)
        requires
            self.wf(),
            other.wf(),
        ensures
            r.inv(),
            r.remaining() == self.contents().intersect(other.contents()),
    {
        IntersectionOrd::new(self.iter(), other.iter())
    }

    /// The indexes either set contains, by merging the two ordered traversals.
    pub fn union<'a, OS: IndexOrdered<Index = S::Index>>(&'a self, other: &'a IndexOrdSet<OS>) -> (r: UnionOrd<
        'a,
        S::Index,
        S,
        OS,
    >)
        requires
            self.wf(),
            other.wf(),
        ensures
            r.inv(),
            r.remaining() == self.contents().union(other.contents()),
    {
        UnionOrd::new(self.iter(), other.iter())
    }

    /// The indexes exactly one set contains, by merging the two ordered traversals.
    pub fn symmetric_difference<'a, OS: IndexOrdered<Index = S::Index>>(
        &'a self,
        other: &'a IndexOrdSet<OS>,
    ) -> (r: SymmetricDifferenceOrd<'a, S::Index, S, OS>)
        requires
            self.wf(),
            other.wf(),
        ensures
            r.inv(),
            r.remaining() == symmetric(self.contents(), other.contents()),
    {
        SymmetricDifferenceOrd::new(self.iter(), other.iter())
    }
}

impl<S: IndexOrdered + IndexStore> IndexOrdSet<S> {
    /// Keeps the indexes exactly one of the sets contains, by a destructive merge of the two ordered
    /// traversals: an index of both is removed from `self`, one of `other` only is inserted.
    pub fn bitxor_assign<OS: IndexOrdered<Index = S::Index>>(&mut self, other: &IndexOrdSet<OS>)
        requires
            old(self).wf(),
            other.wf(),
            S::infallible(),
            forall|x: S::Index| #[trigger] other.contents().contains(x) ==> S::admits(x),
        ensures
            final(self).wf(),
            final(self).contents() == symmetric(old(self).contents(), other.contents()),
    {
        let ghost start = old(self).contents();
        let ghost theirs = other.contents();
        let mut next_self = self.store.first();
        let mut it = other.iter();
        proof {
            lemma_start_up(self.contents(), next_self);
            assert(theirs.difference(it.remaining()) =~= Set::<S::Index>::empty());
            assert(self.contents() =~= symmetric(start, theirs.difference(it.remaining())));
        }
        loop
            invariant
                self.wf(),
                it.inv(),
                S::infallible(),
                forall|x: S::Index| #[trigger] theirs.contains(x) ==> S::admits(x),
                start == old(self).contents(),
                theirs == other.contents(),
                it.remaining().subset_of(theirs),
                rests_in(self.contents(), next_self),
                ahead(self.contents(), next_self) == ahead(start, next_self),
                self.contents() == symmetric(start, theirs.difference(it.remaining())),
                forall|x: S::Index| #[trigger]
                    theirs.difference(it.remaining()).contains(x) ==> x.key() < bound(next_self),
                forall|x: S::Index| #[trigger]
                    it.remaining().contains(x) && x.key() < bound(next_self) ==> !start.contains(x),
                distance_up(next_self) >= 0,
                it.measure() >= 0,
            decreases distance_up(next_self) + it.measure(),
        {
            let that_peek = it.peek();
            let ghost rem = it.remaining();
            match (next_self, that_peek) {
                (_, None) => {
                    proof {
                        assert(theirs.difference(it.remaining()) =~= theirs);
                    }
                    return;
                },
                (None, Some(_)) => {
                    proof {
                        assert forall|x: S::Index| #[trigger] it.remaining().contains(x) implies !start.contains(
                            x,
                        ) by {
                            <S::Index as IndexKey>::lemma_key(x, x);
                        }
                    }
                    self.insert_rest(&mut it, Ghost(start), Ghost(theirs));
                    return;
                },
                (Some(this), Some(that)) => {
                    let ghost before = self.contents();
                    proof {
                        <S::Index as IndexKey>::lemma_key(this, that);
                        assert(ahead(before, next_self).contains(this));
                    }
                    if this.precedes(that) {
                        let n = self.store.next_after(this);
                        proof {
                            assert(self.contents().remove(this) =~= before.remove(this));
                            lemma_advance(start, before, self.contents(), this, n);
                            if let Some(m) = n {
                                assert(crate::index::above(self.contents(), this).contains(m));
                            }
                            assert forall|x: S::Index| #[trigger]
                                it.remaining().contains(x) && x.key() < bound(n) implies !start.contains(x) by {
                                if x.key() >= this.key() && start.contains(x) {
                                    assert(ahead(start, next_self).contains(x));
                                    <S::Index as IndexKey>::lemma_key(x, this);
                                }
                            }
                        }
                        next_self = n;
                    } else if that.precedes(this) {
                        self.store.insert(that);
                        it.next();
                        proof {
                            assert(!start.contains(that));
                            assert forall|x: S::Index| #[trigger] theirs.difference(it.remaining()).contains(x)
                                implies x.key() < bound(next_self) by {
                                if x != that {
                                    assert(theirs.difference(rem).contains(x));
                                }
                            }
                            assert(self.contents() =~= symmetric(start, theirs.difference(it.remaining())));
                            assert(ahead(self.contents(), next_self) =~= ahead(before, next_self));
                        }
                    } else {
                        self.store.remove(this);
                        let n = self.store.next_after(this);
                        it.next();
                        proof {
                            assert(self.contents().remove(this) =~= before.remove(this));
                            lemma_advance(start, before, self.contents(), this, n);
                            assert(self.contents() =~= symmetric(start, theirs.difference(it.remaining())));
                            if let Some(m) = n {
                                assert(crate::index::above(self.contents(), this).contains(m));
                            }
                            assert forall|x: S::Index| #[trigger] theirs.difference(it.remaining()).contains(x)
                                implies x.key() < bound(n) by {
                                if x != that {
                                    assert(theirs.difference(rem).contains(x));
                                }
                            }
                            assert forall|x: S::Index| #[trigger]
                                it.remaining().contains(x) && x.key() < bound(n) implies !start.contains(x) by {
                                <S::Index as IndexKey>::lemma_key(x, this);
                                if x.key() >= this.key() && start.contains(x) {
                                    assert(ahead(start, next_self).contains(x));
                                }
                            }
                        }
                        next_self = n;
                    }
                },
            }
        }
    }

    /// The indexes exactly one of the sets contains, in `self`'s store.
    pub fn bitxor<OS: IndexOrdered<Index = S::Index>>(self, other: &IndexOrdSet<OS>) -> (r: Self)
        requires
            self.wf(),
            other.wf(),
            S::infallible(),
            forall|x: S::Index| #[trigger] other.contents().contains(x) ==> S::admits(x),
        ensures
            r.wf(),
            r.contents() == symmetric(self.contents(), other.contents()),
    {
        let mut this = self;
        this.bitxor_assign(other);
        this
    }

    fn insert_rest<'a, OS: IndexOrdered<Index = S::Index>>(
        &mut self,
        it: &mut Iter<'a, S::Index, OS>,
        start: Ghost<Set<S::Index>>,
        theirs: Ghost<Set<S::Index>>,
    )
        requires
            old(self).wf(),
            old(it).inv(),
            S::infallible(),
            forall|x: S::Index| #[trigger] theirs@.contains(x) ==> S::admits(x),
            old(it).remaining().subset_of(theirs@),
            old(self).contents() == symmetric(start@, theirs@.difference(old(it).remaining())),
            forall|x: S::Index| #[trigger] old(it).remaining().contains(x) ==> !start@.contains(x),
            old(it).measure() >= 0,
        ensures
            final(self).wf(),
            final(self).contents() == symmetric(start@, theirs@),
    {
        loop
            invariant
                self.wf(),
                it.inv(),
                S::infallible(),
                forall|x: S::Index| #[trigger] theirs@.contains(x) ==> S::admits(x),
                it.remaining().subset_of(theirs@),
                self.contents() == symmetric(start@, theirs@.difference(it.remaining())),
                forall|x: S::Index| #[trigger] it.remaining().contains(x) ==> !start@.contains(x),
                it.measure() >= 0,
            decreases it.measure(),
        {
            match it.next() {
                None => {
                    proof {
                        assert(theirs@.difference(it.remaining()) =~= theirs@);
                    }
                    return;
                },
                Some(that) => {
                    self.store.insert(that);
                    proof {
                        assert(self.contents() =~= symmetric(start@, theirs@.difference(it.remaining())));
                    }
                },
            }
        }
    }
}

} // verus!
