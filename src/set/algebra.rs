//! Set algebra iterators: by containment probing, or by merging two ordered traversals.
use vstd::prelude::*;

use crate::chunk::symmetric;
use crate::index::{least, IndexForward, IndexKey, IndexView};
use crate::set::iter::Iter;

verus! {

/// Yields the indexes of the left store that the right one does not contain, least first.
pub struct Difference<'a, I, L, R> {
    pub(crate) left: Iter<'a, I, L>,
    pub(crate) right: &'a R,
}

impl<'a, I: IndexKey, L: IndexForward<Index = I>, R: IndexView<Index = I>> Difference<'a, I, L, R> {
    pub(crate) fn new(left: Iter<'a, I, L>, right: &'a R) -> (r: Self)
        requires
            left.inv(),
            right.wf(),
            left.measure() >= 0,
        ensures
            r.inv(),
            r.remaining() == left.remaining().difference(right.contents()),
    {
        Difference { left, right }
    }

    /// The iterator is consistent.
    pub closed spec fn inv(&self) -> bool {
        self.left.inv() && self.right.wf() && self.left.measure() >= 0
    }

    /// The indexes still to be yielded.
    pub closed spec fn remaining(&self) -> Set<I> {
        self.left.remaining().difference(self.right.contents())
    }

    /// Yields the least remaining index.
    pub fn next(&mut self) -> (r: Option<I>)
        requires
            old(self).inv(),
        ensures
            final(self).inv(),
            least(old(self).remaining(), r),
            final(self).remaining() == match r {
                Some(x) => old(self).remaining().remove(x),
                None => old(self).remaining(),
            },
    {
        loop
            invariant
                self.inv(),
                self.right == old(self).right,
                self.remaining() == old(self).remaining(),
            decreases self.left.measure(),
        {
            match self.left.next() {
                None => {
                    return None;
                },
                Some(x) => {
                    if !self.right.contains(x) {
                        return Some(x);
                    }
                },
            }
        }
    }
}

/// Yields the indexes of the left store that the right one contains too, least first.
pub struct Intersection<'a, I, L, R> {
    pub(crate) left: Iter<'a, I, L>,
    pub(crate) right: &'a R,
}

impl<'a, I: IndexKey, L: IndexForward<Index = I>, R: IndexView<Index = I>> Intersection<'a, I, L, R> {
    pub(crate) fn new(left: Iter<'a, I, L>, right: &'a R) -> (r: Self)
        requires
            left.inv(),
            right.wf(),
            left.measure() >= 0,
        ensures
            r.inv(),
            r.remaining() == left.remaining().intersect(right.contents()),
    {
        Intersection { left, right }
    }

    /// The iterator is consistent.
    pub closed spec fn inv(&self) -> bool {
        self.left.inv() && self.right.wf() && self.left.measure() >= 0
    }

    /// The indexes still to be yielded.
    pub closed spec fn remaining(&self) -> Set<I> {
        self.left.remaining().intersect(self.right.contents())
    }

    /// Yields the least remaining index.
    pub fn next(&mut self) -> (r: Option<I>)
        requires
            old(self).inv(),
        ensures
            final(self).inv(),
            least(old(self).remaining(), r),
            final(self).remaining() == match r {
                Some(x) => old(self).remaining().remove(x),
                None => old(self).remaining(),
            },
    {
        loop
            invariant
                self.inv(),
                self.right == old(self).right,
                self.remaining() == old(self).remaining(),
            decreases self.left.measure(),
        {
            match self.left.next() {
                None => {
                    return None;
                },
                Some(x) => {
                    if self.right.contains(x) {
                        return Some(x);
                    }
                },
            }
        }
    }
}

/// Yields the indexes of the left store, least first, then those of the right store that the left one does not
/// contain, least first.
pub struct Union<'a, I, L, R> {
    pub(crate) left: Iter<'a, I, L>,
    pub(crate) right: Iter<'a, I, R>,
    pub(crate) left_store: &'a L,
}

impl<'a, I: IndexKey, L: IndexForward<Index = I>, R: IndexForward<Index = I>> Union<'a, I, L, R> {
    /// The iterator is consistent.
    pub closed spec fn inv(&self) -> bool {
        &&& self.left.inv()
        &&& self.right.inv()
        &&& self.left_store.wf()
        &&& self.left.remaining().subset_of(self.left_store.contents())
        &&& self.right.measure() >= 0
    }

    /// The indexes of the left store still to be yielded.
    pub closed spec fn left_part(&self) -> Set<I> {
        self.left.remaining()
    }

    /// The indexes of the right store, absent from the left one, still to be yielded.
    pub closed spec fn right_part(&self) -> Set<I> {
        self.right.remaining().difference(self.left_store.contents())
    }

    /// The indexes still to be yielded.
    pub open spec fn remaining(&self) -> Set<I> {
        self.left_part().union(self.right_part())
    }

    pub(crate) fn new(left: Iter<'a, I, L>, right: Iter<'a, I, R>, left_store: &'a L) -> (r: Self)
        requires
            left.inv(),
            right.inv(),
            left_store.wf(),
            left.remaining() == left_store.contents(),
            right.measure() >= 0,
        ensures
            r.inv(),
            r.left_part() == left.remaining(),
            r.right_part() == right.remaining().difference(left_store.contents()),
    {
        Union { left, right, left_store }
    }

    /// Yields the least index left of the left store; once those are exhausted, the least index left of the
    /// right store's own.
    pub fn next(&mut self) -> (r: Option<I>)
        requires
            old(self).inv(),
        ensures
            final(self).inv(),
            old(self).left_part() != Set::<I>::empty() ==> {
                &&& least(old(self).left_part(), r)
                &&& r matches Some(x) && final(self).left_part() == old(self).left_part().remove(x)
                &&& final(self).right_part() == old(self).right_part()
            },
            old(self).left_part() == Set::<I>::empty() ==> {
                &&& least(old(self).right_part(), r)
                &&& final(self).left_part() == old(self).left_part()
                &&& final(self).right_part() == match r {
                    Some(x) => old(self).right_part().remove(x),
                    None => old(self).right_part(),
                }
            },
    {
        if let Some(x) = self.left.next() {
            return Some(x);
        }
        proof {
            assert(old(self).left_part() =~= Set::<I>::empty());
        }
        loop
            invariant
                self.inv(),
                self.left_store == old(self).left_store,
                self.left_part() == Set::<I>::empty(),
                old(self).left_part() == Set::<I>::empty(),
                self.right_part() == old(self).right_part(),
            decreases self.right.measure(),
        {
            let ghost rem = self.right.remaining();
            match self.right.next() {
                None => {
                    proof {
                        assert(old(self).right_part() =~= Set::<I>::empty());
                    }
                    return None;
                },
                Some(x) => {
                    if !self.left_store.contains(x) {
                        proof {
                            assert(self.right_part() =~= old(self).right_part().remove(x));
                        }
                        return Some(x);
                    }
                    proof {
                        assert(self.right_part() =~= old(self).right_part());
                    }
                },
            }
        }
    }
}

/// Yields the indexes of the left store the right one does not contain, least first, then those of the right
/// store the left one does not contain, least first.
pub struct SymmetricDifference<'a, I, L, R> {
    pub(crate) left: Iter<'a, I, L>,
    pub(crate) right: Iter<'a, I, R>,
    pub(crate) left_store: &'a L,
    pub(crate) right_store: &'a R,
}

impl<'a, I: IndexKey, L: IndexForward<Index = I>, R: IndexForward<Index = I>> SymmetricDifference<
    'a,
    I,
    L,
    R,
> {
    /// The iterator is consistent.
    pub closed spec fn inv(&self) -> bool {
        &&& self.left.inv()
        &&& self.right.inv()
        &&& self.left_store.wf()
        &&& self.right_store.wf()
        &&& self.left.measure() >= 0
        &&& self.right.measure() >= 0
    }

    /// The indexes of the left store, absent from the right one, still to be yielded.
    pub closed spec fn left_part(&self) -> Set<I> {
        self.left.remaining().difference(self.right_store.contents())
    }

    /// The indexes of the right store, absent from the left one, still to be yielded.
    pub closed spec fn right_part(&self) -> Set<I> {
        self.right.remaining().difference(self.left_store.contents())
    }

    /// The indexes still to be yielded.
    pub open spec fn remaining(&self) -> Set<I> {
        self.left_part().union(self.right_part())
    }

    pub(crate) fn new(
        left: Iter<'a, I, L>,
        right: Iter<'a, I, R>,
        left_store: &'a L,
        right_store: &'a R,
    ) -> (r: Self)
        requires
            left.inv(),
            right.inv(),
            left_store.wf(),
            right_store.wf(),
            left.measure() >= 0,
            right.measure() >= 0,
        ensures
            r.inv(),
            r.left_part() == left.remaining().difference(right_store.contents()),
            r.right_part() == right.remaining().difference(left_store.contents()),
    {
        SymmetricDifference { left, right, left_store, right_store }
    }

    /// Yields the least index left of the left part; once it is exhausted, the least index left of the right
    /// part.
    pub fn next(&mut self) -> (r: Option<I>)
        requires
            old(self).inv(),
        ensures
            final(self).inv(),
            old(self).left_part() != Set::<I>::empty() ==> {
                &&& least(old(self).left_part(), r)
                &&& r matches Some(x) && final(self).left_part() == old(self).left_part().remove(x)
                &&& final(self).right_part() == old(self).right_part()
            },
            old(self).left_part() == Set::<I>::empty() ==> {
                &&& least(old(self).right_part(), r)
                &&& final(self).left_part() == old(self).left_part()
                &&& final(self).right_part() == match r {
                    Some(x) => old(self).right_part().remove(x),
                    None => old(self).right_part(),
                }
            },
    {
        loop
            invariant
                self.inv(),
                self.left_store == old(self).left_store,
                self.right_store == old(self).right_store,
                self.right.remaining() == old(self).right.remaining(),
                self.left_part() == old(self).left_part(),
                self.left.remaining().subset_of(old(self).left.remaining()),
            ensures
                self.inv(),
                self.left_store == old(self).left_store,
                self.right_store == old(self).right_store,
                self.left_part() == Set::<I>::empty(),
                old(self).left_part() == Set::<I>::empty(),
                self.right_part() == old(self).right_part(),
            decreases self.left.measure(),
        {
            match self.left.next() {
                None => {
                    proof {
                        assert(self.left_part() =~= Set::<I>::empty());
                    }
                    break;
                },
                Some(x) => {
                    if !self.right_store.contains(x) {
                        proof {
                            assert(self.left_part() =~= old(self).left_part().remove(x));
                        }
                        return Some(x);
                    }
                    proof {
                        assert(self.left_part() =~= old(self).left_part());
                    }
                },
            }
        }
        loop
            invariant
                self.inv(),
                self.left_store == old(self).left_store,
                self.right_store == old(self).right_store,
                self.left_part() == Set::<I>::empty(),
                old(self).left_part() == Set::<I>::empty(),
                self.right_part() == old(self).right_part(),
            decreases self.right.measure(),
        {
            match self.right.next() {
                None => {
                    proof {
                        assert(old(self).right_part() =~= Set::<I>::empty());
                    }
                    return None;
                },
                Some(x) => {
                    if !self.left_store.contains(x) {
                        proof {
                            assert(self.right_part() =~= old(self).right_part().remove(x));
                        }
                        return Some(x);
                    }
                    proof {
                        assert(self.right_part() =~= old(self).right_part());
                    }
                },
            }
        }
    }
}

/// Yields, least first, the indexes both ordered stores contain, by merging their traversals.
pub struct IntersectionOrd<'a, I, L, R> {
    pub(crate) left: Iter<'a, I, L>,
    pub(crate) right: Iter<'a, I, R>,
}

impl<'a, I: IndexKey, L: IndexForward<Index = I>, R: IndexForward<Index = I>> IntersectionOrd<'a, I, L, R> {
    pub(crate) fn new(left: Iter<'a, I, L>, right: Iter<'a, I, R>) -> (r: Self)
        requires
            left.inv(),
            right.inv(),
            left.measure() >= 0,
            right.measure() >= 0,
        ensures
            r.inv(),
            r.remaining() == left.remaining().intersect(right.remaining()),
    {
        IntersectionOrd { left, right }
    }

    /// The iterator is consistent.
    pub closed spec fn inv(&self) -> bool {
        self.left.inv() && self.right.inv() && self.left.measure() >= 0 && self.right.measure() >= 0
    }

    /// The indexes still to be yielded.
    pub closed spec fn remaining(&self) -> Set<I> {
        self.left.remaining().intersect(self.right.remaining())
    }

    /// Yields the least remaining index.
    pub fn next(&mut self) -> (r: Option<I>)
        requires
            old(self).inv(),
        ensures
            final(self).inv(),
            least(old(self).remaining(), r),
            final(self).remaining() == match r {
                Some(x) => old(self).remaining().remove(x),
                None => old(self).remaining(),
            },
    {
        loop
            invariant
                self.inv(),
                self.remaining() == old(self).remaining(),
            decreases self.left.measure() + self.right.measure(),
        {
            let a = self.left.peek();
            let b = self.right.peek();
            let ghost lr = self.left.remaining();
            let ghost rr = self.right.remaining();
            match (a, b) {
                (Some(x), Some(y)) => {
                    if x.precedes(y) {
                        self.left.next();
                    } else if y.precedes(x) {
                        self.right.next();
                    } else {
                        proof {
                            I::lemma_key(x, y);
                        }
                        self.left.next();
                        self.right.next();
                        proof {
                            assert(self.remaining() =~= old(self).remaining().remove(x));
                        }
                        return Some(x);
                    }
                },
                _ => {
                    proof {
                        assert(old(self).remaining() =~= Set::<I>::empty());
                    }
                    return None;
                },
            }
        }
    }
}

/// Yields, least first, the indexes either ordered store contains, by merging their traversals.
pub struct UnionOrd<'a, I, L, R> {
    pub(crate) left: Iter<'a, I, L>,
    pub(crate) right: Iter<'a, I, R>,
}

impl<'a, I: IndexKey, L: IndexForward<Index = I>, R: IndexForward<Index = I>> UnionOrd<'a, I, L, R> {
    pub(crate) fn new(left: Iter<'a, I, L>, right: Iter<'a, I, R>) -> (r: Self)
        requires
            left.inv(),
            right.inv(),
        ensures
            r.inv(),
            r.remaining() == left.remaining().union(right.remaining()),
    {
        UnionOrd { left, right }
    }

    /// The iterator is consistent.
    pub closed spec fn inv(&self) -> bool {
        self.left.inv() && self.right.inv()
    }

    /// The indexes still to be yielded.
    pub closed spec fn remaining(&self) -> Set<I> {
        self.left.remaining().union(self.right.remaining())
    }

    /// Yields the least remaining index.
    pub fn next(&mut self) -> (r: Option<I>)
        requires
            old(self).inv(),
        ensures
            final(self).inv(),
            least(old(self).remaining(), r),
            final(self).remaining() == match r {
                Some(x) => old(self).remaining().remove(x),
                None => old(self).remaining(),
            },
    {
        let a = self.left.peek();
        let b = self.right.peek();
        let ghost lr = self.left.remaining();
        let ghost rr = self.right.remaining();
        match (a, b) {
            (None, None) => {
                proof {
                    assert(old(self).remaining() =~= Set::<I>::empty());
                }
                None
            },
            (Some(x), None) => {
                self.left.next();
                proof {
                    assert(self.remaining() =~= old(self).remaining().remove(x));
                }
                Some(x)
            },
            (None, Some(y)) => {
                self.right.next();
                proof {
                    assert(self.remaining() =~= old(self).remaining().remove(y));
                }
                Some(y)
            },
            (Some(x), Some(y)) => {
                if x.precedes(y) {
                    self.left.next();
                    proof {
                        assert(!rr.contains(x));
                        assert(self.remaining() =~= old(self).remaining().remove(x));
                    }
                    Some(x)
                } else if y.precedes(x) {
                    self.right.next();
                    proof {
                        assert(!lr.contains(y));
                        assert(self.remaining() =~= old(self).remaining().remove(y));
                    }
                    Some(y)
                } else {
                    proof {
                        I::lemma_key(x, y);
                    }
                    self.left.next();
                    self.right.next();
                    proof {
                        assert(self.remaining() =~= old(self).remaining().remove(x));
                    }
                    Some(x)
                }
            },
        }
    }
}

/// Yields, least first, the indexes exactly one ordered store contains, by merging their traversals.
pub struct SymmetricDifferenceOrd<'a, I, L, R> {
    pub(crate) left: Iter<'a, I, L>,
    pub(crate) right: Iter<'a, I, R>,
}

impl<'a, I: IndexKey, L: IndexForward<Index = I>, R: IndexForward<Index = I>> SymmetricDifferenceOrd<
    'a,
    I,
    L,
    R,
> {
    pub(crate) fn new(left: Iter<'a, I, L>, right: Iter<'a, I, R>) -> (r: Self)
        requires
            left.inv(),
            right.inv(),
            left.measure() >= 0,
            right.measure() >= 0,
        ensures
            r.inv(),
            r.remaining() == symmetric(left.remaining(), right.remaining()),
    {
        SymmetricDifferenceOrd { left, right }
    }

    /// The iterator is consistent.
    pub closed spec fn inv(&self) -> bool {
        self.left.inv() && self.right.inv() && self.left.measure() >= 0 && self.right.measure() >= 0
    }

    /// The indexes still to be yielded.
    pub closed spec fn remaining(&self) -> Set<I> {
        symmetric(self.left.remaining(), self.right.remaining())
    }

    /// Yields the least remaining index.
    pub fn next(&mut self) -> (r: Option<I>)
        requires
            old(self).inv(),
        ensures
            final(self).inv(),
            least(old(self).remaining(), r),
            final(self).remaining() == match r {
                Some(x) => old(self).remaining().remove(x),
                None => old(self).remaining(),
            },
    {
        loop
            invariant
                self.inv(),
                self.remaining() == old(self).remaining(),
            decreases self.left.measure() + self.right.measure(),
        {
            let a = self.left.peek();
            let b = self.right.peek();
            let ghost lr = self.left.remaining();
            let ghost rr = self.right.remaining();
            match (a, b) {
                (None, None) => {
                    proof {
                        assert(old(self).remaining() =~= Set::<I>::empty());
                    }
                    return None;
                },
                (Some(x), None) => {
                    self.left.next();
                    proof {
                        assert(self.remaining() =~= old(self).remaining().remove(x));
                    }
                    return Some(x);
                },
                (None, Some(y)) => {
                    self.right.next();
                    proof {
                        assert(self.remaining() =~= old(self).remaining().remove(y));
                    }
                    return Some(y);
                },
                (Some(x), Some(y)) => {
                    if x.precedes(y) {
                        self.left.next();
                        proof {
                            assert(!rr.contains(x));
                            assert(self.remaining() =~= old(self).remaining().remove(x));
                        }
                        return Some(x);
                    } else if y.precedes(x) {
                        self.right.next();
                        proof {
                            assert(!lr.contains(y));
                            assert(self.remaining() =~= old(self).remaining().remove(y));
                        }
                        return Some(y);
                    } else {
                        proof {
                            I::lemma_key(x, y);
                        }
                        self.left.next();
                        self.right.next();
                        proof {
                            assert(self.remaining() =~= old(self).remaining());
                        }
                    }
                },
            }
        }
    }
}

} // verus!
