//! Extracting iteration: drain and extract_if.
use vstd::prelude::*;

use crate::index::{least, IndexForward, IndexKey, IndexStore};
use crate::set::iter::{
    ahead, distance_up, lemma_nth_above_in, lemma_skip_up, lemma_start_up, lemma_step_up, nth_least, rests_in,
};

verus! {

/// Yields, least first, the indexes a set held when the drain began; the set itself was emptied then.
///
/// However much of it is consumed, the drained set is left empty.
pub struct Drain<I, S> {
    pub(crate) next: Option<I>,
    pub(crate) store: S,
}

impl<I: IndexKey, S: IndexForward<Index = I>> Drain<I, S> {
    /// The cursor is consistent with the drained store.
    pub closed spec fn inv(&self) -> bool {
        self.store.wf() && rests_in(self.store.contents(), self.next)
    }

    /// The indexes still to be yielded.
    pub closed spec fn remaining(&self) -> Set<I> {
        ahead(self.store.contents(), self.next)
    }

    /// The index the cursor rests on.
    pub closed spec fn current(&self) -> Option<I> {
        self.next
    }

    pub(crate) fn start(store: S) -> (r: Self)
        requires
            store.wf(),
        ensures
            r.inv(),
            r.remaining() == store.contents(),
    {
        let next = store.first();
        proof {
            lemma_start_up(store.contents(), next);
        }
        Drain { next, store }
    }

    /// Yields the least remaining index.
    pub fn next(&mut self) -> (r: Option<I>)
        requires
            old(self).inv(),
        ensures
            final(self).inv(),
            least(old(self).remaining(), r),
            r == old(self).current(),
            final(self).remaining() == match r {
                Some(x) => old(self).remaining().remove(x),
                None => old(self).remaining(),
            },
    {
        match self.next {
            None => None,
            Some(c) => {
                let n = self.store.next_after(c);
                proof {
                    lemma_step_up(self.store.contents(), c, n);
                }
                self.next = n;
                Some(c)
            },
        }
    }


    /// Skips `n` indexes, then yields the next one, if any; once nothing is left, the iterator stays exhausted.
    pub fn nth(&mut self, n: usize) -> (r: Option<I>)
        requires
            old(self).inv(),
        ensures
            final(self).inv(),
            r == nth_least(old(self).remaining(), n as nat),
            final(self).remaining() == match r {
                Some(x) => old(self).remaining().filter(|y: I| x.key() < y.key()),
                None => Set::<I>::empty(),
            },
    {
        let ghost s = self.store.contents();
        let ghost rem = self.remaining();
        proof {
            lemma_skip_up(s, self.next, n as nat);
        }
        if n > 0 {
            match self.next {
                None => {
                    return None;
                },
                Some(c) => {
                    match self.store.nth_after(n - 1, c) {
                        Ok(x) => {
                            proof {
                                lemma_nth_above_in(s, c, (n - 1) as nat);
                            }
                            self.next = Some(x);
                        },
                        Err(_) => {
                            self.next = None;
                            return None;
                        },
                    }
                },
            }
        }
        let r = self.next();
        proof {
            if let Some(x) = r {
                assert forall|y: I| #[trigger] self.remaining().contains(y) == rem.filter(|y: I| x.key() < y.key()).contains(y) by {
                    I::lemma_key(x, y);
                    if let Some(c) = old(self).next {
                        I::lemma_key(c, y);
                    }
                }
                assert(self.remaining() =~= rem.filter(|y: I| x.key() < y.key()));
            }
        }
        r
    }
}

impl<I: IndexKey, S: IndexForward<Index = I> + IndexStore<Index = I>> Drain<I, S> {
    /// Returns the exact number of indexes still to be yielded.
    pub fn len(&self) -> (r: usize)
        requires
            self.inv(),
        ensures
            r as nat == self.remaining().len(),
    {
        let total = self.store.len();
        proof {
            self.store.lemma_count();
            vstd::set_lib::lemma_len_subset(self.remaining(), self.store.contents());
        }
        let mut count: usize = 0;
        let mut cursor = self.next;
        proof {
            if let Some(c) = cursor {
                I::lemma_key(c, c);
            }
        }
        loop
            invariant
                self.inv(),
                self.store.contents().finite(),
                total as nat == self.store.contents().len(),
                rests_in(self.store.contents(), cursor),
                ahead(self.store.contents(), cursor).subset_of(self.remaining()),
                count + ahead(self.store.contents(), cursor).len() == self.remaining().len(),
                self.remaining().len() <= total,
                distance_up(cursor) >= 0,
            decreases distance_up(cursor),
        {
            let c = match cursor {
                None => {
                    return count;
                },
                Some(c) => c,
            };
            let n = self.store.next_after(c);
            proof {
                lemma_step_up(self.store.contents(), c, n);
                vstd::set_lib::lemma_set_subset_finite(self.store.contents(), ahead(self.store.contents(), cursor));
                assert(ahead(self.store.contents(), cursor).contains(c));
                vstd::set_lib::lemma_len_subset(ahead(self.store.contents(), cursor), self.remaining());
            }
            count = count + 1;
            cursor = n;
        }
    }
}

/// Removes and yields, least first, the indexes of a set that satisfy a predicate.
pub struct ExtractIf<'a, I, S, F> {
    /// The predicate.
    pub pred: F,
    /// The next index to examine.
    pub next: Option<I>,
    /// The store of the set.
    pub store: &'a mut S,
}

impl<'a, I: IndexKey, S: IndexForward<Index = I> + IndexStore<Index = I>, F: Fn(I) -> bool> ExtractIf<
    'a,
    I,
    S,
    F,
> {
    /// The cursor is consistent with the store.
    pub open spec fn inv(&self) -> bool {
        &&& self.store.wf()
        &&& rests_in(self.store.contents(), self.next)
        &&& forall|x: I| self.pred.requires((x,))
    }

    /// The indexes not yet examined.
    pub open spec fn pending(&self) -> Set<I> {
        ahead(self.store.contents(), self.next)
    }

    /// Removes and yields the least pending index that satisfies the predicate; the indexes examined before it
    /// stay.
    pub fn next(&mut self) -> (r: Option<I>)
        requires
            old(self).inv(),
        ensures
            final(self).inv(),
            final(self).pred == old(self).pred,
            match r {
                Some(x) => {
                    &&& old(self).pending().contains(x)
                    &&& old(self).pred.ensures((x,), true)
                    &&& final(self).store.contents() == old(self).store.contents().remove(x)
                    &&& final(self).pending() == old(self).pending().filter(|y: I| x.key() < y.key())
                    &&& forall|y: I| #[trigger] old(self).pending().contains(y) && y.key() < x.key()
                        ==> old(self).pred.ensures((y,), false)
                },
                None => {
                    &&& final(self).store.contents() == old(self).store.contents()
                    &&& forall|y: I| #[trigger] old(self).pending().contains(y) ==> old(
                        self,
                    ).pred.ensures((y,), false)
                },
            },
    {
        proof {
            if let Some(c) = self.next {
                I::lemma_key(c, c);
            }
        }
        loop
            invariant
                self.inv(),
                self.pred == old(self).pred,
                self.store.contents() == old(self).store.contents(),
                self.pending().subset_of(old(self).pending()),
                forall|y: I| #[trigger] old(self).pending().contains(y) && !self.pending().contains(y)
                    ==> old(self).pred.ensures((y,), false),
                forall|y: I| #[trigger] old(self).pending().contains(y) && !self.pending().contains(y)
                    ==> forall|z: I| #[trigger] self.pending().contains(z) ==> y.key() < z.key(),
                distance_up(self.next) >= 0,
            decreases distance_up(self.next),
        {
            match self.next {
                None => {
                    return None;
                },
                Some(x) => {
                    let keep = (self.pred)(x);
                    let n = self.store.next_after(x);
                    proof {
                        lemma_step_up(self.store.contents(), x, n);
                    }
                    if keep {
                        self.store.remove(x);
                        proof {
                            I::lemma_key(x, x);
                            assert forall|y: I| #[trigger] ahead(self.store.contents(), n).contains(y)
                                == old(self).pending().filter(|y: I| x.key() < y.key()).contains(y) by {
                                I::lemma_key(x, y);
                            }
                            assert(ahead(self.store.contents(), n) =~= old(self).pending().filter(
                                |y: I| x.key() < y.key(),
                            ));
                        }
                        self.next = n;
                        return Some(x);
                    }
                    self.next = n;
                },
            }
        }
    }
}

} // verus!
