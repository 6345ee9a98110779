//! Forward and backward cursors over a store, borrowed or owned.
use vstd::prelude::*;

use crate::index::{
    above, below, greatest, greatest_below, is_greatest, is_least, least, least_above, nth_above, nth_below,
    IndexBackward, IndexForward, IndexKey, IndexStore,
};

verus! {

/// The indexes of `s` at or above `c`.
pub open spec fn at_or_above<I: IndexKey>(s: Set<I>, c: I) -> Set<I> {
    s.filter(|x: I| c.key() <= x.key())
}

/// The indexes of `s` at or below `c`.
pub open spec fn at_or_below<I: IndexKey>(s: Set<I>, c: I) -> Set<I> {
    s.filter(|x: I| x.key() <= c.key())
}

/// What an ascending cursor at `next` over `s` has still to yield.
pub open spec fn ahead<I: IndexKey>(s: Set<I>, next: Option<I>) -> Set<I> {
    match next {
        Some(c) => at_or_above(s, c),
        None => Set::empty(),
    }
}

/// What a descending cursor at `next` over `s` has still to yield.
pub open spec fn behind<I: IndexKey>(s: Set<I>, next: Option<I>) -> Set<I> {
    match next {
        Some(c) => at_or_below(s, c),
        None => Set::empty(),
    }
}

/// A cursor is consistent with `s` when it rests on an index of `s`, or is exhausted.
pub open spec fn rests_in<I: IndexKey>(s: Set<I>, next: Option<I>) -> bool {
    next matches Some(c) ==> s.contains(c)
}

/// How far an ascending cursor is from exhaustion.
pub open spec fn distance_up<I: IndexKey>(next: Option<I>) -> int {
    match next {
        Some(c) => I::key_limit() - c.key(),
        None => 0,
    }
}

/// The key an ascending cursor rests on, or the key limit once it is exhausted.
pub open spec fn bound<I: IndexKey>(next: Option<I>) -> int {
    match next {
        Some(c) => c.key(),
        None => I::key_limit(),
    }
}

/// How far a descending cursor is from exhaustion.
pub open spec fn distance_down<I: IndexKey>(next: Option<I>) -> int {
    match next {
        Some(c) => c.key() + 1,
        None => 0,
    }
}

/// Moving an ascending cursor from `c` to the least index above it removes exactly `c` from what lies ahead.
pub proof fn lemma_step_up<I: IndexKey>(s: Set<I>, c: I, n: Option<I>)
    requires
        s.contains(c),
        least(crate::index::above(s, c), n),
    ensures
        least(at_or_above(s, c), Some(c)),
        ahead(s, n) == at_or_above(s, c).remove(c),
        rests_in(s, n),
        0 <= distance_up(n) < distance_up(Some(c)),
{
    I::lemma_key(c, c);
    if let Some(m) = n {
        I::lemma_key(m, m);
    }
    assert forall|x: I| #[trigger] at_or_above(s, c).contains(x) && x != c implies c.key() < x.key() by {
        I::lemma_key(x, c);
    }
    assert forall|x: I| #[trigger] ahead(s, n).contains(x) == at_or_above(s, c).remove(c).contains(x) by {
        I::lemma_key(x, c);
        if s.contains(x) && c.key() < x.key() {
            assert(crate::index::above(s, c).contains(x));
        }
    }
    assert(ahead(s, n) =~= at_or_above(s, c).remove(c));
}

/// Moving a descending cursor from `c` to the greatest index below it removes exactly `c` from what lies behind.
pub proof fn lemma_step_down<I: IndexKey>(s: Set<I>, c: I, n: Option<I>)
    requires
        s.contains(c),
        greatest(crate::index::below(s, c), n),
    ensures
        greatest(at_or_below(s, c), Some(c)),
        behind(s, n) == at_or_below(s, c).remove(c),
        rests_in(s, n),
        0 <= distance_down(n) < distance_down(Some(c)),
{
    I::lemma_key(c, c);
    if let Some(m) = n {
        I::lemma_key(m, m);
    }
    assert forall|x: I| #[trigger] at_or_below(s, c).contains(x) && x != c implies x.key() < c.key() by {
        I::lemma_key(x, c);
    }
    assert forall|x: I| #[trigger] behind(s, n).contains(x) == at_or_below(s, c).remove(c).contains(x) by {
        I::lemma_key(x, c);
        if s.contains(x) && x.key() < c.key() {
            assert(crate::index::below(s, c).contains(x));
        }
    }
    assert(behind(s, n) =~= at_or_below(s, c).remove(c));
}

/// A starting cursor on the least index has the whole set ahead of it.
pub proof fn lemma_start_up<I: IndexKey>(s: Set<I>, n: Option<I>)
    requires
        least(s, n),
    ensures
        ahead(s, n) == s,
        rests_in(s, n),
        distance_up(n) >= 0,
{
    match n {
        Some(c) => {
            I::lemma_key(c, c);
            assert(ahead(s, n) =~= s);
        },
        None => {
            assert(ahead(s, n) =~= s);
        },
    }
}

/// A starting cursor on the greatest index has the whole set behind it.
pub proof fn lemma_start_down<I: IndexKey>(s: Set<I>, n: Option<I>)
    requires
        greatest(s, n),
    ensures
        behind(s, n) == s,
        rests_in(s, n),
        distance_down(n) >= 0,
{
    match n {
        Some(c) => {
            I::lemma_key(c, c);
            assert(behind(s, n) =~= s);
        },
        None => {
            assert(behind(s, n) =~= s);
        },
    }
}

/// Advancing a cursor over a store mutated only at the cursor keeps it in step with the contents it started from.
pub proof fn lemma_advance<I: IndexKey>(orig: Set<I>, before: Set<I>, after: Set<I>, x: I, n: Option<I>)
    requires
        before.contains(x),
        ahead(before, Some(x)) == ahead(orig, Some(x)),
        after.remove(x) == before.remove(x),
        least(crate::index::above(after, x), n),
    ensures
        orig.contains(x),
        ahead(after, n) == ahead(orig, n),
        ahead(orig, n) == ahead(orig, Some(x)).remove(x),
        rests_in(after, n),
        0 <= distance_up(n) < distance_up(Some(x)),
{
    I::lemma_key(x, x);
    assert(ahead(before, Some(x)).contains(x));
    assert forall|y: I| #[trigger] crate::index::above(after, x).contains(y) == crate::index::above(
        orig,
        x,
    ).contains(y) by {
        I::lemma_key(x, y);
        if y != x {
            assert(after.remove(x).contains(y) == after.contains(y));
            assert(before.remove(x).contains(y) == before.contains(y));
            assert(ahead(before, Some(x)).contains(y) == ahead(orig, Some(x)).contains(y));
            assert(ahead(before, Some(x)).contains(y) == (before.contains(y) && x.key() <= y.key()));
            assert(ahead(orig, Some(x)).contains(y) == (orig.contains(y) && x.key() <= y.key()));
        }
    }
    assert(crate::index::above(after, x) =~= crate::index::above(orig, x));
    lemma_step_up(orig, x, n);
    if let Some(m) = n {
        I::lemma_key(m, m);
        assert(crate::index::above(after, x).contains(m));
        assert forall|y: I| #[trigger] ahead(after, n).contains(y) == ahead(orig, n).contains(y) by {
            I::lemma_key(x, y);
            I::lemma_key(m, y);
            if m.key() <= y.key() {
                assert(crate::index::above(after, x).contains(y) == crate::index::above(orig, x).contains(
                    y,
                ));
            }
        }
        assert(ahead(after, n) =~= ahead(orig, n));
    } else {
        assert(ahead(after, n) =~= ahead(orig, n));
    }
}

/// What `nth_above` finds lies in the set, above the start.
pub proof fn lemma_nth_above_in<I: IndexKey>(s: Set<I>, c: I, n: nat)
    ensures
        nth_above(s, c, n) matches Ok(x) ==> s.contains(x) && c.key() < x.key(),
    decreases n,
{
    if let Some(y) = least_above(s, c) {
        assert(is_least(above(s, c), y));
        if n > 0 {
            lemma_nth_above_in(s, y, (n - 1) as nat);
        }
    }
}

/// What `nth_below` finds lies in the set, below the start.
pub proof fn lemma_nth_below_in<I: IndexKey>(s: Set<I>, c: I, n: nat)
    ensures
        nth_below(s, c, n) matches Ok(x) ==> s.contains(x) && x.key() < c.key(),
    decreases n,
{
    if let Some(y) = greatest_below(s, c) {
        assert(is_greatest(below(s, c), y));
        if n > 0 {
            lemma_nth_below_in(s, y, (n - 1) as nat);
        }
    }
}

/// The result of skipping `n` indexes from an ascending cursor at `next`, then taking one.
pub open spec fn skip_up<I: IndexKey>(s: Set<I>, next: Option<I>, n: nat) -> Option<I> {
    match next {
        None => None,
        Some(c) => if n == 0 {
            Some(c)
        } else {
            match nth_above(s, c, (n - 1) as nat) {
                Ok(x) => Some(x),
                Err(_) => None,
            }
        },
    }
}

/// The result of skipping `n` indexes from a descending cursor at `next`, then taking one.
pub open spec fn skip_down<I: IndexKey>(s: Set<I>, next: Option<I>, n: nat) -> Option<I> {
    match next {
        None => None,
        Some(c) => if n == 0 {
            Some(c)
        } else {
            match nth_below(s, c, (n - 1) as nat) {
                Ok(x) => Some(x),
                Err(_) => None,
            }
        },
    }
}

/// The `n`-th least index of `s`, counting from zero, if `s` has more than `n` indexes.
pub open spec fn nth_least<I: IndexKey>(s: Set<I>, n: nat) -> Option<I>
    decreases n,
{
    if exists|x: I| is_least(s, x) {
        let x = choose|x: I| is_least(s, x);
        if n == 0 {
            Some(x)
        } else {
            nth_least(s.remove(x), (n - 1) as nat)
        }
    } else {
        None
    }
}

/// The `n`-th greatest index of `s`, counting from zero, if `s` has more than `n` indexes.
pub open spec fn nth_greatest<I: IndexKey>(s: Set<I>, n: nat) -> Option<I>
    decreases n,
{
    if exists|x: I| is_greatest(s, x) {
        let x = choose|x: I| is_greatest(s, x);
        if n == 0 {
            Some(x)
        } else {
            nth_greatest(s.remove(x), (n - 1) as nat)
        }
    } else {
        None
    }
}

proof fn lemma_nth_least_above<I: IndexKey>(s: Set<I>, c: I, m: nat)
    ensures
        nth_least(above(s, c), m) == match nth_above(s, c, m) {
            Ok(x) => Some(x),
            Err(_) => None::<I>,
        },
    decreases m,
{
    if exists|x: I| is_least(above(s, c), x) {
        let x = choose|x: I| is_least(above(s, c), x);
        if m > 0 {
            I::lemma_key(x, x);
            assert forall|y: I| #[trigger] above(s, c).remove(x).contains(y) == above(s, x).contains(y) by {
                I::lemma_key(x, y);
            }
            assert(above(s, c).remove(x) =~= above(s, x));
            lemma_nth_least_above(s, x, (m - 1) as nat);
        }
    }
}

proof fn lemma_nth_greatest_below<I: IndexKey>(s: Set<I>, c: I, m: nat)
    ensures
        nth_greatest(below(s, c), m) == match nth_below(s, c, m) {
            Ok(x) => Some(x),
            Err(_) => None::<I>,
        },
    decreases m,
{
    if exists|x: I| is_greatest(below(s, c), x) {
        let x = choose|x: I| is_greatest(below(s, c), x);
        if m > 0 {
            I::lemma_key(x, x);
            assert forall|y: I| #[trigger] below(s, c).remove(x).contains(y) == below(s, x).contains(y) by {
                I::lemma_key(x, y);
            }
            assert(below(s, c).remove(x) =~= below(s, x));
            lemma_nth_greatest_below(s, x, (m - 1) as nat);
        }
    }
}

/// Skipping from an ascending cursor picks the `n`-th least index of what lies ahead.
pub proof fn lemma_skip_up<I: IndexKey>(s: Set<I>, next: Option<I>, n: nat)
    requires
        rests_in(s, next),
    ensures
        skip_up(s, next, n) == nth_least(ahead(s, next), n),
{
    match next {
        None => {
            assert forall|x: I| !is_least(ahead(s, next), x) by {}
        },
        Some(c) => {
            I::lemma_key(c, c);
            let a = at_or_above(s, c);
            assert(is_least(a, c));
            let x = choose|x: I| is_least(a, x);
            I::lemma_key(x, c);
            if n > 0 {
                assert forall|y: I| #[trigger] a.remove(c).contains(y) == above(s, c).contains(y) by {
                    I::lemma_key(c, y);
                }
                assert(a.remove(c) =~= above(s, c));
                lemma_nth_least_above(s, c, (n - 1) as nat);
            }
        },
    }
}

/// Skipping from a descending cursor picks the `n`-th greatest index of what lies behind.
pub proof fn lemma_skip_down<I: IndexKey>(s: Set<I>, next: Option<I>, n: nat)
    requires
        rests_in(s, next),
    ensures
        skip_down(s, next, n) == nth_greatest(behind(s, next), n),
{
    match next {
        None => {
            assert forall|x: I| !is_greatest(behind(s, next), x) by {}
        },
        Some(c) => {
            I::lemma_key(c, c);
            let a = at_or_below(s, c);
            assert(is_greatest(a, c));
            let x = choose|x: I| is_greatest(a, x);
            I::lemma_key(x, c);
            if n > 0 {
                assert forall|y: I| #[trigger] a.remove(c).contains(y) == below(s, c).contains(y) by {
                    I::lemma_key(c, y);
                }
                assert(a.remove(c) =~= below(s, c));
                lemma_nth_greatest_below(s, c, (n - 1) as nat);
            }
        },
    }
}

/// Forward iterator over a borrowed store, by ascending index.
pub struct Iter<'a, I, S> {
    pub(crate) next: Option<I>,
    pub(crate) store: &'a S,
}

impl<'a, I: IndexKey, S: IndexForward<Index = I>> Iter<'a, I, S> {
    /// The cursor is consistent with its store.
    pub closed spec fn inv(&self) -> bool {
        self.store.wf() && rests_in(self.store.contents(), self.next)
    }

    /// The indexes still to be yielded.
    pub closed spec fn remaining(&self) -> Set<I> {
        ahead(self.store.contents(), self.next)
    }

    /// Decreases with each index yielded.
    pub closed spec fn measure(&self) -> int {
        distance_up(self.next)
    }

    /// The index the cursor rests on.
    pub closed spec fn current(&self) -> Option<I> {
        self.next
    }

    pub(crate) fn start(store: &'a S) -> (r: Self)
        requires
            store.wf(),
        ensures
            r.inv(),
            r.remaining() == store.contents(),
            r.measure() >= 0,
    {
        let next = store.first();
        proof {
            lemma_start_up(store.contents(), next);
        }
        Iter { next, store }
    }

    /// Returns the next index without advancing.
    pub fn peek(&self) -> (r: Option<I>)
        requires
            self.inv(),
        ensures
            least(self.remaining(), r),
            r == self.current(),
    {
        proof {
            if let Some(c) = self.next {
                I::lemma_key(c, c);
            }
        }
        self.next
    }

    /// Yields the least remaining index.
    pub fn next(&mut self) -> (r: Option<I>)
        requires
            old(self).inv(),
        ensures
            final(self).inv(),
            least(old(self).remaining(), r),
            r == old(self).current(),
            final(self).remaining() == match r {
                Some(x) => old(self).remaining().remove(x),
                None => old(self).remaining(),
            },
            r is Some ==> 0 <= final(self).measure() < old(self).measure(),
            r is None ==> final(self).measure() == old(self).measure(),
    {
        match self.next {
            None => None,
            Some(c) => {
                let n = self.store.next_after(c);
                proof {
                    lemma_step_up(self.store.contents(), c, n);
                }
                self.next = n;
                Some(c)
            },
        }
    }


    /// Skips `n` indexes, then yields the next one, if any; once nothing is left, the iterator stays exhausted.
    pub fn nth(&mut self, n: usize) -> (r: Option<I>)
        requires
            old(self).inv(),
        ensures
            final(self).inv(),
            r == nth_least(old(self).remaining(), n as nat),
            final(self).remaining() == match r {
                Some(x) => old(self).remaining().filter(|y: I| x.key() < y.key()),
                None => Set::<I>::empty(),
            },
    {
        let ghost s = self.store.contents();
        let ghost rem = self.remaining();
        proof {
            lemma_skip_up(s, self.next, n as nat);
        }
        if n > 0 {
            match self.next {
                None => {
                    return None;
                },
                Some(c) => {
                    match self.store.nth_after(n - 1, c) {
                        Ok(x) => {
                            proof {
                                lemma_nth_above_in(s, c, (n - 1) as nat);
                            }
                            self.next = Some(x);
                        },
                        Err(_) => {
                            self.next = None;
                            return None;
                        },
                    }
                },
            }
        }
        let r = self.next();
        proof {
            if let Some(x) = r {
                assert forall|y: I| #[trigger] self.remaining().contains(y) == rem.filter(|y: I| x.key() < y.key()).contains(y) by {
                    I::lemma_key(x, y);
                    if let Some(c) = old(self).next {
                        I::lemma_key(c, y);
                    }
                }
                assert(self.remaining() =~= rem.filter(|y: I| x.key() < y.key()));
            }
        }
        r
    }
}

/// Backward iterator over a borrowed store, by descending index.
pub struct IterRev<'a, I, S> {
    pub(crate) next: Option<I>,
    pub(crate) store: &'a S,
}

impl<'a, I: IndexKey, S: IndexBackward<Index = I>> IterRev<'a, I, S> {
    /// The cursor is consistent with its store.
    pub closed spec fn inv(&self) -> bool {
        self.store.wf() && rests_in(self.store.contents(), self.next)
    }

    /// The indexes still to be yielded.
    pub closed spec fn remaining(&self) -> Set<I> {
        behind(self.store.contents(), self.next)
    }

    /// Decreases with each index yielded.
    pub closed spec fn measure(&self) -> int {
        distance_down(self.next)
    }

    /// The index the cursor rests on.
    pub closed spec fn current(&self) -> Option<I> {
        self.next
    }

    pub(crate) fn start(store: &'a S) -> (r: Self)
        requires
            store.wf(),
        ensures
            r.inv(),
            r.remaining() == store.contents(),
            r.measure() >= 0,
    {
        let next = store.last();
        proof {
            lemma_start_down(store.contents(), next);
        }
        IterRev { next, store }
    }

    /// Yields the greatest remaining index.
    pub fn next(&mut self) -> (r: Option<I>)
        requires
            old(self).inv(),
        ensures
            final(self).inv(),
            greatest(old(self).remaining(), r),
            r == old(self).current(),
            final(self).remaining() == match r {
                Some(x) => old(self).remaining().remove(x),
                None => old(self).remaining(),
            },
            r is Some ==> 0 <= final(self).measure() < old(self).measure(),
    {
        match self.next {
            None => None,
            Some(c) => {
                let n = self.store.next_before(c);
                proof {
                    lemma_step_down(self.store.contents(), c, n);
                }
                self.next = n;
                Some(c)
            },
        }
    }


    /// Skips `n` indexes, then yields the next one, if any; once nothing is left, the iterator stays exhausted.
    pub fn nth(&mut self, n: usize) -> (r: Option<I>)
        requires
            old(self).inv(),
        ensures
            final(self).inv(),
            r == nth_greatest(old(self).remaining(), n as nat),
            final(self).remaining() == match r {
                Some(x) => old(self).remaining().filter(|y: I| y.key() < x.key()),
                None => Set::<I>::empty(),
            },
    {
        let ghost s = self.store.contents();
        let ghost rem = self.remaining();
        proof {
            lemma_skip_down(s, self.next, n as nat);
        }
        if n > 0 {
            match self.next {
                None => {
                    return None;
                },
                Some(c) => {
                    match self.store.nth_before(n - 1, c) {
                        Ok(x) => {
                            proof {
                                lemma_nth_below_in(s, c, (n - 1) as nat);
                            }
                            self.next = Some(x);
                        },
                        Err(_) => {
                            self.next = None;
                            return None;
                        },
                    }
                },
            }
        }
        let r = self.next();
        proof {
            if let Some(x) = r {
                assert forall|y: I| #[trigger] self.remaining().contains(y) == rem.filter(|y: I| y.key() < x.key()).contains(y) by {
                    I::lemma_key(x, y);
                    if let Some(c) = old(self).next {
                        I::lemma_key(c, y);
                    }
                }
                assert(self.remaining() =~= rem.filter(|y: I| y.key() < x.key()));
            }
        }
        r
    }
}

/// Forward iterator owning its store, by ascending index.
pub struct IntoIter<I, S> {
    pub(crate) next: Option<I>,
    pub(crate) store: S,
}

impl<I: IndexKey, S: IndexForward<Index = I>> IntoIter<I, S> {
    /// The cursor is consistent with its store.
    pub closed spec fn inv(&self) -> bool {
        self.store.wf() && rests_in(self.store.contents(), self.next)
    }

    /// The indexes still to be yielded.
    pub closed spec fn remaining(&self) -> Set<I> {
        ahead(self.store.contents(), self.next)
    }

    /// The index the cursor rests on.
    pub closed spec fn current(&self) -> Option<I> {
        self.next
    }

    pub(crate) fn start(store: S) -> (r: Self)
        requires
            store.wf(),
        ensures
            r.inv(),
            r.remaining() == store.contents(),
    {
        let next = store.first();
        proof {
            lemma_start_up(store.contents(), next);
        }
        IntoIter { next, store }
    }

    /// Yields the least remaining index.
    pub fn next(&mut self) -> (r: Option<I>)
        requires
            old(self).inv(),
        ensures
            final(self).inv(),
            least(old(self).remaining(), r),
            r == old(self).current(),
            final(self).remaining() == match r {
                Some(x) => old(self).remaining().remove(x),
                None => old(self).remaining(),
            },
    {
        match self.next {
            None => None,
            Some(c) => {
                let n = self.store.next_after(c);
                proof {
                    lemma_step_up(self.store.contents(), c, n);
                }
                self.next = n;
                Some(c)
            },
        }
    }


    /// Skips `n` indexes, then yields the next one, if any; once nothing is left, the iterator stays exhausted.
    pub fn nth(&mut self, n: usize) -> (r: Option<I>)
        requires
            old(self).inv(),
        ensures
            final(self).inv(),
            r == nth_least(old(self).remaining(), n as nat),
            final(self).remaining() == match r {
                Some(x) => old(self).remaining().filter(|y: I| x.key() < y.key()),
                None => Set::<I>::empty(),
            },
    {
        let ghost s = self.store.contents();
        let ghost rem = self.remaining();
        proof {
            lemma_skip_up(s, self.next, n as nat);
        }
        if n > 0 {
            match self.next {
                None => {
                    return None;
                },
                Some(c) => {
                    match self.store.nth_after(n - 1, c) {
                        Ok(x) => {
                            proof {
                                lemma_nth_above_in(s, c, (n - 1) as nat);
                            }
                            self.next = Some(x);
                        },
                        Err(_) => {
                            self.next = None;
                            return None;
                        },
                    }
                },
            }
        }
        let r = self.next();
        proof {
            if let Some(x) = r {
                assert forall|y: I| #[trigger] self.remaining().contains(y) == rem.filter(|y: I| x.key() < y.key()).contains(y) by {
                    I::lemma_key(x, y);
                    if let Some(c) = old(self).next {
                        I::lemma_key(c, y);
                    }
                }
                assert(self.remaining() =~= rem.filter(|y: I| x.key() < y.key()));
            }
        }
        r
    }
}

/// Backward iterator owning its store, by descending index.
pub struct IntoIterRev<I, S> {
    pub(crate) next: Option<I>,
    pub(crate) store: S,
}

impl<I: IndexKey, S: IndexBackward<Index = I>> IntoIterRev<I, S> {
    /// The cursor is consistent with its store.
    pub closed spec fn inv(&self) -> bool {
        self.store.wf() && rests_in(self.store.contents(), self.next)
    }

    /// The indexes still to be yielded.
    pub closed spec fn remaining(&self) -> Set<I> {
        behind(self.store.contents(), self.next)
    }

    /// The index the cursor rests on.
    pub closed spec fn current(&self) -> Option<I> {
        self.next
    }

    pub(crate) fn start(store: S) -> (r: Self)
        requires
            store.wf(),
        ensures
            r.inv(),
            r.remaining() == store.contents(),
    {
        let next = store.last();
        proof {
            lemma_start_down(store.contents(), next);
        }
        IntoIterRev { next, store }
    }

    /// Yields the greatest remaining index.
    pub fn next(&mut self) -> (r: Option<I>)
        requires
            old(self).inv(),
        ensures
            final(self).inv(),
            greatest(old(self).remaining(), r),
            r == old(self).current(),
            final(self).remaining() == match r {
                Some(x) => old(self).remaining().remove(x),
                None => old(self).remaining(),
            },
    {
        match self.next {
            None => None,
            Some(c) => {
                let n = self.store.next_before(c);
                proof {
                    lemma_step_down(self.store.contents(), c, n);
                }
                self.next = n;
                Some(c)
            },
        }
    }


    /// Skips `n` indexes, then yields the next one, if any; once nothing is left, the iterator stays exhausted.
    pub fn nth(&mut self, n: usize) -> (r: Option<I>)
        requires
            old(self).inv(),
        ensures
            final(self).inv(),
            r == nth_greatest(old(self).remaining(), n as nat),
            final(self).remaining() == match r {
                Some(x) => old(self).remaining().filter(|y: I| y.key() < x.key()),
                None => Set::<I>::empty(),
            },
    {
        let ghost s = self.store.contents();
        let ghost rem = self.remaining();
        proof {
            lemma_skip_down(s, self.next, n as nat);
        }
        if n > 0 {
            match self.next {
                None => {
                    return None;
                },
                Some(c) => {
                    match self.store.nth_before(n - 1, c) {
                        Ok(x) => {
                            proof {
                                lemma_nth_below_in(s, c, (n - 1) as nat);
                            }
                            self.next = Some(x);
                        },
                        Err(_) => {
                            self.next = None;
                            return None;
                        },
                    }
                },
            }
        }
        let r = self.next();
        proof {
            if let Some(x) = r {
                assert forall|y: I| #[trigger] self.remaining().contains(y) == rem.filter(|y: I| y.key() < x.key()).contains(y) by {
                    I::lemma_key(x, y);
                    if let Some(c) = old(self).next {
                        I::lemma_key(c, y);
                    }
                }
                assert(self.remaining() =~= rem.filter(|y: I| y.key() < x.key()));
            }
        }
        r
    }
}


impl<'a, I: IndexKey, S: IndexForward<Index = I> + IndexStore<Index = I>> Iter<'a, I, S> {
    /// Returns the exact number of indexes still to be yielded.
    pub fn len(&self) -> (r: usize)
        requires
            self.inv(),
        ensures
            r as nat == self.remaining().len(),
    {
        let total = self.store.len();
        proof {
            self.store.lemma_count();
            vstd::set_lib::lemma_len_subset(self.remaining(), self.store.contents());
        }
        let mut count: usize = 0;
        let mut cursor = self.next;
        proof {
            if let Some(c) = cursor {
                I::lemma_key(c, c);
            }
        }
        loop
            invariant
                self.inv(),
                self.store.contents().finite(),
                total as nat == self.store.contents().len(),
                rests_in(self.store.contents(), cursor),
                ahead(self.store.contents(), cursor).subset_of(self.remaining()),
                count + ahead(self.store.contents(), cursor).len() == self.remaining().len(),
                self.remaining().len() <= total,
                distance_up(cursor) >= 0,
            decreases distance_up(cursor),
        {
            let c = match cursor {
                None => {
                    return count;
                },
                Some(c) => c,
            };
            let n = self.store.next_after(c);
            proof {
                lemma_step_up(self.store.contents(), c, n);
                vstd::set_lib::lemma_set_subset_finite(self.store.contents(), ahead(self.store.contents(), cursor));
                assert(ahead(self.store.contents(), cursor).contains(c));
                vstd::set_lib::lemma_len_subset(ahead(self.store.contents(), cursor), self.remaining());
            }
            count = count + 1;
            cursor = n;
        }
    }
}

impl<'a, I: IndexKey, S: IndexBackward<Index = I> + IndexStore<Index = I>> IterRev<'a, I, S> {
    /// Returns the exact number of indexes still to be yielded.
    pub fn len(&self) -> (r: usize)
        requires
            self.inv(),
        ensures
            r as nat == self.remaining().len(),
    {
        let total = self.store.len();
        proof {
            self.store.lemma_count();
            vstd::set_lib::lemma_len_subset(self.remaining(), self.store.contents());
        }
        let mut count: usize = 0;
        let mut cursor = self.next;
        proof {
            if let Some(c) = cursor {
                I::lemma_key(c, c);
            }
        }
        loop
            invariant
                self.inv(),
                self.store.contents().finite(),
                total as nat == self.store.contents().len(),
                rests_in(self.store.contents(), cursor),
                behind(self.store.contents(), cursor).subset_of(self.remaining()),
                count + behind(self.store.contents(), cursor).len() == self.remaining().len(),
                self.remaining().len() <= total,
                distance_down(cursor) >= 0,
            decreases distance_down(cursor),
        {
            let c = match cursor {
                None => {
                    return count;
                },
                Some(c) => c,
            };
            let n = self.store.next_before(c);
            proof {
                lemma_step_down(self.store.contents(), c, n);
                vstd::set_lib::lemma_set_subset_finite(self.store.contents(), behind(self.store.contents(), cursor));
                assert(behind(self.store.contents(), cursor).contains(c));
                vstd::set_lib::lemma_len_subset(behind(self.store.contents(), cursor), self.remaining());
            }
            count = count + 1;
            cursor = n;
        }
    }
}

impl<I: IndexKey, S: IndexForward<Index = I> + IndexStore<Index = I>> IntoIter<I, S> {
    /// Returns the exact number of indexes still to be yielded.
    pub fn len(&self) -> (r: usize)
        requires
            self.inv(),
        ensures
            r as nat == self.remaining().len(),
    {
        let total = self.store.len();
        proof {
            self.store.lemma_count();
            vstd::set_lib::lemma_len_subset(self.remaining(), self.store.contents());
        }
        let mut count: usize = 0;
        let mut cursor = self.next;
        proof {
            if let Some(c) = cursor {
                I::lemma_key(c, c);
            }
        }
        loop
            invariant
                self.inv(),
                self.store.contents().finite(),
                total as nat == self.store.contents().len(),
                rests_in(self.store.contents(), cursor),
                ahead(self.store.contents(), cursor).subset_of(self.remaining()),
                count + ahead(self.store.contents(), cursor).len() == self.remaining().len(),
                self.remaining().len() <= total,
                distance_up(cursor) >= 0,
            decreases distance_up(cursor),
        {
            let c = match cursor {
                None => {
                    return count;
                },
                Some(c) => c,
            };
            let n = self.store.next_after(c);
            proof {
                lemma_step_up(self.store.contents(), c, n);
                vstd::set_lib::lemma_set_subset_finite(self.store.contents(), ahead(self.store.contents(), cursor));
                assert(ahead(self.store.contents(), cursor).contains(c));
                vstd::set_lib::lemma_len_subset(ahead(self.store.contents(), cursor), self.remaining());
            }
            count = count + 1;
            cursor = n;
        }
    }
}

impl<I: IndexKey, S: IndexBackward<Index = I> + IndexStore<Index = I>> IntoIterRev<I, S> {
    /// Returns the exact number of indexes still to be yielded.
    pub fn len(&self) -> (r: usize)
        requires
            self.inv(),
        ensures
            r as nat == self.remaining().len(),
    {
        let total = self.store.len();
        proof {
            self.store.lemma_count();
            vstd::set_lib::lemma_len_subset(self.remaining(), self.store.contents());
        }
        let mut count: usize = 0;
        let mut cursor = self.next;
        proof {
            if let Some(c) = cursor {
                I::lemma_key(c, c);
            }
        }
        loop
            invariant
                self.inv(),
                self.store.contents().finite(),
                total as nat == self.store.contents().len(),
                rests_in(self.store.contents(), cursor),
                behind(self.store.contents(), cursor).subset_of(self.remaining()),
                count + behind(self.store.contents(), cursor).len() == self.remaining().len(),
                self.remaining().len() <= total,
                distance_down(cursor) >= 0,
            decreases distance_down(cursor),
        {
            let c = match cursor {
                None => {
                    return count;
                },
                Some(c) => c,
            };
            let n = self.store.next_before(c);
            proof {
                lemma_step_down(self.store.contents(), c, n);
                vstd::set_lib::lemma_set_subset_finite(self.store.contents(), behind(self.store.contents(), cursor));
                assert(behind(self.store.contents(), cursor).contains(c));
                vstd::set_lib::lemma_len_subset(behind(self.store.contents(), cursor), self.remaining());
            }
            count = count + 1;
            cursor = n;
        }
    }
}

} // verus!
