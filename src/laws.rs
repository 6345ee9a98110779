//! Laws that hold of every store and set of this library, stated over the specifications the operations use.
use vstd::prelude::*;

use crate::chunk::{chunk_domain, symmetric, IndexChunk};
use crate::index::{is_greatest, is_least, IndexKey, IndexStoreChunked, IndexView, IndexViewChunked};
use crate::not::{IndexViewNot, NotView};
use crate::set::IndexSet;

verus! {

/// `w` is what an ascending traversal of `s` yields: each step the least index not yet yielded, until none is
/// left.
pub open spec fn ascending_walk<I: IndexKey>(s: Set<I>, w: Seq<I>) -> bool {
    &&& forall|k: int| 0 <= k < w.len() ==> is_least(s.difference(w.subrange(0, k).to_set()), #[trigger] w[k])
    &&& s.subset_of(w.to_set())
}

/// `w` is what a descending traversal of `s` yields: each step the greatest index not yet yielded, until none
/// is left.
pub open spec fn descending_walk<I: IndexKey>(s: Set<I>, w: Seq<I>) -> bool {
    &&& forall|k: int| 0 <= k < w.len() ==> is_greatest(s.difference(w.subrange(0, k).to_set()), #[trigger] w[k])
    &&& s.subset_of(w.to_set())
}

/// Keys strictly decrease along `w`.
pub open spec fn strictly_descending<I: IndexKey>(w: Seq<I>) -> bool {
    forall|a: int, b: int| 0 <= a < b < w.len() ==> (#[trigger] w[b]).key() < (#[trigger] w[a]).key()
}

/// Splitting then fusing an index that a chunked store may hold gives the index back.
pub proof fn lemma_round_trip<S: IndexViewChunked>(index: S::Index)
    requires
        S::splittable(index),
    ensures
        S::spec_fuse(S::spec_split(index).0, S::spec_split(index).1) == index,
{
    S::lemma_split_fuse(index);
}

/// A chunked store contains an index exactly when the chunk that `split` designates holds the in-chunk index.
pub proof fn lemma_two_level_consistency<S: IndexStoreChunked>(store: &S, index: S::Index)
    requires
        store.wf(),
        S::splittable(index),
    ensures
        store.contents().contains(index) == match store.chunk_at(S::spec_split(index).0) {
            Some(h) => h.contains(S::spec_split(index).1),
            None => false,
        },
{
    store.lemma_two_levels(index);
    store.lemma_nothing_beyond();
}

/// Set algebra over the contents of two sets: intersection and union commute, a difference is disjoint from
/// what was taken away, the symmetric difference is the union less the intersection, every set is a subset and
/// a superset of itself, and two sets are disjoint exactly when their intersection is empty.
pub proof fn lemma_set_algebra<S: IndexView, T: IndexView<Index = S::Index>>(a: &IndexSet<S>, b: &IndexSet<T>)
    ensures
        a.contents().intersect(b.contents()) == b.contents().intersect(a.contents()),
        a.contents().union(b.contents()) == b.contents().union(a.contents()),
        a.contents().difference(b.contents()).disjoint(b.contents()),
        symmetric(a.contents(), b.contents()) == a.contents().union(b.contents()).difference(
            a.contents().intersect(b.contents()),
        ),
        a.contents().subset_of(a.contents()),
        a.contents().disjoint(b.contents()) == (a.contents().intersect(b.contents()) == Set::<
            S::Index,
        >::empty()),
{
    assert(a.contents().intersect(b.contents()) =~= b.contents().intersect(a.contents()));
    assert(a.contents().union(b.contents()) =~= b.contents().union(a.contents()));
    assert(symmetric(a.contents(), b.contents()) =~= a.contents().union(b.contents()).difference(
        a.contents().intersect(b.contents()),
    ));
    if a.contents().disjoint(b.contents()) {
        assert(a.contents().intersect(b.contents()) =~= Set::<S::Index>::empty());
    }
    if a.contents().intersect(b.contents()) == Set::<S::Index>::empty() {
        assert forall|x: S::Index| a.contents().contains(x) implies !b.contents().contains(x) by {
            assert(!a.contents().intersect(b.contents()).contains(x));
        }
    }
}

/// The negated view contains exactly what the view does not, and the two lengths add up to the capacity.
pub proof fn lemma_negation<S: IndexViewNot>(not: &NotView<S>, index: S::Index)
    requires
        not.view_of().wf(),
    ensures
        not.contents().contains(index) == !not.view_of().contents().contains(index),
        not.count() + not.view_of().count() == not.view_of().capacity(),
{
    not.view_of().lemma_capacity();
}

/// For `b` the inverse of chunk `a`, as `not` returns it, and `c` the inverse of `b`: `c` is `a` again, and `a`
/// and `b` hold `BITS` indexes between them.
pub proof fn lemma_chunk_not<C: IndexChunk>(a: C, b: C, c: C)
    requires
        C::constructible(),
        a.wf(),
        b.wf(),
        b.inverse_of(a),
        b.contents() == chunk_domain::<C::Index>(C::BITS).difference(a.contents()),
        c.inverse_of(b),
    ensures
        c == a,
        a.count() + b.count() == C::BITS,
{
    C::lemma_inverse_symmetric(a, b);
    C::lemma_inverse_unique(b, c, a);
    a.lemma_count();
    b.lemma_count();
    a.lemma_domain();
    C::lemma_domain_len();
    let dom = chunk_domain::<C::Index>(C::BITS);
    vstd::set_lib::lemma_set_difference_len(dom, a.contents());
    assert(dom.intersect(a.contents()) =~= a.contents());
}

/// Along an ascending walk keys strictly increase.
proof fn lemma_ascending_strict<I: IndexKey>(s: Set<I>, w: Seq<I>, a: int, b: int)
    requires
        ascending_walk(s, w),
        0 <= a < b < w.len(),
    ensures
        w[a].key() < w[b].key(),
{
    let prefix_b = w.subrange(0, b).to_set();
    let prefix_a = w.subrange(0, a).to_set();
    assert(w.subrange(0, b)[a] == w[a]);
    assert(prefix_b.contains(w[a]));
    assert(is_least(s.difference(prefix_a), w[a]));
    assert(is_least(s.difference(prefix_b), w[b]));
    assert(!prefix_b.contains(w[b]));
    assert forall|x: I| #[trigger] prefix_a.contains(x) implies prefix_b.contains(x) by {
        let j = choose|j: int| 0 <= j < a && w.subrange(0, a)[j] == x;
        assert(w.subrange(0, b)[j] == x);
    }
    assert(s.difference(prefix_a).contains(w[b]));
    I::lemma_key(w[a], w[b]);
}

/// Along a descending walk keys strictly decrease.
proof fn lemma_descending_strict<I: IndexKey>(s: Set<I>, w: Seq<I>, a: int, b: int)
    requires
        descending_walk(s, w),
        0 <= a < b < w.len(),
    ensures
        w[b].key() < w[a].key(),
{
    let prefix_b = w.subrange(0, b).to_set();
    let prefix_a = w.subrange(0, a).to_set();
    assert(w.subrange(0, b)[a] == w[a]);
    assert(prefix_b.contains(w[a]));
    assert(is_greatest(s.difference(prefix_a), w[a]));
    assert(is_greatest(s.difference(prefix_b), w[b]));
    assert(!prefix_b.contains(w[b]));
    assert forall|x: I| #[trigger] prefix_a.contains(x) implies prefix_b.contains(x) by {
        let j = choose|j: int| 0 <= j < a && w.subrange(0, a)[j] == x;
        assert(w.subrange(0, b)[j] == x);
    }
    assert(s.difference(prefix_a).contains(w[b]));
    I::lemma_key(w[a], w[b]);
}

/// Every index a walk yields is in the walked set.
proof fn lemma_walk_within<I: IndexKey>(s: Set<I>, w: Seq<I>, ascending: bool)
    requires
        ascending ==> ascending_walk(s, w),
        !ascending ==> descending_walk(s, w),
    ensures
        w.to_set() == s,
{
    assert forall|x: I| #[trigger] w.to_set().contains(x) implies s.contains(x) by {
        let k = choose|k: int| 0 <= k < w.len() && w[k] == x;
        if ascending {
            assert(is_least(s.difference(w.subrange(0, k).to_set()), w[k]));
        } else {
            assert(is_greatest(s.difference(w.subrange(0, k).to_set()), w[k]));
        }
    }
    assert(w.to_set() =~= s);
}

/// Two strictly descending sequences of the same indexes are the same sequence.
proof fn lemma_descending_unique<I: IndexKey>(u: Seq<I>, v: Seq<I>)
    requires
        strictly_descending(u),
        strictly_descending(v),
        u.to_set() == v.to_set(),
    ensures
        u == v,
    decreases u.len() + v.len(),
{
    if u.len() == 0 || v.len() == 0 {
        if u.len() > 0 {
            assert(u.to_set().contains(u[0]));
        }
        if v.len() > 0 {
            assert(v.to_set().contains(v[0]));
        }
        assert(u =~= v);
    } else {
        assert(u.to_set().contains(u[0]));
        assert(v.to_set().contains(v[0]));
        let i = choose|i: int| 0 <= i < v.len() && v[i] == u[0];
        let j = choose|j: int| 0 <= j < u.len() && u[j] == v[0];
        if i > 0 {
            assert(v[i].key() < v[0].key());
            if j > 0 {
                assert(u[j].key() < u[0].key());
            }
        }
        if j > 0 {
            assert(u[j].key() < u[0].key());
        }
        I::lemma_key(u[0], v[0]);
        let ur = u.drop_first();
        let vr = v.drop_first();
        assert forall|x: I| #[trigger] ur.to_set().contains(x) implies vr.to_set().contains(x) by {
            let a = choose|a: int| 0 <= a < ur.len() && ur[a] == x;
            assert(u[a + 1] == x);
            assert(u.to_set().contains(x));
            let b = choose|b: int| 0 <= b < v.len() && v[b] == x;
            if b == 0 {
                assert(u[a + 1].key() < u[0].key());
                I::lemma_key(x, u[0]);
            }
            assert(vr[b - 1] == x);
        }
        assert forall|x: I| #[trigger] vr.to_set().contains(x) implies ur.to_set().contains(x) by {
            let b = choose|b: int| 0 <= b < vr.len() && vr[b] == x;
            assert(v[b + 1] == x);
            assert(v.to_set().contains(x));
            let a = choose|a: int| 0 <= a < u.len() && u[a] == x;
            if a == 0 {
                assert(v[b + 1].key() < v[0].key());
                I::lemma_key(x, v[0]);
            }
            assert(ur[a - 1] == x);
        }
        assert(ur.to_set() =~= vr.to_set());
        assert(strictly_descending(ur));
        assert(strictly_descending(vr));
        lemma_descending_unique(ur, vr);
        assert(u =~= v.subrange(0, 1) + vr) by {
            assert(u =~= u.subrange(0, 1) + ur);
        }
        assert(v =~= v.subrange(0, 1) + vr);
    }
}

/// For a finite set, an ascending and a descending traversal yield each index exactly once, and the
/// descending one is the exact reverse of the ascending one.
pub proof fn lemma_traversal_agreement<I: IndexKey>(s: Set<I>, forward: Seq<I>, backward: Seq<I>)
    requires
        ascending_walk(s, forward),
        descending_walk(s, backward),
    ensures
        forward.no_duplicates(),
        forward.to_set() == s,
        backward == forward.reverse(),
{
    lemma_walk_within(s, forward, true);
    lemma_walk_within(s, backward, false);
    assert forall|a: int, b: int| 0 <= a < b < forward.len() implies forward[a] != forward[b] by {
        lemma_ascending_strict(s, forward, a, b);
    }
    let r = forward.reverse();
    assert forall|a: int, b: int| 0 <= a < b < r.len() implies (#[trigger] r[b]).key() < (#[trigger] r[a]).key() by {
        lemma_ascending_strict(s, forward, forward.len() - 1 - b, forward.len() - 1 - a);
    }
    assert forall|a: int, b: int| 0 <= a < b < backward.len() implies (#[trigger] backward[b]).key() < (
    #[trigger] backward[a]).key() by {
        lemma_descending_strict(s, backward, a, b);
    }
    assert forall|x: I| #[trigger] r.to_set().contains(x) == forward.to_set().contains(x) by {
        if r.to_set().contains(x) {
            let k = choose|k: int| 0 <= k < r.len() && r[k] == x;
            assert(forward[forward.len() - 1 - k] == x);
        }
        if forward.to_set().contains(x) {
            let k = choose|k: int| 0 <= k < forward.len() && forward[k] == x;
            assert(r[forward.len() - 1 - k] == x);
        }
    }
    assert(r.to_set() =~= forward.to_set());
    lemma_descending_unique(backward, r);
}

} // verus!
