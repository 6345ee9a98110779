//! A growable store of chunks: index `i` lives in chunk `i / C::BITS`, at `i % C::BITS`; the array of chunks
//! at least doubles whenever it grows.
use vstd::prelude::*;

use vstd::arithmetic::div_mod::{lemma_fundamental_div_mod, lemma_fundamental_div_mod_converse};

use crate::chunk::{chunk_domain, IndexChunk};
use crate::index::{
    above, below, greatest, held, least, Bound, IndexBackward, IndexBackwardChunked, IndexCollection,
    IndexForward, IndexForwardChunked, IndexOrdered, IndexOrderedChunked, IndexStore,
    IndexStoreChunked, IndexVault, IndexView, IndexViewChunked,
};
use crate::not::{
    IndexBackwardChunkedNot, IndexBackwardNot, IndexForwardChunkedNot, IndexForwardNot, IndexOrderedChunkedNot,
    IndexOrderedNot, IndexViewNot,
};

verus! {

/// Error of an insertion whose chunk would lie beyond the last chunk whose indexes all fit in `u64`.
#[derive(Clone, Copy, Debug, PartialEq, Eq)]
pub struct StoreFull {
    /// The index that could not be inserted.
    pub index: u64,
}

/// A dynamically-sized chunk-based store.
#[derive(Debug)]
pub struct DynamicChunkStore<C> {
    count: usize,
    chunks: Vec<C>,
}

/// The indexes held by the chunks `chunks`, each of `bits` bits.
pub open spec fn chunked_contents<C: IndexView<Index = u16>>(chunks: Seq<C>, bits: int) -> Set<u64> {
    Set::new(
        |i: u64|
            (i as int) < chunks.len() * bits && chunks[(i as int) / bits].contents().contains(
                ((i as int) % bits) as u16,
            ),
    )
}

/// The sum of the counts of `chunks`.
pub open spec fn chunks_count<C: IndexView>(chunks: Seq<C>) -> nat
    decreases chunks.len(),
{
    if chunks.len() == 0 {
        0
    } else {
        chunks_count(chunks.drop_last()) + chunks.last().count()
    }
}

proof fn lemma_slot(i: int, b: int)
    requires
        0 <= i,
        1 <= b,
    ensures
        i == (i / b) * b + i % b,
        0 <= i % b < b,
        0 <= i / b,
        i / b <= i,
{
    lemma_fundamental_div_mod(i, b);
    assert(b * (i / b) == (i / b) * b) by (nonlinear_arith);
    assert((i / b) <= (i / b) * b) by (nonlinear_arith)
        requires
            1 <= b,
            0 <= i / b,
    ;
}

proof fn lemma_fused(k: int, j: int, b: int)
    requires
        0 <= k,
        0 <= j < b,
    ensures
        (k * b + j) / b == k,
        (k * b + j) % b == j,
        k * b <= k * b + j < (k + 1) * b,
{
    lemma_fundamental_div_mod_converse(k * b + j, b, k, j);
    assert((k + 1) * b == k * b + b) by (nonlinear_arith);
}

proof fn lemma_slot_order(x: int, y: int, b: int)
    requires
        0 <= x,
        0 <= y,
        1 <= b,
        x / b < y / b,
    ensures
        x < y,
{
    lemma_slot(x, b);
    lemma_slot(y, b);
    let p = x / b;
    let q = y / b;
    assert(p * b + b <= q * b) by (nonlinear_arith)
        requires
            p < q,
            1 <= b,
    ;
}

proof fn lemma_below_total(i: int, n: int, b: int)
    requires
        0 <= i,
        1 <= b,
        0 <= n,
    ensures
        (i < n * b) == (i / b < n),
{
    lemma_slot(i, b);
    let q = i / b;
    if q < n {
        assert(q * b + b <= n * b) by (nonlinear_arith)
            requires
                q < n,
                1 <= b,
        ;
    } else {
        assert(n * b <= q * b) by (nonlinear_arith)
            requires
                n <= q,
                1 <= b,
        ;
    }
}

proof fn lemma_same_slot_order(x: u64, y: u64, bits: int)
    requires
        1 <= bits,
        (x as int) / bits == (y as int) / bits,
    ensures
        ((x as int) < (y as int)) == ((x as int) % bits < (y as int) % bits),
        ((x as int) % bits == (y as int) % bits) ==> x == y,
{
    lemma_slot(x as int, bits);
    lemma_slot(y as int, bits);
}

/// Any set of `u16` below `bits` has at most `bits` elements.
proof fn lemma_u16_domain(s: Set<u16>, bits: int)
    requires
        1 <= bits <= 0x1_0000,
        s.subset_of(chunk_domain::<u16>(bits as u32)),
    ensures
        s.finite(),
        s.len() <= bits,
{
    let dom = chunk_domain::<u16>(bits as u32);
    if bits == 0x1_0000 {
        <u16 as vstd::set_lib::FiniteRange>::range_properties(0, 0xffff);
        assert(dom =~= Set::<u16>::range(0, 0xffff).insert(0xffff));
    } else {
        <u16 as vstd::set_lib::FiniteRange>::range_properties(0, bits as u16);
        assert(dom =~= Set::<u16>::range(0, bits as u16));
    }
    vstd::set_lib::lemma_len_subset(s, dom);
}

/// The counts of the chunks add up to at most `bits` each.
proof fn lemma_count_bound<C: IndexStore<Index = u16>>(chunks: Seq<C>, bits: int)
    requires
        1 <= bits <= 0x1_0000,
        forall|k: int| 0 <= k < chunks.len() ==> (#[trigger] chunks[k]).wf(),
        forall|k: int|
            0 <= k < chunks.len() ==> (#[trigger] chunks[k]).contents().subset_of(
                chunk_domain::<u16>(bits as u32),
            ),
    ensures
        chunks_count(chunks) <= chunks.len() * bits,
    decreases chunks.len(),
{
    if chunks.len() > 0 {
        let pre = chunks.drop_last();
        assert forall|m: int| 0 <= m < pre.len() implies #[trigger] pre[m].wf() && pre[m].contents().subset_of(
            chunk_domain::<u16>(bits as u32),
        ) by {
            assert(pre[m] == chunks[m]);
        }
        lemma_count_bound(pre, bits);
        let last = chunks.last();
        assert(last == chunks[chunks.len() - 1]);
        last.lemma_count();
        lemma_u16_domain(last.contents(), bits);
        assert(pre.len() * bits + bits == chunks.len() * bits) by (nonlinear_arith)
            requires
                pre.len() + 1 == chunks.len(),
        ;
    } else {
        assert(chunks.len() * bits == 0) by (nonlinear_arith)
            requires
                chunks.len() == 0,
        ;
    }
}

/// The indexes of the chunks are finite, and as many as the counts of the chunks add up to.
proof fn lemma_chunked_count<C: IndexStore<Index = u16>>(chunks: Seq<C>, bits: int)
    requires
        1 <= bits <= 0x1_0000,
        chunks.len() * bits <= 0x1_0000_0000_0000_0000,
        forall|k: int| 0 <= k < chunks.len() ==> (#[trigger] chunks[k]).wf(),
        forall|k: int|
            0 <= k < chunks.len() ==> (#[trigger] chunks[k]).contents().subset_of(
                chunk_domain::<u16>(bits as u32),
            ),
    ensures
        chunked_contents(chunks, bits).finite(),
        chunked_contents(chunks, bits).len() == chunks_count(chunks),
    decreases chunks.len(),
{
    if chunks.len() == 0 {
        assert(chunks.len() * bits == 0) by (nonlinear_arith)
            requires
                chunks.len() == 0,
        ;
        assert(chunked_contents(chunks, bits) =~= Set::<u64>::empty());
    } else {
        let n = chunks.len() as int;
        let k = n - 1;
        let pre = chunks.drop_last();
        assert(pre.len() * bits <= chunks.len() * bits) by (nonlinear_arith)
            requires
                pre.len() <= chunks.len(),
                1 <= bits,
        ;
        assert forall|m: int| 0 <= m < pre.len() implies #[trigger] pre[m].wf() && pre[m].contents().subset_of(
            chunk_domain::<u16>(bits as u32),
        ) by {
            assert(pre[m] == chunks[m]);
        }
        lemma_chunked_count(pre, bits);
        let last = chunks.last();
        assert(last == chunks[k]);
        last.lemma_count();
        assert(k * bits + bits == n * bits) by (nonlinear_arith)
            requires
                k + 1 == n,
        ;
        let f = |j: u16| (k * bits + j) as u64;
        let t = last.contents().map(f);
        assert forall|i: u64| #[trigger] chunked_contents(chunks, bits).contains(i) == (chunked_contents(
            pre,
            bits,
        ).contains(i) || t.contains(i)) by {
            lemma_slot(i as int, bits);
            lemma_below_total(i as int, n, bits);
            lemma_below_total(i as int, n - 1, bits);
            if (i as int) / bits < k {
                assert(pre[(i as int) / bits] == chunks[(i as int) / bits]);
                if t.contains(i) {
                    let j = choose|j: u16| last.contents().contains(j) && f(j) == i;
                    assert(chunk_domain::<u16>(bits as u32).contains(j));
                    lemma_fused(k, j as int, bits);
                }
            } else if (i as int) / bits == k {
                if chunked_contents(chunks, bits).contains(i) {
                    let j = ((i as int) % bits) as u16;
                    assert(f(j) == i);
                    assert(last.contents().contains(j));
                }
                if t.contains(i) {
                    let j = choose|j: u16| last.contents().contains(j) && f(j) == i;
                    assert(chunk_domain::<u16>(bits as u32).contains(j));
                    lemma_fused(k, j as int, bits);
                }
            } else {
                if t.contains(i) {
                    let j = choose|j: u16| last.contents().contains(j) && f(j) == i;
                    assert(chunk_domain::<u16>(bits as u32).contains(j));
                    lemma_fused(k, j as int, bits);
                }
            }
        }
        assert(chunked_contents(chunks, bits) =~= chunked_contents(pre, bits).union(t));
        assert forall|a: u16, b: u16| last.contents().contains(a) && last.contents().contains(b) && #[trigger] f(a)
            == #[trigger] f(b) implies a == b by {
            assert(chunk_domain::<u16>(bits as u32).contains(a));
            assert(chunk_domain::<u16>(bits as u32).contains(b));
            lemma_fused(k, a as int, bits);
            lemma_fused(k, b as int, bits);
        }
        vstd::set_lib::lemma_map_size(last.contents(), t, f);
        assert(chunked_contents(pre, bits).disjoint(t)) by {
            assert forall|i: u64| #[trigger] t.contains(i) implies !chunked_contents(pre, bits).contains(i) by {
                let j = choose|j: u16| last.contents().contains(j) && f(j) == i;
                assert(chunk_domain::<u16>(bits as u32).contains(j));
                lemma_fused(k, j as int, bits);
                lemma_below_total(i as int, n - 1, bits);
            }
        }
        vstd::set_lib::lemma_set_disjoint_lens(chunked_contents(pre, bits), t);
    }
}

/// Replacing the chunk of one slot changes the indexes of that slot only.
proof fn lemma_slot_update<C: IndexView<Index = u16>>(chunks: Seq<C>, o: int, c: C, bits: int, i: u64)
    requires
        0 <= o < chunks.len(),
        1 <= bits,
    ensures
        chunked_contents(chunks.update(o, c), bits).contains(i) == if (i as int) / bits == o {
            c.contents().contains(((i as int) % bits) as u16)
        } else {
            chunked_contents(chunks, bits).contains(i)
        },
{
    lemma_slot(i as int, bits);
    lemma_below_total(i as int, chunks.len() as int, bits);
}

/// Updating one chunk moves the sum of counts by the difference of its counts.
proof fn lemma_count_update<C: IndexView>(s: Seq<C>, o: int, c: C)
    requires
        0 <= o < s.len(),
    ensures
        chunks_count(s.update(o, c)) + s[o].count() == chunks_count(s) + c.count(),
    decreases s.len(),
{
    let u = s.update(o, c);
    if o == s.len() - 1 {
        assert(u.drop_last() =~= s.drop_last());
    } else {
        assert(u.drop_last() =~= s.drop_last().update(o, c));
        lemma_count_update(s.drop_last(), o, c);
    }
}

/// Appending empty chunks leaves the sum of counts and the indexes unchanged.
proof fn lemma_push_empty<C: IndexView<Index = u16>>(s: Seq<C>, c: C, bits: int)
    requires
        c.count() == 0,
        c.contents() == Set::<u16>::empty(),
        1 <= bits,
    ensures
        chunks_count(s.push(c)) == chunks_count(s),
        chunked_contents(s.push(c), bits) == chunked_contents(s, bits),
{
    assert(s.push(c).drop_last() =~= s);
    assert forall|i: u64| #[trigger] chunked_contents(s.push(c), bits).contains(i) == chunked_contents(
        s,
        bits,
    ).contains(i) by {
        lemma_slot(i as int, bits);
        lemma_below_total(i as int, s.len() as int, bits);
        lemma_below_total(i as int, s.len() as int + 1, bits);
    }
    assert(chunked_contents(s.push(c), bits) =~= chunked_contents(s, bits));
}

proof fn lemma_all_empty<C: IndexView>(s: Seq<C>)
    requires
        forall|k: int| 0 <= k < s.len() ==> (#[trigger] s[k]).count() == 0,
    ensures
        chunks_count(s) == 0,
    decreases s.len(),
{
    if s.len() > 0 {
        let p = s.drop_last();
        assert forall|k: int| 0 <= k < p.len() implies (#[trigger] p[k]).count() == 0 by {
            assert(p[k] == s[k]);
        }
        lemma_all_empty(p);
    }
}

impl<C: IndexChunk<Index = u16>> DynamicChunkStore<C> {
    /// Bits per chunk.
    pub open spec fn chunk_bits() -> int {
        C::BITS as int
    }

    /// The chunks can be built, and hold between 1 and 65536 bits each.
    pub open spec fn shape_ok() -> bool {
        C::constructible() && 1 <= C::BITS <= 0x1_0000
    }

    /// The greatest number of chunks: all their indexes fit in `u64`, and their count in `usize`.
    pub open spec fn max_chunks() -> int {
        if u64::MAX as int / Self::chunk_bits() <= usize::MAX as int / Self::chunk_bits() {
            u64::MAX as int / Self::chunk_bits()
        } else {
            usize::MAX as int / Self::chunk_bits()
        }
    }

    fn max_chunks_exec() -> (r: usize)
        requires
            Self::shape_ok(),
        ensures
            r as int == Self::max_chunks(),
    {
        let whole = u64::MAX / Self::bits_exec();
        let counted = usize::MAX / (Self::bits_exec() as usize);
        if whole <= counted as u64 {
            whole as usize
        } else {
            counted
        }
    }

    /// The chunks, as a sequence.
    pub closed spec fn spec_chunks(&self) -> Seq<C> {
        self.chunks@
    }

    fn bits_exec() -> (r: u64)
        requires
            Self::shape_ok(),
        ensures
            r as int == Self::chunk_bits(),
    {
        C::BITS as u64
    }

    proof fn lemma_wf(&self)
        requires
            self.wf(),
        ensures
            chunked_contents(self.chunks@, Self::chunk_bits()).finite(),
            chunked_contents(self.chunks@, Self::chunk_bits()).len() == self.count,
            self.count <= self.chunks@.len() * Self::chunk_bits(),
            self.chunks@.len() * Self::chunk_bits() <= u64::MAX,
            self.chunks@.len() * Self::chunk_bits() <= usize::MAX,
            forall|k: int| 0 <= k < self.chunks@.len() ==> (#[trigger] self.chunks@[k]).contents().subset_of(
                chunk_domain::<u16>(C::BITS),
            ),
    {
        assert forall|k: int| 0 <= k < self.chunks@.len() implies (#[trigger] self.chunks@[k]).contents().subset_of(
            chunk_domain::<u16>(C::BITS),
        ) by {
            self.chunks@[k].lemma_domain();
        }
        let n = self.chunks@.len() as int;
        let b = Self::chunk_bits();
        vstd::arithmetic::div_mod::lemma_fundamental_div_mod(u64::MAX as int, b);
        vstd::arithmetic::div_mod::lemma_fundamental_div_mod(usize::MAX as int, b);
        assert(n <= u64::MAX as int / b);
        assert(n <= usize::MAX as int / b);
        assert(n * b <= (u64::MAX as int / b) * b) by (nonlinear_arith)
            requires
                n <= u64::MAX as int / b,
                1 <= b,
        ;
        assert(n * b <= (usize::MAX as int / b) * b) by (nonlinear_arith)
            requires
                n <= usize::MAX as int / b,
                1 <= b,
        ;
        assert((usize::MAX as int / b) * b <= usize::MAX) by (nonlinear_arith)
            requires
                usize::MAX as int == b * (usize::MAX as int / b) + usize::MAX as int % b,
                0 <= usize::MAX as int % b,
        ;
        assert((u64::MAX as int / b) * b <= u64::MAX) by (nonlinear_arith)
            requires
                u64::MAX as int == b * (u64::MAX as int / b) + u64::MAX as int % b,
                0 <= u64::MAX as int % b,
        ;
        lemma_chunked_count(self.chunks@, b);
        lemma_count_bound(self.chunks@, b);
    }

    /// Appends empty chunks until there are `target` of them.
    fn extend_to(&mut self, target: usize)
        requires
            old(self).wf(),
            old(self).chunks@.len() <= target <= Self::max_chunks(),
        ensures
            final(self).wf(),
            final(self).contents() == old(self).contents(),
            final(self).count == old(self).count,
            final(self).chunks@.len() == target,
            final(self).chunks@.subrange(0, old(self).chunks@.len() as int) == old(self).chunks@,
            forall|k: int|
                old(self).chunks@.len() <= k < target ==> (#[trigger] final(self).chunks@[k]).contents()
                    == Set::<u16>::empty(),
    {
        while self.chunks.len() < target
            invariant
                self.wf(),
                old(self).chunks@.len() <= self.chunks@.len() <= target <= Self::max_chunks(),
                self.contents() == old(self).contents(),
                self.count == old(self).count,
                self.chunks@.subrange(0, old(self).chunks@.len() as int) == old(self).chunks@,
                forall|k: int|
                    old(self).chunks@.len() <= k < self.chunks@.len() ==> (#[trigger] self.chunks@[k]).contents()
                        == Set::<u16>::empty(),
            decreases target - self.chunks@.len(),
        {
            let empty = C::new();
            let ghost before = self.chunks@;
            self.chunks.push(empty);
            proof {
                lemma_push_empty(before, empty, Self::chunk_bits());
                assert(self.chunks@.subrange(0, old(self).chunks@.len() as int) =~= before.subrange(
                    0,
                    old(self).chunks@.len() as int,
                ));
            }
        }
    }

    /// Grows the array of chunks to at least `minimal` chunks, at least doubling it.
    fn grow(&mut self, minimal: usize)
        requires
            old(self).wf(),
            old(self).chunks@.len() < minimal <= Self::max_chunks(),
        ensures
            final(self).wf(),
            final(self).contents() == old(self).contents(),
            final(self).count == old(self).count,
            minimal <= final(self).chunks@.len(),
            final(self).chunks@.subrange(0, old(self).chunks@.len() as int) == old(self).chunks@,
            forall|k: int|
                old(self).chunks@.len() <= k < final(self).chunks@.len()
                    ==> (#[trigger] final(self).chunks@[k]).contents() == Set::<u16>::empty(),
    {
        let limit = Self::max_chunks_exec();
        let len = self.chunks.len();
        let doubled = if len <= limit / 2 {
            len * 2
        } else {
            limit
        };
        let mut target = if doubled > minimal {
            doubled
        } else {
            minimal
        };
        if target > limit {
            target = limit;
        }
        self.extend_to(target);
    }
}

impl<C: IndexChunk<Index = u16>> IndexView for DynamicChunkStore<C> {
    type Index = u64;

    open spec fn wf(&self) -> bool {
        &&& Self::shape_ok()
        &&& self.spec_chunks().len() <= Self::max_chunks()
        &&& forall|k: int| 0 <= k < self.spec_chunks().len() ==> (#[trigger] self.spec_chunks()[k]).wf()
        &&& self.count() == chunks_count(self.spec_chunks())
    }

    open spec fn contents(&self) -> Set<u64> {
        chunked_contents(self.spec_chunks(), Self::chunk_bits())
    }

    closed spec fn count(&self) -> nat {
        self.count as nat
    }

    fn is_empty(&self) -> (r: bool) {
        self.count == 0
    }

    fn len(&self) -> (r: usize) {
        self.count
    }

    fn contains(&self, index: u64) -> (r: bool) {
        let bits = Self::bits_exec();
        let outer = index / bits;
        proof {
            lemma_below_total(index as int, self.chunks@.len() as int, bits as int);
            lemma_slot(index as int, bits as int);
        }
        if outer < self.chunks.len() as u64 {
            let inner = (index % bits) as u16;
            self.chunks[outer as usize].contains(inner)
        } else {
            false
        }
    }
}

/// A sum of counts is zero only when every count is.
proof fn lemma_zero_count<C: IndexView>(s: Seq<C>, k: int)
    requires
        chunks_count(s) == 0,
        0 <= k < s.len(),
    ensures
        s[k].count() == 0,
    decreases s.len(),
{
    if k < s.len() - 1 {
        assert(s.drop_last()[k] == s[k]);
        lemma_zero_count(s.drop_last(), k);
    }
}

impl<C: IndexChunk<Index = u16>> IndexCollection for DynamicChunkStore<C> {
    open spec fn spec_span() -> (Bound<u64>, Bound<u64>) {
        (Bound::Included(0), Bound::Unbounded)
    }

    open spec fn constructible() -> bool {
        Self::shape_ok()
    }

    fn span() -> (r: (Bound<u64>, Bound<u64>)) {
        (Bound::Included(0), Bound::Unbounded)
    }

    fn new() -> (r: Self) {
        let r = DynamicChunkStore { count: 0, chunks: Vec::new() };
        proof {
            assert(r.contents() =~= Set::<u64>::empty()) by {
                assert forall|i: u64| !#[trigger] r.contents().contains(i) by {
                    lemma_below_total(i as int, 0, Self::chunk_bits());
                }
            }
        }
        r
    }

    /// Pre-sizes the array of chunks for the upper bound of `range`, as far as the chunk limit allows.
    fn with_span(range: (Bound<u64>, Bound<u64>)) -> (r: Self) {
        let mut this = DynamicChunkStore { count: 0, chunks: Vec::new() };
        proof {
            assert(this.contents() =~= Set::<u64>::empty()) by {
                assert forall|i: u64| !#[trigger] this.contents().contains(i) by {
                    lemma_below_total(i as int, 0, Self::chunk_bits());
                }
            }
        }
        let n = match range.1 {
            Bound::Included(n) => n,
            Bound::Excluded(0) => {
                return this;
            },
            Bound::Excluded(n) => n - 1,
            Bound::Unbounded => {
                return this;
            },
        };
        let upto = n / Self::bits_exec();
        let limit = Self::max_chunks_exec();
        if upto < limit as u64 {
            this.extend_to((upto + 1) as usize);
        } else {
            this.extend_to(limit);
        }
        this
    }
}

/// Chunks that hold nothing add up to nothing.
proof fn lemma_all_empty_contents<C: IndexStore>(s: Seq<C>)
    requires
        forall|k: int| 0 <= k < s.len() ==> (#[trigger] s[k]).wf() && s[k].contents() == Set::<C::Index>::empty(),
    ensures
        chunks_count(s) == 0,
{
    assert forall|k: int| 0 <= k < s.len() implies (#[trigger] s[k]).count() == 0 by {
        s[k].lemma_count();
    }
    lemma_all_empty(s);
}

impl<C: IndexChunk<Index = u16>> IndexStore for DynamicChunkStore<C> {
    type InsertionError = C::InsertionError;

    /// The chunk of the index lies within the chunk limit: the last indexes of `u64` may lie past it.
    open spec fn admits(index: u64) -> bool {
        (index as int) / Self::chunk_bits() < Self::max_chunks()
    }

    open spec fn infallible() -> bool {
        C::infallible()
    }

    proof fn lemma_count(&self) {
        self.lemma_wf();
    }

    fn clear(&mut self) {
        if self.count == 0 {
            proof {
                assert forall|i: u64| !#[trigger] self.contents().contains(i) by {
                    lemma_slot(i as int, Self::chunk_bits());
                    lemma_below_total(i as int, self.chunks@.len() as int, Self::chunk_bits());
                    if (i as int) / Self::chunk_bits() < self.chunks@.len() {
                        let k = (i as int) / Self::chunk_bits();
                        lemma_zero_count(self.chunks@, k);
                        self.chunks@[k].lemma_count();
                        vstd::set_lib::lemma_set_empty_equivalency_len(self.chunks@[k].contents());
                    }
                }
                assert(self.contents() =~= Set::<u64>::empty());
            }
            return;
        }
        self.count = 0;
        let mut k: usize = 0;
        while k < self.chunks.len()
            invariant
                Self::shape_ok(),
                self.chunks@.len() == old(self).chunks@.len() <= Self::max_chunks(),
                self.count == 0,
                k <= self.chunks@.len(),
                forall|m: int| 0 <= m < self.chunks@.len() ==> (#[trigger] self.chunks@[m]).wf(),
                forall|m: int|
                    0 <= m < k ==> (#[trigger] self.chunks@[m]).contents() == Set::<u16>::empty(),
            decreases self.chunks@.len() - k,
        {
            let mut c = self.chunks[k];
            c.clear();
            self.chunks.set(k, c);
            k = k + 1;
        }
        proof {
            lemma_all_empty_contents::<C>(self.chunks@);
            assert forall|i: u64| !#[trigger] self.contents().contains(i) by {
                lemma_slot(i as int, Self::chunk_bits());
                lemma_below_total(i as int, self.chunks@.len() as int, Self::chunk_bits());
            }
            assert(self.contents() =~= Set::<u64>::empty());
        }
    }

    fn insert(&mut self, index: u64) -> (r: Result<bool, C::InsertionError>) {
        let bits = Self::bits_exec();
        let outer64 = index / bits;
        let inner = (index % bits) as u16;
        proof {
            lemma_slot(index as int, bits as int);
        }
        let outer = outer64 as usize;
        if outer >= self.chunks.len() {
            self.grow(outer + 1);
        }
        proof {
            self.lemma_wf();
            self.chunks@[outer as int].lemma_domain();
            assert(self.contents().contains(index) == self.chunks@[outer as int].contents().contains(inner)) by {
                lemma_below_total(index as int, self.chunks@.len() as int, bits as int);
            }
        }
        let mut c = self.chunks[outer];
        let ghost before = self.chunks@;
        let ghost old_c = c;
        let r = c.insert(inner);
        match r {
            Ok(inserted) => {
                proof {
                    old_c.lemma_count();
                    c.lemma_count();
                    if !inserted {
                        assert(old_c.contents().insert(inner) =~= old_c.contents());
                    }
                    lemma_count_update(before, outer as int, c);
                    let after = before.update(outer as int, c);
                    assert forall|k: int| 0 <= k < after.len() implies #[trigger] after[k].wf()
                        && after[k].contents().subset_of(chunk_domain::<u16>(C::BITS)) by {
                        after[k].lemma_domain();
                    }
                    lemma_count_bound(after, bits as int);
                }
                self.chunks.set(outer, c);
                if inserted {
                    self.count = self.count + 1;
                }
                proof {
                    assert(self.chunks@ == before.update(outer as int, c));
                    assert forall|i: u64| #[trigger] self.contents().contains(i) == old(self).contents().insert(
                        index,
                    ).contains(i) by {
                        lemma_slot_update(before, outer as int, c, bits as int, i);
                        lemma_slot(i as int, bits as int);
                        if (i as int) / (bits as int) == outer as int {
                            lemma_same_slot_order(i, index, bits as int);
                        }
                    }
                    assert(self.contents() =~= old(self).contents().insert(index));
                }
                Ok(inserted)
            },
            Err(e) => Err(e),
        }
    }

    fn remove(&mut self, index: u64) -> (r: bool) {
        let bits = Self::bits_exec();
        let outer64 = index / bits;
        let inner = (index % bits) as u16;
        proof {
            lemma_slot(index as int, bits as int);
            lemma_below_total(index as int, self.chunks@.len() as int, bits as int);
        }
        if outer64 >= self.chunks.len() as u64 {
            proof {
                assert(self.contents().remove(index) =~= self.contents());
            }
            return false;
        }
        let outer = outer64 as usize;
        let mut c = self.chunks[outer];
        let ghost before = self.chunks@;
        let ghost old_c = c;
        let removed = c.remove(inner);
        proof {
            self.lemma_wf();
            old_c.lemma_count();
            c.lemma_count();
            if removed {
                assert(old_c.contents().len() > 0) by {
                    vstd::set_lib::lemma_set_empty_equivalency_len(old_c.contents());
                }
            } else {
                assert(old_c.contents().remove(inner) =~= old_c.contents());
            }
            lemma_count_update(before, outer as int, c);
        }
        self.chunks.set(outer, c);
        if removed {
            self.count = self.count - 1;
        }
        proof {
            assert(self.chunks@ == before.update(outer as int, c));
            assert forall|i: u64| #[trigger] self.contents().contains(i) == old(self).contents().remove(
                index,
            ).contains(i) by {
                lemma_slot_update(before, outer as int, c, bits as int, i);
                lemma_slot(i as int, bits as int);
                if (i as int) / (bits as int) == outer as int {
                    lemma_same_slot_order(i, index, bits as int);
                }
            }
            assert(self.contents() =~= old(self).contents().remove(index));
        }
        removed
    }
}

impl<C: IndexChunk<Index = u16>> DynamicChunkStore<C> {
    /// The indexes held in slots `k` and above.
    pub open spec fn from_slot(&self, k: int) -> Set<u64> {
        self.contents().filter(|y: u64| k <= (y as int) / Self::chunk_bits())
    }

    /// The indexes held in slots below `k`.
    pub open spec fn before_slot(&self, k: int) -> Set<u64> {
        self.contents().filter(|y: u64| (y as int) / Self::chunk_bits() < k)
    }

    /// The least index held in slots `k..N`, if any.
    fn first_from(&self, k: usize) -> (r: Option<u64>)
        requires
            self.wf(),
            k <= self.chunks@.len(),
        ensures
            least(self.from_slot(k as int), r),
    {
        let bits = Self::bits_exec();
        proof {
            self.lemma_wf();
        }
        let mut m: usize = k;
        while m < self.chunks.len()
            invariant
                self.wf(),
                self.chunks@.len() * Self::chunk_bits() <= u64::MAX,
                bits as int == Self::chunk_bits(),
                k <= m <= self.chunks@.len(),
                forall|y: u64|
                    #[trigger] self.contents().contains(y) && k as int <= (y as int) / Self::chunk_bits() ==> m
                        as int <= (y as int) / Self::chunk_bits(),
            decreases self.chunks@.len() - m,
        {
            let found = self.chunks[m].first();
            if let Some(j) = found {
                proof {
                    self.chunks@[m as int].lemma_domain();
                    assert(chunk_domain::<u16>(C::BITS).contains(j));
                    lemma_fused(m as int, j as int, bits as int);
                    assert((m as int) * (bits as int) + (bits as int) <= (self.chunks@.len() as int) * (bits as int))
                        by (nonlinear_arith)
                        requires
                            m < self.chunks.len(),
                    ;
                }
                let x = (m as u64) * bits + (j as u64);
                proof {
                    assert forall|y: u64| #[trigger]
                        self.from_slot(k as int).contains(y)
                            implies (x as int) <= (y as int) by {
                        lemma_slot(y as int, bits as int);
                        if (y as int) / (bits as int) == m as int {
                            lemma_same_slot_order(x, y, bits as int);
                            assert(self.chunks@[m as int].contents().contains(((y as int) % (bits as int)) as u16));
                        } else {
                            lemma_slot_order(x as int, y as int, bits as int);
                        }
                    }
                }
                return Some(x);
            }
            proof {
                assert forall|y: u64|
                    #[trigger] self.contents().contains(y) && k as int <= (y as int) / Self::chunk_bits() implies m
                        + 1 <= (y as int) / Self::chunk_bits() by {
                    if (y as int) / Self::chunk_bits() == m as int {
                        assert(self.chunks@[m as int].contents().contains(((y as int) % Self::chunk_bits()) as u16));
                    }
                }
            }
            m = m + 1;
        }
        proof {
            assert forall|y: u64| !#[trigger] self.from_slot(k as int).contains(y) by {
                lemma_below_total(y as int, self.chunks@.len() as int, Self::chunk_bits());
            }
        }
        None
    }

    /// The greatest index held in slots `0..k`, if any.
    fn last_before(&self, k: usize) -> (r: Option<u64>)
        requires
            self.wf(),
            k <= self.chunks@.len(),
        ensures
            greatest(self.before_slot(k as int), r),
    {
        let bits = Self::bits_exec();
        proof {
            self.lemma_wf();
        }
        let mut m: usize = k;
        while m > 0
            invariant
                self.wf(),
                self.chunks@.len() * Self::chunk_bits() <= u64::MAX,
                bits as int == Self::chunk_bits(),
                m <= k <= self.chunks@.len(),
                forall|y: u64|
                    #[trigger] self.contents().contains(y) && (y as int) / Self::chunk_bits() < k as int ==> (
                    y as int) / Self::chunk_bits() < m as int,
            decreases m,
        {
            let s = m - 1;
            let found = self.chunks[s].last();
            if let Some(j) = found {
                proof {
                    self.chunks@[s as int].lemma_domain();
                    assert(chunk_domain::<u16>(C::BITS).contains(j));
                    lemma_fused(s as int, j as int, bits as int);
                    assert((s as int) * (bits as int) + (bits as int) <= (self.chunks@.len() as int) * (bits as int))
                        by (nonlinear_arith)
                        requires
                            s < self.chunks@.len(),
                    ;
                }
                let x = (s as u64) * bits + (j as u64);
                proof {
                    assert forall|y: u64| #[trigger]
                        self.before_slot(k as int).contains(y)
                            implies (y as int) <= (x as int) by {
                        lemma_slot(y as int, bits as int);
                        if (y as int) / (bits as int) == s as int {
                            lemma_same_slot_order(y, x, bits as int);
                            assert(self.chunks@[s as int].contents().contains(((y as int) % (bits as int)) as u16));
                        } else {
                            lemma_slot_order(y as int, x as int, bits as int);
                        }
                    }
                }
                return Some(x);
            }
            proof {
                assert forall|y: u64|
                    #[trigger] self.contents().contains(y) && (y as int) / Self::chunk_bits() < k as int implies (
                    y as int) / Self::chunk_bits() < s as int by {
                    if (y as int) / Self::chunk_bits() == s as int {
                        assert(self.chunks@[s as int].contents().contains(((y as int) % Self::chunk_bits()) as u16));
                    }
                }
            }
            m = s;
        }
        None
    }
}

impl<C: IndexChunk<Index = u16>> DynamicChunkStore<C> {
    /// The indexes absent from slots `k` up to the last chunk.
    pub open spec fn absent_from(&self, k: int) -> Set<u64> {
        self.contents().complement().filter(
            |y: u64| k <= (y as int) / Self::chunk_bits() && (y as int) / Self::chunk_bits() < self.spec_chunks().len(),
        )
    }

    /// The indexes absent from slots below `k`.
    pub open spec fn absent_before(&self, k: int) -> Set<u64> {
        self.contents().complement().filter(|y: u64| (y as int) / Self::chunk_bits() < k)
    }

    /// The least index absent from slots `k..`, among the slots there are, if any.
    fn first_absent_from(&self, k: usize) -> (r: Option<u64>)
        requires
            self.wf(),
            k <= self.chunks@.len(),
        ensures
            least(self.absent_from(k as int), r),
    {
        let bits = Self::bits_exec();
        proof {
            self.lemma_wf();
        }
        let mut m: usize = k;
        while m < self.chunks.len()
            invariant
                self.wf(),
                self.chunks@.len() * Self::chunk_bits() <= u64::MAX,
                bits as int == Self::chunk_bits(),
                k <= m <= self.chunks@.len(),
                forall|y: u64|
                    #[trigger] self.contents().complement().contains(y) && (y as int) / Self::chunk_bits() < self.chunks@.len() && k as int <= (y as int) / Self::chunk_bits() ==> m
                        as int <= (y as int) / Self::chunk_bits(),
            decreases self.chunks@.len() - m,
        {
            let inverse = self.chunks[m].not();
            let found = inverse.first();
            if let Some(j) = found {
                proof {
                    inverse.lemma_domain();
                    assert(chunk_domain::<u16>(C::BITS).contains(j));
                    lemma_fused(m as int, j as int, bits as int);
                    assert((m as int) * (bits as int) + (bits as int) <= (self.chunks@.len() as int) * (bits as int))
                        by (nonlinear_arith)
                        requires
                            m < self.chunks.len(),
                    ;
                }
                let x = (m as u64) * bits + (j as u64);
                proof {
                    assert forall|y: u64| #[trigger]
                        self.absent_from(k as int).contains(y)
                            implies (x as int) <= (y as int) by {
                        lemma_slot(y as int, bits as int);
                        if (y as int) / (bits as int) == m as int {
                            lemma_same_slot_order(x, y, bits as int);
                            assert(chunk_domain::<u16>(C::BITS).contains(((y as int) % (bits as int)) as u16));
                            assert(inverse.contents().contains(((y as int) % (bits as int)) as u16));
                        } else {
                            lemma_slot_order(x as int, y as int, bits as int);
                        }
                    }
                }
                return Some(x);
            }
            proof {
                assert forall|y: u64|
                    #[trigger] self.contents().complement().contains(y) && (y as int) / Self::chunk_bits() < self.chunks@.len() && k as int <= (y as int) / Self::chunk_bits() implies m
                        + 1 <= (y as int) / Self::chunk_bits() by {
                    if (y as int) / Self::chunk_bits() == m as int {
                        lemma_slot(y as int, Self::chunk_bits());
                        lemma_below_total(y as int, self.chunks@.len() as int, Self::chunk_bits());
                        assert(chunk_domain::<u16>(C::BITS).contains(((y as int) % Self::chunk_bits()) as u16));
                        assert(inverse.contents().contains(((y as int) % Self::chunk_bits()) as u16));
                    }
                }
            }
            m = m + 1;
        }
        proof {
            assert forall|y: u64| !#[trigger] self.absent_from(k as int).contains(y) by {
                lemma_below_total(y as int, self.chunks@.len() as int, Self::chunk_bits());
            }
        }
        None
    }

    /// The greatest index absent from slots `0..k`, if any.
    fn last_absent_before(&self, k: usize) -> (r: Option<u64>)
        requires
            self.wf(),
            k <= self.chunks@.len(),
        ensures
            greatest(self.absent_before(k as int), r),
    {
        let bits = Self::bits_exec();
        proof {
            self.lemma_wf();
        }
        let mut m: usize = k;
        while m > 0
            invariant
                self.wf(),
                self.chunks@.len() * Self::chunk_bits() <= u64::MAX,
                bits as int == Self::chunk_bits(),
                m <= k <= self.chunks@.len(),
                forall|y: u64|
                    #[trigger] self.contents().complement().contains(y) && (y as int) / Self::chunk_bits() < self.chunks@.len() && (y as int) / Self::chunk_bits() < k as int ==> (
                    y as int) / Self::chunk_bits() < m as int,
            decreases m,
        {
            let s = m - 1;
            let inverse = self.chunks[s].not();
            let found = inverse.last();
            if let Some(j) = found {
                proof {
                    inverse.lemma_domain();
                    assert(chunk_domain::<u16>(C::BITS).contains(j));
                    lemma_fused(s as int, j as int, bits as int);
                    assert((s as int) * (bits as int) + (bits as int) <= (self.chunks@.len() as int) * (bits as int))
                        by (nonlinear_arith)
                        requires
                            s < self.chunks@.len(),
                    ;
                }
                let x = (s as u64) * bits + (j as u64);
                proof {
                    assert forall|y: u64| #[trigger]
                        self.absent_before(k as int).contains(y)
                            implies (y as int) <= (x as int) by {
                        lemma_slot(y as int, bits as int);
                        if (y as int) / (bits as int) == s as int {
                            lemma_same_slot_order(y, x, bits as int);
                            assert(chunk_domain::<u16>(C::BITS).contains(((y as int) % (bits as int)) as u16));
                            assert(inverse.contents().contains(((y as int) % (bits as int)) as u16));
                        } else {
                            lemma_slot_order(y as int, x as int, bits as int);
                        }
                    }
                }
                return Some(x);
            }
            proof {
                assert forall|y: u64|
                    #[trigger] self.contents().complement().contains(y) && (y as int) / Self::chunk_bits() < self.chunks@.len() && (y as int) / Self::chunk_bits() < k as int implies (
                    y as int) / Self::chunk_bits() < s as int by {
                    if (y as int) / Self::chunk_bits() == s as int {
                        lemma_slot(y as int, Self::chunk_bits());
                        lemma_below_total(y as int, self.chunks@.len() as int, Self::chunk_bits());
                        assert(chunk_domain::<u16>(C::BITS).contains(((y as int) % Self::chunk_bits()) as u16));
                        assert(inverse.contents().contains(((y as int) % Self::chunk_bits()) as u16));
                    }
                }
            }
            m = s;
        }
        None
    }
}

impl<C: IndexChunk<Index = u16>> IndexVault for DynamicChunkStore<C> {}

impl<C: IndexChunk<Index = u16>> IndexForward for DynamicChunkStore<C> {
    fn first(&self) -> (r: Option<u64>) {
        let r = self.first_from(0);
        proof {
            assert(self.from_slot(0) =~= self.contents())
                by {
                assert forall|y: u64| #[trigger] self.contents().contains(y) implies 0 <= (y as int)
                    / Self::chunk_bits() by {
                    lemma_slot(y as int, Self::chunk_bits());
                }
            }
        }
        r
    }

    fn next_after(&self, current: u64) -> (r: Option<u64>) {
        let bits = Self::bits_exec();
        proof {
            self.lemma_wf();
        }
        let outer64 = current / bits;
        let inner = (current % bits) as u16;
        proof {
            lemma_slot(current as int, bits as int);
            lemma_below_total(current as int, self.chunks@.len() as int, bits as int);
        }
        if outer64 >= self.chunks.len() as u64 {
            proof {
                assert forall|y: u64| !#[trigger] above(self.contents(), current).contains(y) by {
                    lemma_below_total(y as int, self.chunks@.len() as int, bits as int);
                }
            }
            return None;
        }
        let outer = outer64 as usize;
        let found = self.chunks[outer].next_after(inner);
        if let Some(j) = found {
            proof {
                self.chunks@[outer as int].lemma_domain();
                assert(chunk_domain::<u16>(C::BITS).contains(j));
                lemma_fused(outer as int, j as int, bits as int);
                assert((outer as int) * (bits as int) + (bits as int) <= (self.chunks@.len() as int) * (bits as int))
                    by (nonlinear_arith)
                    requires
                        outer < self.chunks@.len(),
                ;
            }
            let x = (outer as u64) * bits + (j as u64);
            proof {
                lemma_same_slot_order(current, x, bits as int);
                assert forall|y: u64| #[trigger] above(self.contents(), current).contains(y) implies (x as int)
                    <= (y as int) by {
                    lemma_slot(y as int, bits as int);
                    if (y as int) / (bits as int) == outer as int {
                        lemma_same_slot_order(current, y, bits as int);
                        lemma_same_slot_order(x, y, bits as int);
                        assert(above(self.chunks@[outer as int].contents(), inner).contains(
                            ((y as int) % (bits as int)) as u16,
                        ));
                    } else if (y as int) / (bits as int) < outer as int {
                        lemma_slot_order(y as int, current as int, bits as int);
                    } else {
                        lemma_slot_order(x as int, y as int, bits as int);
                    }
                }
            }
            return Some(x);
        }
        let r = self.first_from(outer + 1);
        proof {
            assert forall|y: u64| #[trigger] above(self.contents(), current).contains(y) == self.from_slot(outer + 1).contains(y) by {
                lemma_slot(y as int, bits as int);
                if (y as int) / (bits as int) == outer as int {
                    lemma_same_slot_order(current, y, bits as int);
                    if self.contents().contains(y) && (current as int) < (y as int) {
                        assert(above(self.chunks@[outer as int].contents(), inner).contains(
                            ((y as int) % (bits as int)) as u16,
                        ));
                    }
                } else if (y as int) / (bits as int) < outer as int {
                    lemma_slot_order(y as int, current as int, bits as int);
                } else {
                    lemma_slot_order(current as int, y as int, bits as int);
                }
            }
            assert(above(self.contents(), current) =~= self.from_slot(outer + 1));
        }
        r
    }
}

impl<C: IndexChunk<Index = u16>> IndexBackward for DynamicChunkStore<C> {
    fn last(&self) -> (r: Option<u64>) {
        let r = self.last_before(self.chunks.len());
        proof {
            assert(self.before_slot(self.chunks@.len() as int) =~= self.contents())
                by {
                assert forall|y: u64| #[trigger] self.contents().contains(y) implies (y as int) / Self::chunk_bits()
                    < self.chunks@.len() as int by {
                    lemma_below_total(y as int, self.chunks@.len() as int, Self::chunk_bits());
                }
            }
        }
        r
    }

    fn next_before(&self, current: u64) -> (r: Option<u64>) {
        let bits = Self::bits_exec();
        proof {
            self.lemma_wf();
        }
        let outer64 = current / bits;
        let inner = (current % bits) as u16;
        proof {
            lemma_slot(current as int, bits as int);
            lemma_below_total(current as int, self.chunks@.len() as int, bits as int);
        }
        if outer64 >= self.chunks.len() as u64 {
            let r = self.last_before(self.chunks.len());
            proof {
                assert forall|y: u64| #[trigger] below(self.contents(), current).contains(y) == self.before_slot(self.chunks@.len() as int).contains(y) by {
                    lemma_below_total(y as int, self.chunks@.len() as int, bits as int);
                }
                assert(below(self.contents(), current) =~= self.before_slot(self.chunks@.len() as int));
            }
            return r;
        }
        let outer = outer64 as usize;
        let found = self.chunks[outer].next_before(inner);
        if let Some(j) = found {
            proof {
                self.chunks@[outer as int].lemma_domain();
                assert(chunk_domain::<u16>(C::BITS).contains(j));
                lemma_fused(outer as int, j as int, bits as int);
                assert((outer as int) * (bits as int) + (bits as int) <= (self.chunks@.len() as int) * (bits as int))
                    by (nonlinear_arith)
                    requires
                        outer < self.chunks@.len(),
                ;
            }
            let x = (outer as u64) * bits + (j as u64);
            proof {
                lemma_same_slot_order(x, current, bits as int);
                assert forall|y: u64| #[trigger] below(self.contents(), current).contains(y) implies (y as int)
                    <= (x as int) by {
                    lemma_slot(y as int, bits as int);
                    if (y as int) / (bits as int) == outer as int {
                        lemma_same_slot_order(y, current, bits as int);
                        lemma_same_slot_order(y, x, bits as int);
                        assert(below(self.chunks@[outer as int].contents(), inner).contains(
                            ((y as int) % (bits as int)) as u16,
                        ));
                    } else if (y as int) / (bits as int) > outer as int {
                        lemma_slot_order(current as int, y as int, bits as int);
                    } else {
                        lemma_slot_order(y as int, x as int, bits as int);
                    }
                }
            }
            return Some(x);
        }
        let r = self.last_before(outer);
        proof {
            assert forall|y: u64| #[trigger] below(self.contents(), current).contains(y) == self.before_slot(outer as int).contains(y) by {
                lemma_slot(y as int, bits as int);
                if (y as int) / (bits as int) == outer as int {
                    lemma_same_slot_order(y, current, bits as int);
                    if self.contents().contains(y) && (y as int) < (current as int) {
                        assert(below(self.chunks@[outer as int].contents(), inner).contains(
                            ((y as int) % (bits as int)) as u16,
                        ));
                    }
                } else if (y as int) / (bits as int) > outer as int {
                    lemma_slot_order(current as int, y as int, bits as int);
                } else {
                    lemma_slot_order(y as int, current as int, bits as int);
                }
            }
            assert(below(self.contents(), current) =~= self.before_slot(outer as int));
        }
        r
    }
}

impl<C: IndexChunk<Index = u16>> IndexOrdered for DynamicChunkStore<C> {}

impl<C: IndexChunk<Index = u16>> IndexViewChunked for DynamicChunkStore<C> {
    type ChunkIndex = usize;
    type Chunk = C;

    open spec fn splittable(index: u64) -> bool {
        Self::shape_ok() && (index as int) / Self::chunk_bits() <= usize::MAX
    }

    open spec fn fusable(outer: usize, inner: u16) -> bool {
        Self::shape_ok() && (inner as int) < Self::chunk_bits() && outer * Self::chunk_bits() + inner
            <= u64::MAX
    }

    open spec fn spec_fuse(outer: usize, inner: u16) -> u64 {
        (outer * Self::chunk_bits() + inner) as u64
    }

    open spec fn spec_split(index: u64) -> (usize, u16) {
        (((index as int) / Self::chunk_bits()) as usize, ((index as int) % Self::chunk_bits()) as u16)
    }

    open spec fn chunk_at(&self, outer: usize) -> Option<Set<u16>> {
        if (outer as int) < self.spec_chunks().len() {
            Some(self.spec_chunks()[outer as int].contents())
        } else {
            None
        }
    }

    open spec fn beyond(&self) -> bool {
        false
    }

    fn fuse(outer: usize, inner: u16) -> (r: u64) {
        (outer as u64) * Self::bits_exec() + (inner as u64)
    }

    fn split(index: u64) -> (r: (usize, u16)) {
        let bits = Self::bits_exec();
        proof {
            lemma_slot(index as int, bits as int);
        }
        ((index / bits) as usize, (index % bits) as u16)
    }

    fn get_chunk(&self, index: usize) -> (r: Option<C>)
        ensures
            r == (if (index as int) < self.spec_chunks().len() {
                Some(self.spec_chunks()[index as int])
            } else {
                None
            }),
    {
        if index < self.chunks.len() {
            Some(self.chunks[index])
        } else {
            None
        }
    }

    proof fn lemma_split_fuse(index: u64) {
        lemma_slot(index as int, Self::chunk_bits());
    }

    proof fn lemma_two_levels(&self, index: u64) {
        lemma_slot(index as int, Self::chunk_bits());
        lemma_below_total(index as int, self.chunks@.len() as int, Self::chunk_bits());
        self.lemma_wf();
        assert(self.chunks@.len() <= usize::MAX);
        if self.contents().contains(index) {
            assert((index as int) / Self::chunk_bits() < self.chunks@.len());
        }
    }
}

impl<C: IndexChunk<Index = u16>> IndexStoreChunked for DynamicChunkStore<C> {
    type SetError = StoreFull;

    /// The chunk lies below the chunk limit.
    open spec fn settable(&self, index: usize, chunk: C) -> bool {
        (index as int) < Self::max_chunks()
    }

    proof fn lemma_nothing_beyond(&self) {
    }

    fn set_chunk(&mut self, index: usize, chunk: C) -> (r: Result<(), StoreFull>)
        ensures
            r is Ok ==> final(self).spec_chunks()[index as int] == chunk,
            r is Ok ==> forall|o: int|
                0 <= o < old(self).spec_chunks().len() && o != index ==> #[trigger] final(self).spec_chunks()[o]
                    == old(self).spec_chunks()[o],
            r is Err ==> *final(self) == *old(self),
    {
        let limit = Self::max_chunks_exec();
        if index >= limit {
            return Err(StoreFull { index: index as u64 });
        }
        let before = if index < self.chunks.len() {
            self.chunks[index].len()
        } else {
            0
        };
        let after = chunk.len();
        proof {
            self.lemma_wf();
            if index < self.chunks@.len() {
                self.chunks@[index as int].lemma_count();
                lemma_count_update(self.chunks@, index as int, self.chunks@[index as int]);
                assert(self.chunks@.update(index as int, self.chunks@[index as int]) =~= self.chunks@);
            }
        }
        if index >= self.chunks.len() {
            self.grow(index + 1);
        }
        let ghost grown = self.chunks@;
        proof {
            self.lemma_wf();
            let updated = grown.update(index as int, chunk);
            chunk.lemma_domain();
            assert forall|k: int| 0 <= k < updated.len() implies #[trigger] updated[k].wf()
                && updated[k].contents().subset_of(chunk_domain::<u16>(C::BITS)) by {
                updated[k].lemma_domain();
            }
            lemma_count_bound(updated, Self::chunk_bits());
            if (index as int) >= old(self).chunks@.len() {
                assert(grown[index as int].contents() == Set::<u16>::empty());
                grown[index as int].lemma_count();
            } else {
                assert(grown[index as int] == old(self).chunks@[index as int]);
            }
            lemma_count_update(grown, index as int, chunk);
        }
        self.chunks.set(index, chunk);
        if after >= before {
            self.count = self.count + (after - before);
        } else {
            self.count = self.count - (before - after);
        }
        proof {
            assert(self.chunks@ == grown.update(index as int, chunk));
            assert forall|o: usize| o != index implies #[trigger] held(self.chunk_at(o)) == held(
                old(self).chunk_at(o),
            ) by {
                if (o as int) < old(self).chunks@.len() {
                    assert(grown[o as int] == old(self).chunks@[o as int]);
                } else if (o as int) < grown.len() {
                    assert(grown[o as int].contents() == Set::<u16>::empty());
                }
            }
        }
        Ok(())
    }
}

impl<C: IndexChunk<Index = u16>> IndexForwardChunked for DynamicChunkStore<C> {
    fn first_chunk(&self) -> (r: Option<usize>) {
        if self.chunks.len() > 0 {
            Some(0)
        } else {
            None
        }
    }

    fn next_chunk_after(&self, current: usize) -> (r: Option<usize>) {
        if current < self.chunks.len() && current + 1 < self.chunks.len() {
            Some(current + 1)
        } else {
            None
        }
    }
}

impl<C: IndexChunk<Index = u16>> IndexBackwardChunked for DynamicChunkStore<C> {
    fn last_chunk(&self) -> (r: Option<usize>) {
        if self.chunks.len() > 0 {
            Some(self.chunks.len() - 1)
        } else {
            None
        }
    }

    fn next_chunk_before(&self, current: usize) -> (r: Option<usize>) {
        if current == 0 || self.chunks.len() == 0 {
            None
        } else if current - 1 < self.chunks.len() {
            Some(current - 1)
        } else {
            Some(self.chunks.len() - 1)
        }
    }
}

impl<C: IndexChunk<Index = u16>> IndexOrderedChunked for DynamicChunkStore<C> {}

impl<C: IndexChunk<Index = u16>> IndexViewNot for DynamicChunkStore<C> {
    open spec fn capacity(&self) -> nat {
        usize::MAX as nat
    }

    proof fn lemma_capacity(&self) {
    }

    fn len_not(&self) -> (r: usize) {
        usize::MAX - self.count
    }
}

impl<C: IndexChunk<Index = u16>> DynamicChunkStore<C> {
    /// Past the last chunk every index is absent: the least of them is the first index beyond the chunks.
    proof fn lemma_beyond(&self)
        requires
            self.wf(),
        ensures
            self.chunks@.len() * Self::chunk_bits() <= u64::MAX,
            !self.contents().contains((self.chunks@.len() * Self::chunk_bits()) as u64),
            forall|y: u64| #[trigger]
                self.contents().complement().contains(y) && !((y as int) / Self::chunk_bits() < self.chunks@.len())
                    ==> self.chunks@.len() * Self::chunk_bits() <= y,
    {
        self.lemma_wf();
        let t = self.chunks@.len() * Self::chunk_bits();
        lemma_below_total(t, self.chunks@.len() as int, Self::chunk_bits());
        assert forall|y: u64| #[trigger]
            self.contents().complement().contains(y) && !((y as int) / Self::chunk_bits() < self.chunks@.len())
                implies t <= y by {
            lemma_below_total(y as int, self.chunks@.len() as int, Self::chunk_bits());
        }
    }
}

impl<C: IndexChunk<Index = u16>> IndexForwardNot for DynamicChunkStore<C> {
    fn first_not(&self) -> (r: Option<u64>) {
        proof {
            self.lemma_beyond();
        }
        let found = self.first_absent_from(0);
        proof {
            assert forall|y: u64| #[trigger] self.contents().complement().contains(y) && (y as int)
                / Self::chunk_bits() < self.chunks@.len() implies self.absent_from(0).contains(y) by {
                lemma_slot(y as int, Self::chunk_bits());
            }
        }
        proof {
            if let Some(x) = found {
                lemma_below_total(x as int, self.chunks@.len() as int, Self::chunk_bits());
                assert forall|y: u64| #[trigger] self.contents().complement().contains(y) implies x <= y by {
                    if (y as int) / Self::chunk_bits() < self.chunks@.len() {
                        assert(self.absent_from(0).contains(y));
                    }
                }
            } else {
                assert forall|y: u64| #[trigger] self.contents().complement().contains(y) implies self.chunks@.len()
                    * Self::chunk_bits() <= y by {
                    if (y as int) / Self::chunk_bits() < self.chunks@.len() {
                        assert(self.absent_from(0).contains(y));
                    }
                }
            }
        }
        match found {
            Some(x) => Some(x),
            None => Some((self.chunks.len() as u64) * Self::bits_exec()),
        }
    }

    fn next_after_not(&self, current: u64) -> (r: Option<u64>) {
        let bits = Self::bits_exec();
        proof {
            self.lemma_beyond();
            lemma_slot(current as int, bits as int);
            lemma_below_total(current as int, self.chunks@.len() as int, bits as int);
        }
        if current == u64::MAX {
            return None;
        }
        let outer64 = current / bits;
        if outer64 >= self.chunks.len() as u64 {
            proof {
                lemma_slot((current + 1) as int, bits as int);
                lemma_below_total((current + 1) as int, self.chunks@.len() as int, bits as int);
            }
            return Some(current + 1);
        }
        let outer = outer64 as usize;
        let inner = (current % bits) as u16;
        let inverse = self.chunks[outer].not();
        let found = inverse.next_after(inner);
        if let Some(j) = found {
            proof {
                inverse.lemma_domain();
                assert(chunk_domain::<u16>(C::BITS).contains(j));
                lemma_fused(outer as int, j as int, bits as int);
                assert((outer as int) * (bits as int) + (bits as int) <= (self.chunks@.len() as int) * (
                bits as int)) by (nonlinear_arith)
                    requires
                        outer < self.chunks@.len(),
                ;
            }
            let x = (outer as u64) * bits + (j as u64);
            proof {
                lemma_same_slot_order(current, x, bits as int);
                lemma_below_total(x as int, self.chunks@.len() as int, bits as int);
                assert forall|y: u64| #[trigger] above(self.contents().complement(), current).contains(y)
                    implies (x as int) <= (y as int) by {
                    lemma_slot(y as int, bits as int);
                    lemma_below_total(y as int, self.chunks@.len() as int, bits as int);
                    if (y as int) / (bits as int) == outer as int {
                        lemma_same_slot_order(current, y, bits as int);
                        lemma_same_slot_order(x, y, bits as int);
                        assert(chunk_domain::<u16>(C::BITS).contains(((y as int) % (bits as int)) as u16));
                        assert(above(inverse.contents(), inner).contains(((y as int) % (bits as int)) as u16));
                    } else if (y as int) / (bits as int) < outer as int {
                        lemma_slot_order(y as int, current as int, bits as int);
                    } else {
                        lemma_slot_order(x as int, y as int, bits as int);
                    }
                }
            }
            return Some(x);
        }
        let rest = self.first_absent_from(outer + 1);
        proof {
            assert forall|y: u64| #[trigger] above(self.contents().complement(), current).contains(y)
                && (y as int) / (bits as int) < self.chunks@.len() implies self.absent_from(outer + 1).contains(
                y,
            ) by {
                lemma_slot(y as int, bits as int);
                lemma_below_total(y as int, self.chunks@.len() as int, bits as int);
                if (y as int) / (bits as int) == outer as int {
                    lemma_same_slot_order(current, y, bits as int);
                    assert(chunk_domain::<u16>(C::BITS).contains(((y as int) % (bits as int)) as u16));
                    assert(above(inverse.contents(), inner).contains(((y as int) % (bits as int)) as u16));
                } else if (y as int) / (bits as int) < outer as int {
                    lemma_slot_order(y as int, current as int, bits as int);
                }
            }
            assert forall|y: u64| #[trigger] self.absent_from(outer + 1).contains(y) implies above(
                self.contents().complement(),
                current,
            ).contains(y) by {
                lemma_slot_order(current as int, y as int, bits as int);
            }
        }
        proof {
            if let Some(x) = rest {
                lemma_below_total(x as int, self.chunks@.len() as int, bits as int);
                assert forall|y: u64| #[trigger] above(self.contents().complement(), current).contains(y) implies x
                    <= y by {
                    if (y as int) / (bits as int) < self.chunks@.len() {
                        assert(self.absent_from(outer + 1).contains(y));
                    }
                }
            } else {
                let t = self.chunks@.len() * Self::chunk_bits();
                assert(above(self.contents().complement(), current).contains(t as u64));
                assert forall|y: u64| #[trigger] above(self.contents().complement(), current).contains(y) implies t
                    <= y by {
                    if (y as int) / (bits as int) < self.chunks@.len() {
                        assert(self.absent_from(outer + 1).contains(y));
                    }
                }
            }
        }
        match rest {
            Some(x) => Some(x),
            None => Some((self.chunks.len() as u64) * bits),
        }
    }
}

impl<C: IndexChunk<Index = u16>> IndexBackwardNot for DynamicChunkStore<C> {
    fn last_not(&self) -> (r: Option<u64>) {
        proof {
            self.lemma_beyond();
            lemma_below_total(u64::MAX as int, self.chunks@.len() as int, Self::chunk_bits());
        }
        Some(u64::MAX)
    }

    fn next_before_not(&self, current: u64) -> (r: Option<u64>) {
        let bits = Self::bits_exec();
        proof {
            self.lemma_beyond();
            lemma_slot(current as int, bits as int);
            lemma_below_total(current as int, self.chunks@.len() as int, bits as int);
        }
        if current == 0 {
            return None;
        }
        let total = (self.chunks.len() as u64) * bits;
        if current > total {
            proof {
                lemma_below_total((current - 1) as int, self.chunks@.len() as int, bits as int);
            }
            return Some(current - 1);
        }
        let outer64 = current / bits;
        if outer64 >= self.chunks.len() as u64 {
            let r = self.last_absent_before(self.chunks.len());
            proof {
                assert forall|y: u64| #[trigger] below(self.contents().complement(), current).contains(y) implies self.absent_before(
                    self.chunks@.len() as int,
                ).contains(y) by {
                    lemma_below_total(y as int, self.chunks@.len() as int, bits as int);
                }
                assert forall|y: u64| #[trigger] self.absent_before(self.chunks@.len() as int).contains(y) implies below(
                    self.contents().complement(),
                    current,
                ).contains(y) by {
                    lemma_below_total(y as int, self.chunks@.len() as int, bits as int);
                }
                assert(below(self.contents().complement(), current) =~= self.absent_before(
                    self.chunks@.len() as int,
                ));
            }
            return r;
        }
        let outer = outer64 as usize;
        let inner = (current % bits) as u16;
        let inverse = self.chunks[outer].not();
        let found = inverse.next_before(inner);
        if let Some(j) = found {
            proof {
                inverse.lemma_domain();
                assert(chunk_domain::<u16>(C::BITS).contains(j));
                lemma_fused(outer as int, j as int, bits as int);
                assert((outer as int) * (bits as int) + (bits as int) <= (self.chunks@.len() as int) * (
                bits as int)) by (nonlinear_arith)
                    requires
                        outer < self.chunks@.len(),
                ;
            }
            let x = (outer as u64) * bits + (j as u64);
            proof {
                lemma_same_slot_order(x, current, bits as int);
                lemma_below_total(x as int, self.chunks@.len() as int, bits as int);
                assert forall|y: u64| #[trigger] below(self.contents().complement(), current).contains(y)
                    implies (y as int) <= (x as int) by {
                    lemma_slot(y as int, bits as int);
                    lemma_below_total(y as int, self.chunks@.len() as int, bits as int);
                    if (y as int) / (bits as int) == outer as int {
                        lemma_same_slot_order(y, current, bits as int);
                        lemma_same_slot_order(y, x, bits as int);
                        assert(chunk_domain::<u16>(C::BITS).contains(((y as int) % (bits as int)) as u16));
                        assert(below(inverse.contents(), inner).contains(((y as int) % (bits as int)) as u16));
                    } else if (y as int) / (bits as int) > outer as int {
                        lemma_slot_order(current as int, y as int, bits as int);
                    } else {
                        lemma_slot_order(y as int, x as int, bits as int);
                    }
                }
            }
            return Some(x);
        }
        let r = self.last_absent_before(outer);
        proof {
            assert forall|y: u64| #[trigger] below(self.contents().complement(), current).contains(y) == self.absent_before(
                outer as int,
            ).contains(y) by {
                lemma_slot(y as int, bits as int);
                lemma_below_total(y as int, self.chunks@.len() as int, bits as int);
                if (y as int) / (bits as int) == outer as int {
                    lemma_same_slot_order(y, current, bits as int);
                    if self.contents().complement().contains(y) && (y as int) < (current as int) {
                        assert(chunk_domain::<u16>(C::BITS).contains(((y as int) % (bits as int)) as u16));
                        assert(below(inverse.contents(), inner).contains(((y as int) % (bits as int)) as u16));
                    }
                } else if (y as int) / (bits as int) > outer as int {
                    lemma_slot_order(current as int, y as int, bits as int);
                } else {
                    lemma_slot_order(y as int, current as int, bits as int);
                }
            }
            assert(below(self.contents().complement(), current) =~= self.absent_before(outer as int));
        }
        r
    }
}

impl<C: IndexChunk<Index = u16>> IndexOrderedNot for DynamicChunkStore<C> {}

impl<C: IndexChunk<Index = u16>> IndexForwardChunkedNot for DynamicChunkStore<C> {
    fn first_chunk_not(&self) -> (r: Option<usize>) {
        self.first_chunk()
    }
}

impl<C: IndexChunk<Index = u16>> IndexBackwardChunkedNot for DynamicChunkStore<C> {
    fn last_chunk_not(&self) -> (r: Option<usize>) {
        self.last_chunk()
    }
}

impl<C: IndexChunk<Index = u16>> IndexOrderedChunkedNot for DynamicChunkStore<C> {}

} // verus!
