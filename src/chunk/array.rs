//! A chunk made of an array of smaller chunks: index `i` lives in slot `i / C::BITS`, at `i % C::BITS`.
use vstd::prelude::*;

use vstd::arithmetic::div_mod::{lemma_fundamental_div_mod, lemma_fundamental_div_mod_converse};

use crate::chunk::{chunk_domain, symmetric, IndexChunk};
use crate::index::{
    above, below, greatest, held, least, Bound, IndexBackward, IndexBackwardChunked, IndexCollection,
    IndexForward, IndexForwardChunked, IndexOrdered, IndexOrderedChunked, IndexStore,
    IndexStoreChunked, IndexVault, IndexView, IndexViewChunked,
};
use crate::not::IndexViewNot;

verus! {

/// A chunk of indexes made of `N` chunks of type `C`.
#[derive(Clone, Copy, Debug, PartialEq, Eq, Hash)]
pub struct ArrayChunk<C, const N: usize>(pub [C; N]);

/// Error of `set_chunk` on a chunk index beyond the array.
#[derive(Clone, Copy, Debug, PartialEq, Eq)]
pub struct ChunkOutOfRange {
    /// The chunk index that was refused.
    pub index: u16,
}

/// The indexes held by the array of chunks `chunks`, each of `bits` bits.
pub open spec fn array_contents<C: IndexView<Index = u8>>(chunks: Seq<C>, bits: int) -> Set<u16> {
    Set::new(
        |i: u16|
            (i as int) < chunks.len() * bits && chunks[(i as int) / bits].contents().contains(
                ((i as int) % bits) as u8,
            ),
    )
}

/// The sum of the counts of `chunks`.
pub open spec fn total_count<C: IndexView>(chunks: Seq<C>) -> nat
    decreases chunks.len(),
{
    if chunks.len() == 0 {
        0
    } else {
        total_count(chunks.drop_last()) + chunks.last().count()
    }
}

/// Slot and offset of an index decompose it exactly, and order follows the slot first.
proof fn lemma_slot(i: int, b: int)
    requires
        0 <= i,
        1 <= b,
    ensures
        i == (i / b) * b + i % b,
        0 <= i % b < b,
        0 <= i / b,
{
    lemma_fundamental_div_mod(i, b);
    assert(b * (i / b) == (i / b) * b) by (nonlinear_arith);
}

proof fn lemma_fused(k: int, j: int, b: int)
    requires
        0 <= k,
        0 <= j < b,
    ensures
        (k * b + j) / b == k,
        (k * b + j) % b == j,
        k * b <= k * b + j < (k + 1) * b,
{
    lemma_fundamental_div_mod_converse(k * b + j, b, k, j);
    assert((k + 1) * b == k * b + b) by (nonlinear_arith);
}

proof fn lemma_slot_order(x: int, y: int, b: int)
    requires
        0 <= x,
        0 <= y,
        1 <= b,
        x / b < y / b,
    ensures
        x < y,
{
    lemma_slot(x, b);
    lemma_slot(y, b);
    let p = x / b;
    let q = y / b;
    assert(p * b + b <= q * b) by (nonlinear_arith)
        requires
            p < q,
            1 <= b,
    ;
}

proof fn lemma_below_total(i: int, n: int, b: int)
    requires
        0 <= i,
        1 <= b,
        0 <= n,
    ensures
        (i < n * b) == (i / b < n),
{
    lemma_slot(i, b);
    let q = i / b;
    if q < n {
        assert(q * b + b <= n * b) by (nonlinear_arith)
            requires
                q < n,
                1 <= b,
        ;
    } else {
        assert(n * b <= q * b) by (nonlinear_arith)
            requires
                n <= q,
                1 <= b,
        ;
    }
}

/// Any set of `u8` is finite, with at most 256 elements.
proof fn lemma_u8_set(s: Set<u8>)
    ensures
        s.finite(),
        s.len() <= 256,
{
    <u8 as vstd::set_lib::FiniteRange>::range_properties(0, 255);
    let full = Set::<u8>::range(0, 255).insert(255);
    assert(s.subset_of(full));
    vstd::set_lib::lemma_len_subset(s, full);
}

/// Counting the chunks one more at a time.
proof fn lemma_total_step<C: IndexView>(s: Seq<C>, k: int)
    requires
        0 <= k < s.len(),
    ensures
        total_count(s.subrange(0, k + 1)) == total_count(s.subrange(0, k)) + s[k].count(),
{
    assert(s.subrange(0, k + 1).drop_last() =~= s.subrange(0, k));
}

/// The indexes of an array of chunks are finite, and as many as the counts of the chunks add up to.
proof fn lemma_array_count<C: IndexStore<Index = u8>>(chunks: Seq<C>, bits: int)
    requires
        1 <= bits <= 256,
        chunks.len() * bits <= 0x1_0000,
        forall|k: int| 0 <= k < chunks.len() ==> (#[trigger] chunks[k]).wf(),
        forall|k: int|
            0 <= k < chunks.len() ==> (#[trigger] chunks[k]).contents().subset_of(
                chunk_domain::<u8>(bits as u32),
            ),
    ensures
        array_contents(chunks, bits).finite(),
        array_contents(chunks, bits).len() == total_count(chunks),
    decreases chunks.len(),
{
    if chunks.len() == 0 {
        assert(chunks.len() * bits == 0) by (nonlinear_arith)
            requires
                chunks.len() == 0,
        ;
        assert(array_contents(chunks, bits) =~= Set::<u16>::empty());
    } else {
        let n = chunks.len() as int;
        let k = n - 1;
        let pre = chunks.drop_last();
        assert(pre.len() * bits <= chunks.len() * bits) by (nonlinear_arith)
            requires
                pre.len() <= chunks.len(),
                1 <= bits,
        ;
        assert forall|m: int| 0 <= m < pre.len() implies #[trigger] pre[m].wf() && pre[m].contents().subset_of(
            chunk_domain::<u8>(bits as u32),
        ) by {
            assert(pre[m] == chunks[m]);
        }
        lemma_array_count(pre, bits);
        let last = chunks.last();
        assert(last == chunks[k]);
        last.lemma_count();
        let f = |j: u8| (k * bits + j) as u16;
        let t = last.contents().map(f);
        assert forall|i: u16| #[trigger] array_contents(chunks, bits).contains(i) == (array_contents(
            pre,
            bits,
        ).contains(i) || t.contains(i)) by {
            lemma_slot(i as int, bits);
            lemma_below_total(i as int, n, bits);
            lemma_below_total(i as int, n - 1, bits);
            if (i as int) / bits < k {
                assert(pre[(i as int) / bits] == chunks[(i as int) / bits]);
                if t.contains(i) {
                    let j = choose|j: u8| last.contents().contains(j) && f(j) == i;
                    assert(chunk_domain::<u8>(bits as u32).contains(j));
                    lemma_fused(k, j as int, bits);
                }
            } else if (i as int) / bits == k {
                if array_contents(chunks, bits).contains(i) {
                    let j = ((i as int) % bits) as u8;
                    assert(f(j) == i);
                    assert(last.contents().contains(j));
                }
                if t.contains(i) {
                    let j = choose|j: u8| last.contents().contains(j) && f(j) == i;
                    assert(chunk_domain::<u8>(bits as u32).contains(j));
                    lemma_fused(k, j as int, bits);
                }
            } else {
                if t.contains(i) {
                    let j = choose|j: u8| last.contents().contains(j) && f(j) == i;
                    assert(chunk_domain::<u8>(bits as u32).contains(j));
                    lemma_fused(k, j as int, bits);
                }
            }
        }
        assert(array_contents(chunks, bits) =~= array_contents(pre, bits).union(t));
        assert forall|a: u8, b: u8| last.contents().contains(a) && last.contents().contains(b) && #[trigger] f(a)
            == #[trigger] f(b) implies a == b by {
            assert(chunk_domain::<u8>(bits as u32).contains(a));
            assert(chunk_domain::<u8>(bits as u32).contains(b));
            lemma_fused(k, a as int, bits);
            lemma_fused(k, b as int, bits);
        }
        vstd::set_lib::lemma_map_size(last.contents(), t, f);
        assert(array_contents(pre, bits).disjoint(t)) by {
            assert forall|i: u16| #[trigger] t.contains(i) implies !array_contents(pre, bits).contains(i) by {
                let j = choose|j: u8| last.contents().contains(j) && f(j) == i;
                assert(chunk_domain::<u8>(bits as u32).contains(j));
                lemma_fused(k, j as int, bits);
                lemma_below_total(i as int, n - 1, bits);
            }
        }
        vstd::set_lib::lemma_set_disjoint_lens(array_contents(pre, bits), t);
    }
}

impl<C: IndexChunk<Index = u8>, const N: usize> ArrayChunk<C, N> {
    /// The capacity of the array is the product of its slots and their bits.
    proof fn lemma_bits()
        requires
            Self::shape_ok(),
        ensures
            <Self as IndexChunk>::BITS as int == N * C::BITS,
    {
        assert(N <= 0x1_0000) by (nonlinear_arith)
            requires
                N * C::BITS <= 0x1_0000,
                1 <= C::BITS,
        ;
        assert((N as u32) as int == N as int);
        assert((C::BITS as int) * (N as int) == (N as int) * (C::BITS as int)) by (nonlinear_arith);
        assert(<Self as IndexChunk>::BITS as int == (C::BITS * (N as u32)) as int);
    }

    /// Bits per slot.
    pub open spec fn slot_bits() -> int {
        C::BITS as int
    }

    /// The slots have between 1 and 256 bits, and all the array's indexes fit in `u16`.
    pub open spec fn shape_ok() -> bool {
        C::constructible() && 1 <= C::BITS <= 256 && N * C::BITS <= 0x1_0000
    }

    /// Creates a new, empty, instance.
    pub fn new() -> (r: Self)
        requires
            Self::shape_ok(),
        ensures
            r.wf(),
            r.contents() == Set::<u16>::empty(),
            r.count() == 0,
    {
        let empty = C::new();
        let r = ArrayChunk([empty; N]);
        proof {
            assert forall|k: int| 0 <= k < N implies #[trigger] r.0@[k] == empty by {
                assert(r.0[k] == empty);
            }
            assert forall|i: u16| !#[trigger] r.contents().contains(i) by {
                lemma_below_total(i as int, N as int, Self::slot_bits());
                lemma_slot(i as int, Self::slot_bits());
            }
            assert(r.contents() =~= Set::<u16>::empty());
            Self::lemma_all_empty(r.0@);
        }
        r
    }

    proof fn lemma_all_empty(s: Seq<C>)
        requires
            forall|k: int| 0 <= k < s.len() ==> (#[trigger] s[k]).count() == 0,
        ensures
            total_count(s) == 0,
        decreases s.len(),
    {
        if s.len() > 0 {
            let p = s.drop_last();
            assert forall|k: int| 0 <= k < p.len() implies (#[trigger] p[k]).count() == 0 by {
                assert(p[k] == s[k]);
            }
            Self::lemma_all_empty(p);
        }
    }

    proof fn lemma_shape(&self)
        requires
            self.wf(),
        ensures
            array_contents(self.0@, Self::slot_bits()).finite(),
            array_contents(self.0@, Self::slot_bits()).len() == total_count(self.0@),
            forall|k: int| 0 <= k < N ==> (#[trigger] self.0@[k]).contents().subset_of(
                chunk_domain::<u8>(C::BITS),
            ),
    {
        assert forall|k: int| 0 <= k < N implies (#[trigger] self.0@[k]).contents().subset_of(
            chunk_domain::<u8>(C::BITS),
        ) by {
            self.0@[k].lemma_domain();
        }
        lemma_array_count(self.0@, Self::slot_bits());
    }

    fn slot_bits_exec() -> (r: u16)
        requires
            Self::shape_ok(),
        ensures
            r as int == Self::slot_bits(),
    {
        C::BITS as u16
    }
}

/// Replacing the chunk of one slot changes the indexes of that slot only.
proof fn lemma_slot_update<C: IndexView<Index = u8>>(chunks: Seq<C>, o: int, c: C, bits: int, i: u16)
    requires
        0 <= o < chunks.len(),
        1 <= bits,
    ensures
        array_contents(chunks.update(o, c), bits).contains(i) == if (i as int) / bits == o {
            c.contents().contains(((i as int) % bits) as u8)
        } else {
            array_contents(chunks, bits).contains(i)
        },
{
    lemma_slot(i as int, bits);
    lemma_below_total(i as int, chunks.len() as int, bits);
}

/// Two indexes with the same slot and offset are the same.
proof fn lemma_same_slot(i: u16, j: u16, bits: int)
    requires
        1 <= bits,
        (i as int) / bits == (j as int) / bits,
        (i as int) % bits == (j as int) % bits,
    ensures
        i == j,
{
    lemma_slot(i as int, bits);
    lemma_slot(j as int, bits);
}

impl<C: IndexChunk<Index = u8>, const N: usize> IndexView for ArrayChunk<C, N> {
    type Index = u16;

    open spec fn wf(&self) -> bool {
        Self::shape_ok() && forall|k: int| 0 <= k < N ==> (#[trigger] self.0@[k]).wf()
    }

    open spec fn contents(&self) -> Set<u16> {
        array_contents(self.0@, Self::slot_bits())
    }

    open spec fn count(&self) -> nat {
        total_count(self.0@)
    }

    fn is_empty(&self) -> (r: bool) {
        self.len() == 0
    }

    fn len(&self) -> (r: usize) {
        let mut sum: usize = 0;
        let mut k: usize = 0;
        proof {
            assert(N * C::BITS >= N) by (nonlinear_arith)
                requires
                    C::BITS >= 1,
            ;
        }
        while k < N
            invariant
                self.wf(),
                k <= N <= 0x1_0000,
                sum == total_count(self.0@.subrange(0, k as int)),
                sum <= 256 * k,
            decreases N - k,
        {
            let c = self.0[k];
            let n = c.len();
            proof {
                c.lemma_count();
                lemma_u8_set(c.contents());
                lemma_total_step(self.0@, k as int);
            }
            sum = sum + n;
            k = k + 1;
        }
        proof {
            assert(self.0@.subrange(0, N as int) =~= self.0@);
        }
        sum
    }

    fn contains(&self, index: u16) -> (r: bool) {
        let bits = Self::slot_bits_exec();
        let outer = index / bits;
        proof {
            lemma_below_total(index as int, N as int, bits as int);
            lemma_slot(index as int, bits as int);
        }
        if (outer as usize) < N {
            let inner = (index % bits) as u8;
            self.0[outer as usize].contains(inner)
        } else {
            false
        }
    }
}


impl<C: IndexChunk<Index = u8>, const N: usize> IndexCollection for ArrayChunk<C, N> {
    open spec fn spec_span() -> (Bound<u16>, Bound<u16>) {
        if N * C::BITS == 0 {
            (Bound::Included(0), Bound::Excluded(0))
        } else {
            (Bound::Included(0), Bound::Included((N * C::BITS - 1) as u16))
        }
    }

    open spec fn constructible() -> bool {
        Self::shape_ok()
    }

    fn span() -> (r: (Bound<u16>, Bound<u16>)) {
        proof {
            assert(N * C::BITS >= N) by (nonlinear_arith)
                requires
                    C::BITS >= 1,
            ;
        }
        let total = (N as u32) * C::BITS;
        if total == 0 {
            (Bound::Included(0), Bound::Excluded(0))
        } else {
            (Bound::Included(0), Bound::Included((total - 1) as u16))
        }
    }

    fn new() -> (r: Self) {
        ArrayChunk::new()
    }

    fn with_span(range: (Bound<u16>, Bound<u16>)) -> (r: Self) {
        ArrayChunk::new()
    }
}

impl<C: IndexChunk<Index = u8>, const N: usize> IndexStore for ArrayChunk<C, N> {
    type InsertionError = C::InsertionError;

    open spec fn admits(index: u16) -> bool {
        (index as int) < N * C::BITS
    }

    open spec fn infallible() -> bool {
        C::infallible()
    }

    proof fn lemma_count(&self) {
        self.lemma_shape();
    }

    fn clear(&mut self) {
        let mut k: usize = 0;
        while k < N
            invariant
                k <= N,
                Self::shape_ok(),
                forall|m: int| 0 <= m < N ==> (#[trigger] self.0@[m]).wf(),
                forall|m: int| 0 <= m < k ==> (#[trigger] self.0@[m]).contents()
                    == Set::<u8>::empty() && self.0@[m].count() == 0,
            decreases N - k,
        {
            let mut c = self.0[k];
            c.clear();
            self.0[k] = c;
            k = k + 1;
        }
        proof {
            Self::lemma_all_empty(self.0@);
            assert forall|i: u16| !#[trigger] self.contents().contains(i) by {
                lemma_below_total(i as int, N as int, Self::slot_bits());
                lemma_slot(i as int, Self::slot_bits());
            }
            assert(self.contents() =~= Set::<u16>::empty());
        }
    }

    fn insert(&mut self, index: u16) -> (r: Result<bool, C::InsertionError>) {
        let bits = Self::slot_bits_exec();
        let outer = (index / bits) as usize;
        let inner = (index % bits) as u8;
        proof {
            lemma_below_total(index as int, N as int, bits as int);
            lemma_slot(index as int, bits as int);
            self.0@[outer as int].lemma_domain();
        }
        let mut c = self.0[outer];
        let r = c.insert(inner);
        let ghost before = self.0@;
        self.0[outer] = c;
        proof {
            assert(self.0@ == before.update(outer as int, c));
            assert forall|i: u16| #[trigger] self.contents().contains(i) == match r {
                Ok(_) => old(self).contents().insert(index).contains(i),
                Err(_) => old(self).contents().contains(i),
            } by {
                lemma_slot_update(before, outer as int, c, bits as int, i);
                lemma_slot(i as int, bits as int);
                if (i as int) / (bits as int) == outer as int && ((i as int) % (bits as int)) as u8 == inner {
                    lemma_same_slot(i, index, bits as int);
                }
            }
            match r {
                Ok(_) => {
                    assert(self.contents() =~= old(self).contents().insert(index));
                },
                Err(_) => {
                    assert(self.contents() =~= old(self).contents());
                },
            }
        }
        r
    }

    fn remove(&mut self, index: u16) -> (r: bool) {
        let bits = Self::slot_bits_exec();
        let outer = (index / bits) as usize;
        let inner = (index % bits) as u8;
        proof {
            lemma_below_total(index as int, N as int, bits as int);
            lemma_slot(index as int, bits as int);
        }
        if outer >= N {
            proof {
                assert(self.contents().remove(index) =~= self.contents());
            }
            return false;
        }
        let mut c = self.0[outer];
        let r = c.remove(inner);
        let ghost before = self.0@;
        self.0[outer] = c;
        proof {
            assert(self.0@ == before.update(outer as int, c));
            assert forall|i: u16| #[trigger] self.contents().contains(i) == old(self).contents().remove(
                index,
            ).contains(i) by {
                lemma_slot_update(before, outer as int, c, bits as int, i);
                lemma_slot(i as int, bits as int);
                if (i as int) / (bits as int) == outer as int && ((i as int) % (bits as int)) as u8 == inner {
                    lemma_same_slot(i, index, bits as int);
                }
            }
            assert(self.contents() =~= old(self).contents().remove(index));
        }
        r
    }
}

/// Order of two indexes within one slot follows their offsets.
proof fn lemma_same_slot_order(x: u16, y: u16, bits: int)
    requires
        1 <= bits,
        (x as int) / bits == (y as int) / bits,
    ensures
        ((x as int) < (y as int)) == ((x as int) % bits < (y as int) % bits),
{
    lemma_slot(x as int, bits);
    lemma_slot(y as int, bits);
}

impl<C: IndexChunk<Index = u8>, const N: usize> ArrayChunk<C, N> {
    /// The indexes held in slots `k` and above.
    pub open spec fn from_slot(&self, k: int) -> Set<u16> {
        self.contents().filter(|y: u16| k <= (y as int) / Self::slot_bits())
    }

    /// The indexes held in slots below `k`.
    pub open spec fn before_slot(&self, k: int) -> Set<u16> {
        self.contents().filter(|y: u16| (y as int) / Self::slot_bits() < k)
    }

    /// The least index held in slots `k..N`, if any.
    fn first_from(&self, k: usize) -> (r: Option<u16>)
        requires
            self.wf(),
            k <= N,
        ensures
            least(self.from_slot(k as int), r),
    {
        let bits = Self::slot_bits_exec();
        let mut m: usize = k;
        while m < N
            invariant
                self.wf(),
                bits as int == Self::slot_bits(),
                k <= m <= N,
                forall|y: u16|
                    #[trigger] self.contents().contains(y) && k as int <= (y as int) / Self::slot_bits() ==> m
                        as int <= (y as int) / Self::slot_bits(),
            decreases N - m,
        {
            let found = self.0[m].first();
            if let Some(j) = found {
                proof {
                    self.0@[m as int].lemma_domain();
                    assert(chunk_domain::<u8>(C::BITS).contains(j));
                    lemma_fused(m as int, j as int, bits as int);
                    assert((m as int) * (bits as int) + (bits as int) <= (N as int) * (bits as int))
                        by (nonlinear_arith)
                        requires
                            m < N,
                    ;
                }
                let x = (m as u16) * bits + (j as u16);
                proof {
                    assert forall|y: u16| #[trigger]
                        self.from_slot(k as int).contains(y)
                            implies (x as int) <= (y as int) by {
                        lemma_slot(y as int, bits as int);
                        if (y as int) / (bits as int) == m as int {
                            lemma_same_slot_order(x, y, bits as int);
                            assert(self.0@[m as int].contents().contains(((y as int) % (bits as int)) as u8));
                        } else {
                            lemma_slot_order(x as int, y as int, bits as int);
                        }
                    }
                }
                return Some(x);
            }
            proof {
                assert forall|y: u16|
                    #[trigger] self.contents().contains(y) && k as int <= (y as int) / Self::slot_bits() implies m
                        + 1 <= (y as int) / Self::slot_bits() by {
                    if (y as int) / Self::slot_bits() == m as int {
                        assert(self.0@[m as int].contents().contains(((y as int) % Self::slot_bits()) as u8));
                    }
                }
            }
            m = m + 1;
        }
        proof {
            assert forall|y: u16| !#[trigger] self.from_slot(k as int).contains(y) by {
                lemma_below_total(y as int, N as int, Self::slot_bits());
            }
        }
        None
    }

    /// The greatest index held in slots `0..k`, if any.
    fn last_before(&self, k: usize) -> (r: Option<u16>)
        requires
            self.wf(),
            k <= N,
        ensures
            greatest(self.before_slot(k as int), r),
    {
        let bits = Self::slot_bits_exec();
        let mut m: usize = k;
        while m > 0
            invariant
                self.wf(),
                bits as int == Self::slot_bits(),
                m <= k <= N,
                forall|y: u16|
                    #[trigger] self.contents().contains(y) && (y as int) / Self::slot_bits() < k as int ==> (
                    y as int) / Self::slot_bits() < m as int,
            decreases m,
        {
            let s = m - 1;
            let found = self.0[s].last();
            if let Some(j) = found {
                proof {
                    self.0@[s as int].lemma_domain();
                    assert(chunk_domain::<u8>(C::BITS).contains(j));
                    lemma_fused(s as int, j as int, bits as int);
                    assert((s as int) * (bits as int) + (bits as int) <= (N as int) * (bits as int))
                        by (nonlinear_arith)
                        requires
                            s < N,
                    ;
                }
                let x = (s as u16) * bits + (j as u16);
                proof {
                    assert forall|y: u16| #[trigger]
                        self.before_slot(k as int).contains(y)
                            implies (y as int) <= (x as int) by {
                        lemma_slot(y as int, bits as int);
                        if (y as int) / (bits as int) == s as int {
                            lemma_same_slot_order(y, x, bits as int);
                            assert(self.0@[s as int].contents().contains(((y as int) % (bits as int)) as u8));
                        } else {
                            lemma_slot_order(y as int, x as int, bits as int);
                        }
                    }
                }
                return Some(x);
            }
            proof {
                assert forall|y: u16|
                    #[trigger] self.contents().contains(y) && (y as int) / Self::slot_bits() < k as int implies (
                    y as int) / Self::slot_bits() < s as int by {
                    if (y as int) / Self::slot_bits() == s as int {
                        assert(self.0@[s as int].contents().contains(((y as int) % Self::slot_bits()) as u8));
                    }
                }
            }
            m = s;
        }
        None
    }
}

impl<C: IndexChunk<Index = u8>, const N: usize> IndexVault for ArrayChunk<C, N> {}

impl<C: IndexChunk<Index = u8>, const N: usize> IndexForward for ArrayChunk<C, N> {
    fn first(&self) -> (r: Option<u16>) {
        let r = self.first_from(0);
        proof {
            assert(self.from_slot(0) =~= self.contents())
                by {
                assert forall|y: u16| #[trigger] self.contents().contains(y) implies 0 <= (y as int)
                    / Self::slot_bits() by {
                    lemma_slot(y as int, Self::slot_bits());
                }
            }
        }
        r
    }

    fn next_after(&self, current: u16) -> (r: Option<u16>) {
        let bits = Self::slot_bits_exec();
        let outer = (current / bits) as usize;
        let inner = (current % bits) as u8;
        proof {
            lemma_slot(current as int, bits as int);
            lemma_below_total(current as int, N as int, bits as int);
        }
        if outer >= N {
            proof {
                assert forall|y: u16| !#[trigger] above(self.contents(), current).contains(y) by {
                    lemma_below_total(y as int, N as int, bits as int);
                }
            }
            return None;
        }
        let found = self.0[outer].next_after(inner);
        if let Some(j) = found {
            proof {
                self.0@[outer as int].lemma_domain();
                assert(chunk_domain::<u8>(C::BITS).contains(j));
                lemma_fused(outer as int, j as int, bits as int);
                assert((outer as int) * (bits as int) + (bits as int) <= (N as int) * (bits as int))
                    by (nonlinear_arith)
                    requires
                        outer < N,
                ;
            }
            let x = (outer as u16) * bits + (j as u16);
            proof {
                lemma_same_slot_order(current, x, bits as int);
                assert forall|y: u16| #[trigger] above(self.contents(), current).contains(y) implies (x as int)
                    <= (y as int) by {
                    lemma_slot(y as int, bits as int);
                    if (y as int) / (bits as int) == outer as int {
                        lemma_same_slot_order(current, y, bits as int);
                        lemma_same_slot_order(x, y, bits as int);
                        assert(above(self.0@[outer as int].contents(), inner).contains(
                            ((y as int) % (bits as int)) as u8,
                        ));
                    } else if (y as int) / (bits as int) < outer as int {
                        lemma_slot_order(y as int, current as int, bits as int);
                    } else {
                        lemma_slot_order(x as int, y as int, bits as int);
                    }
                }
            }
            return Some(x);
        }
        let r = self.first_from(outer + 1);
        proof {
            assert forall|y: u16| #[trigger] above(self.contents(), current).contains(y) == self.from_slot(outer + 1).contains(y) by {
                lemma_slot(y as int, bits as int);
                if (y as int) / (bits as int) == outer as int {
                    lemma_same_slot_order(current, y, bits as int);
                    if self.contents().contains(y) && (current as int) < (y as int) {
                        assert(above(self.0@[outer as int].contents(), inner).contains(
                            ((y as int) % (bits as int)) as u8,
                        ));
                    }
                } else if (y as int) / (bits as int) < outer as int {
                    lemma_slot_order(y as int, current as int, bits as int);
                } else {
                    lemma_slot_order(current as int, y as int, bits as int);
                }
            }
            assert(above(self.contents(), current) =~= self.from_slot(outer + 1));
        }
        r
    }
}

impl<C: IndexChunk<Index = u8>, const N: usize> IndexBackward for ArrayChunk<C, N> {
    fn last(&self) -> (r: Option<u16>) {
        let r = self.last_before(N);
        proof {
            assert(self.before_slot(N as int) =~= self.contents())
                by {
                assert forall|y: u16| #[trigger] self.contents().contains(y) implies (y as int) / Self::slot_bits()
                    < N as int by {
                    lemma_below_total(y as int, N as int, Self::slot_bits());
                }
            }
        }
        r
    }

    fn next_before(&self, current: u16) -> (r: Option<u16>) {
        let bits = Self::slot_bits_exec();
        let outer = (current / bits) as usize;
        let inner = (current % bits) as u8;
        proof {
            lemma_slot(current as int, bits as int);
            lemma_below_total(current as int, N as int, bits as int);
        }
        if outer >= N {
            let r = self.last_before(N);
            proof {
                assert forall|y: u16| #[trigger] below(self.contents(), current).contains(y) == self.before_slot(N as int).contains(y) by {
                    lemma_below_total(y as int, N as int, bits as int);
                }
                assert(below(self.contents(), current) =~= self.before_slot(N as int));
            }
            return r;
        }
        let found = self.0[outer].next_before(inner);
        if let Some(j) = found {
            proof {
                self.0@[outer as int].lemma_domain();
                assert(chunk_domain::<u8>(C::BITS).contains(j));
                lemma_fused(outer as int, j as int, bits as int);
                assert((outer as int) * (bits as int) + (bits as int) <= (N as int) * (bits as int))
                    by (nonlinear_arith)
                    requires
                        outer < N,
                ;
            }
            let x = (outer as u16) * bits + (j as u16);
            proof {
                lemma_same_slot_order(x, current, bits as int);
                assert forall|y: u16| #[trigger] below(self.contents(), current).contains(y) implies (y as int)
                    <= (x as int) by {
                    lemma_slot(y as int, bits as int);
                    if (y as int) / (bits as int) == outer as int {
                        lemma_same_slot_order(y, current, bits as int);
                        lemma_same_slot_order(y, x, bits as int);
                        assert(below(self.0@[outer as int].contents(), inner).contains(
                            ((y as int) % (bits as int)) as u8,
                        ));
                    } else if (y as int) / (bits as int) > outer as int {
                        lemma_slot_order(current as int, y as int, bits as int);
                    } else {
                        lemma_slot_order(y as int, x as int, bits as int);
                    }
                }
            }
            return Some(x);
        }
        let r = self.last_before(outer);
        proof {
            assert forall|y: u16| #[trigger] below(self.contents(), current).contains(y) == self.before_slot(outer as int).contains(y) by {
                lemma_slot(y as int, bits as int);
                if (y as int) / (bits as int) == outer as int {
                    lemma_same_slot_order(y, current, bits as int);
                    if self.contents().contains(y) && (y as int) < (current as int) {
                        assert(below(self.0@[outer as int].contents(), inner).contains(
                            ((y as int) % (bits as int)) as u8,
                        ));
                    }
                } else if (y as int) / (bits as int) > outer as int {
                    lemma_slot_order(current as int, y as int, bits as int);
                } else {
                    lemma_slot_order(y as int, current as int, bits as int);
                }
            }
            assert(below(self.contents(), current) =~= self.before_slot(outer as int));
        }
        r
    }
}

impl<C: IndexChunk<Index = u8>, const N: usize> IndexOrdered for ArrayChunk<C, N> {}



impl<C: IndexChunk<Index = u8>, const N: usize> ArrayChunk<C, N> {
    /// Replaces each slot of `self` by `fun` of it and the matching slot of `other`.
    fn apply<F: Fn(C, C) -> C>(&mut self, other: Self, fun: F)
        requires
            forall|k: int| 0 <= k < N ==> fun.requires((old(self).0@[k], other.0@[k])),
        ensures
            forall|k: int| 0 <= k < N ==> fun.ensures((old(self).0@[k], other.0@[k]), #[trigger] final(self).0@[k]),
    {
        let mut k: usize = 0;
        while k < N
            invariant
                k <= N,
                forall|m: int| k <= m < N ==> #[trigger] self.0@[m] == old(self).0@[m],
                forall|m: int| 0 <= m < N ==> fun.requires((old(self).0@[m], other.0@[m])),
                forall|m: int| 0 <= m < k ==> fun.ensures((old(self).0@[m], other.0@[m]), #[trigger] self.0@[m]),
            decreases N - k,
        {
            let c = fun(self.0[k], other.0[k]);
            self.0[k] = c;
            k = k + 1;
        }
    }

    /// Applies `fun` to each slot.
    fn map<F: Fn(C) -> C>(self, fun: F) -> (r: Self)
        requires
            forall|k: int| 0 <= k < N ==> fun.requires((self.0@[k],)),
        ensures
            forall|k: int| 0 <= k < N ==> fun.ensures((self.0@[k],), #[trigger] r.0@[k]),
    {
        let mut out = self;
        let mut k: usize = 0;
        while k < N
            invariant
                k <= N,
                forall|m: int| 0 <= m < N ==> fun.requires((self.0@[m],)),
                forall|m: int| 0 <= m < k ==> fun.ensures((self.0@[m],), #[trigger] out.0@[m]),
            decreases N - k,
        {
            out.0[k] = fun(self.0[k]);
            k = k + 1;
        }
        out
    }

    /// Applies `fun` to each pair of slots of `self` and `other`.
    fn map_with<F: Fn(C, C) -> C>(self, other: Self, fun: F) -> (r: Self)
        requires
            forall|k: int| 0 <= k < N ==> fun.requires((self.0@[k], other.0@[k])),
        ensures
            forall|k: int| 0 <= k < N ==> fun.ensures((self.0@[k], other.0@[k]), #[trigger] r.0@[k]),
    {
        let mut out = self;
        let mut k: usize = 0;
        while k < N
            invariant
                k <= N,
                forall|m: int| 0 <= m < N ==> fun.requires((self.0@[m], other.0@[m])),
                forall|m: int| 0 <= m < k ==> fun.ensures((self.0@[m], other.0@[m]), #[trigger] out.0@[m]),
            decreases N - k,
        {
            out.0[k] = fun(self.0[k], other.0[k]);
            k = k + 1;
        }
        out
    }
}

impl<C: IndexChunk<Index = u8>, const N: usize> IndexChunk for ArrayChunk<C, N> {
    const BITS: u32 = C::BITS * (N as u32);

    proof fn lemma_domain_len() {
        Self::lemma_bits();
        let dom = Set::new(|i: u16| (i as int) < N * C::BITS);
        Self::lemma_domain_len(dom);
        assert(chunk_domain::<u16>(Self::BITS) =~= dom);
    }

    open spec fn inverse_of(self, other: Self) -> bool {
        forall|k: int| 0 <= k < N ==> (#[trigger] self.0@[k]).inverse_of(other.0@[k])
    }

    proof fn lemma_inverse_symmetric(a: Self, b: Self) {
        assert forall|k: int| 0 <= k < N implies (#[trigger] a.0@[k]).inverse_of(b.0@[k]) == b.0@[k].inverse_of(
            a.0@[k],
        ) by {
            C::lemma_inverse_symmetric(a.0@[k], b.0@[k]);
        }
    }

    proof fn lemma_inverse_unique(a: Self, b: Self, c: Self) {
        assert forall|k: int| 0 <= k < N implies b.0[k] == c.0[k] by {
            assert(b.0@[k].inverse_of(a.0@[k]));
            assert(c.0@[k].inverse_of(a.0@[k]));
            C::lemma_inverse_unique(a.0@[k], b.0@[k], c.0@[k]);
        }
        assert(b.0 =~= c.0);
    }

    proof fn lemma_domain(&self) {
        Self::lemma_bits();
        assert forall|i: u16| #[trigger] self.contents().contains(i) implies (i as int) < Self::BITS as int by {
            lemma_below_total(i as int, N as int, Self::slot_bits());
        }
    }

    fn bitand(self, other: Self) -> (r: Self) {
        let op = |a: C, b: C| -> (c: C)
            requires
                a.wf(),
                b.wf(),
            ensures
                c.wf(),
                c.contents() == a.contents().intersect(b.contents()),
        {
            a.bitand(b)
        };
        let out = self.map_with(other, op);
        proof {
            assert forall|i: u16| #[trigger] out.contents().contains(i) == (self.contents().intersect(other.contents())).contains(i) by {
                lemma_slot(i as int, Self::slot_bits());
                lemma_below_total(i as int, N as int, Self::slot_bits());
            }
            assert(out.contents() =~= self.contents().intersect(other.contents()));
        }
        out
    }

    fn bitor(self, other: Self) -> (r: Self) {
        let op = |a: C, b: C| -> (c: C)
            requires
                a.wf(),
                b.wf(),
            ensures
                c.wf(),
                c.contents() == a.contents().union(b.contents()),
        {
            a.bitor(b)
        };
        let out = self.map_with(other, op);
        proof {
            assert forall|i: u16| #[trigger] out.contents().contains(i) == (self.contents().union(other.contents())).contains(i) by {
                lemma_slot(i as int, Self::slot_bits());
                lemma_below_total(i as int, N as int, Self::slot_bits());
            }
            assert(out.contents() =~= self.contents().union(other.contents()));
        }
        out
    }

    fn bitxor(self, other: Self) -> (r: Self) {
        let op = |a: C, b: C| -> (c: C)
            requires
                a.wf(),
                b.wf(),
            ensures
                c.wf(),
                c.contents() == symmetric(a.contents(), b.contents()),
        {
            a.bitxor(b)
        };
        let out = self.map_with(other, op);
        proof {
            assert forall|i: u16| #[trigger] out.contents().contains(i) == (symmetric(self.contents(), other.contents())).contains(i) by {
                lemma_slot(i as int, Self::slot_bits());
                lemma_below_total(i as int, N as int, Self::slot_bits());
            }
            assert(out.contents() =~= symmetric(self.contents(), other.contents()));
        }
        out
    }

    fn sub(self, other: Self) -> (r: Self) {
        let op = |a: C, b: C| -> (c: C)
            requires
                a.wf(),
                b.wf(),
            ensures
                c.wf(),
                c.contents() == a.contents().difference(b.contents()),
        {
            a.sub(b)
        };
        let out = self.map_with(other, op);
        proof {
            assert forall|i: u16| #[trigger] out.contents().contains(i) == (self.contents().difference(other.contents())).contains(i) by {
                lemma_slot(i as int, Self::slot_bits());
                lemma_below_total(i as int, N as int, Self::slot_bits());
            }
            assert(out.contents() =~= self.contents().difference(other.contents()));
        }
        out
    }

    fn bitand_assign(&mut self, other: Self) {
        let op = |a: C, b: C| -> (c: C)
            requires
                a.wf(),
                b.wf(),
            ensures
                c.wf(),
                c.contents() == a.contents().intersect(b.contents()),
        {
            a.bitand(b)
        };
        self.apply(other, op);
        proof {
            assert forall|i: u16| #[trigger] self.contents().contains(i) == (old(self).contents().intersect(other.contents())).contains(i) by {
                lemma_slot(i as int, Self::slot_bits());
                lemma_below_total(i as int, N as int, Self::slot_bits());
            }
            assert(self.contents() =~= old(self).contents().intersect(other.contents()));
        }
    }

    fn bitor_assign(&mut self, other: Self) {
        let op = |a: C, b: C| -> (c: C)
            requires
                a.wf(),
                b.wf(),
            ensures
                c.wf(),
                c.contents() == a.contents().union(b.contents()),
        {
            a.bitor(b)
        };
        self.apply(other, op);
        proof {
            assert forall|i: u16| #[trigger] self.contents().contains(i) == (old(self).contents().union(other.contents())).contains(i) by {
                lemma_slot(i as int, Self::slot_bits());
                lemma_below_total(i as int, N as int, Self::slot_bits());
            }
            assert(self.contents() =~= old(self).contents().union(other.contents()));
        }
    }

    fn bitxor_assign(&mut self, other: Self) {
        let op = |a: C, b: C| -> (c: C)
            requires
                a.wf(),
                b.wf(),
            ensures
                c.wf(),
                c.contents() == symmetric(a.contents(), b.contents()),
        {
            a.bitxor(b)
        };
        self.apply(other, op);
        proof {
            assert forall|i: u16| #[trigger] self.contents().contains(i) == (symmetric(old(self).contents(), other.contents())).contains(i) by {
                lemma_slot(i as int, Self::slot_bits());
                lemma_below_total(i as int, N as int, Self::slot_bits());
            }
            assert(self.contents() =~= symmetric(old(self).contents(), other.contents()));
        }
    }

    fn sub_assign(&mut self, other: Self) {
        let op = |a: C, b: C| -> (c: C)
            requires
                a.wf(),
                b.wf(),
            ensures
                c.wf(),
                c.contents() == a.contents().difference(b.contents()),
        {
            a.sub(b)
        };
        self.apply(other, op);
        proof {
            assert forall|i: u16| #[trigger] self.contents().contains(i) == (old(self).contents().difference(other.contents())).contains(i) by {
                lemma_slot(i as int, Self::slot_bits());
                lemma_below_total(i as int, N as int, Self::slot_bits());
            }
            assert(self.contents() =~= old(self).contents().difference(other.contents()));
        }
    }

    fn not(self) -> (r: Self) {
        let op = |a: C| -> (c: C)
            requires
                a.wf(),
            ensures
                c.wf(),
                c.contents() == chunk_domain::<u8>(C::BITS).difference(a.contents()),
                c.inverse_of(a),
        {
            a.not()
        };
        let out = self.map(op);
        proof {
            Self::lemma_bits();
            assert forall|i: u16| #[trigger] out.contents().contains(i) == chunk_domain::<u16>(
                Self::BITS,
            ).difference(self.contents()).contains(i) by {
                lemma_slot(i as int, Self::slot_bits());
                lemma_below_total(i as int, N as int, Self::slot_bits());
            }
            assert(out.contents() =~= chunk_domain::<u16>(Self::BITS).difference(self.contents()));
        }
        out
    }
}


impl<C: IndexChunk<Index = u8>, const N: usize> IndexViewChunked for ArrayChunk<C, N> {
    type ChunkIndex = u16;
    type Chunk = C;

    open spec fn splittable(index: u16) -> bool {
        Self::shape_ok()
    }

    open spec fn fusable(outer: u16, inner: u8) -> bool {
        Self::shape_ok() && (inner as int) < C::BITS && outer * C::BITS + inner < 0x1_0000
    }

    open spec fn spec_fuse(outer: u16, inner: u8) -> u16 {
        (outer * C::BITS + inner) as u16
    }

    open spec fn spec_split(index: u16) -> (u16, u8) {
        ((index as int / C::BITS as int) as u16, (index as int % C::BITS as int) as u8)
    }

    open spec fn chunk_at(&self, outer: u16) -> Option<Set<u8>> {
        if (outer as int) < N {
            Some(self.0@[outer as int].contents())
        } else {
            None
        }
    }

    open spec fn beyond(&self) -> bool {
        false
    }

    fn fuse(outer: u16, inner: u8) -> (r: u16) {
        let bits = Self::slot_bits_exec();
        outer * bits + (inner as u16)
    }

    fn split(index: u16) -> (r: (u16, u8)) {
        let bits = Self::slot_bits_exec();
        proof {
            lemma_slot(index as int, bits as int);
        }
        (index / bits, (index % bits) as u8)
    }

    fn get_chunk(&self, index: u16) -> (r: Option<C>)
        ensures
            r == (if (index as int) < N {
                Some(self.0@[index as int])
            } else {
                None
            }),
    {
        if (index as usize) < N {
            Some(self.0[index as usize])
        } else {
            None
        }
    }

    proof fn lemma_split_fuse(index: u16) {
        lemma_slot(index as int, C::BITS as int);
    }

    proof fn lemma_two_levels(&self, index: u16) {
        lemma_slot(index as int, C::BITS as int);
        lemma_below_total(index as int, N as int, C::BITS as int);
    }
}

impl<C: IndexChunk<Index = u8>, const N: usize> IndexStoreChunked for ArrayChunk<C, N> {
    type SetError = ChunkOutOfRange;

    open spec fn settable(&self, index: u16, chunk: C) -> bool {
        (index as int) < N
    }

    proof fn lemma_nothing_beyond(&self) {
    }

    fn set_chunk(&mut self, index: u16, chunk: C) -> (r: Result<(), ChunkOutOfRange>)
        ensures
            r is Ok ==> final(self).0@ == old(self).0@.update(index as int, chunk),
            r is Err ==> *final(self) == *old(self),
    {
        if (index as usize) >= N {
            return Err(ChunkOutOfRange { index });
        }
        self.0[index as usize] = chunk;
        Ok(())
    }
}

impl<C: IndexChunk<Index = u8>, const N: usize> IndexForwardChunked for ArrayChunk<C, N> {
    fn first_chunk(&self) -> (r: Option<u16>) {
        proof {
            assert(N <= 0x1_0000) by (nonlinear_arith)
                requires
                    N * C::BITS <= 0x1_0000,
                    1 <= C::BITS,
            ;
        }
        if N > 0 {
            Some(0)
        } else {
            None
        }
    }

    fn next_chunk_after(&self, current: u16) -> (r: Option<u16>) {
        proof {
            assert(N <= 0x1_0000) by (nonlinear_arith)
                requires
                    N * C::BITS <= 0x1_0000,
                    1 <= C::BITS,
            ;
        }
        if (current as usize) + 1 < N {
            Some(current + 1)
        } else {
            None
        }
    }
}

impl<C: IndexChunk<Index = u8>, const N: usize> IndexBackwardChunked for ArrayChunk<C, N> {
    fn last_chunk(&self) -> (r: Option<u16>) {
        proof {
            assert(N <= 0x1_0000) by (nonlinear_arith)
                requires
                    N * C::BITS <= 0x1_0000,
                    1 <= C::BITS,
            ;
        }
        if N > 0 {
            Some((N - 1) as u16)
        } else {
            None
        }
    }

    fn next_chunk_before(&self, current: u16) -> (r: Option<u16>) {
        if current > 0 {
            let previous = current - 1;
            if (previous as usize) < N {
                return Some(previous);
            }
            proof {
                assert(N <= 0x1_0000) by (nonlinear_arith)
                    requires
                        N * C::BITS <= 0x1_0000,
                        1 <= C::BITS,
                ;
            }
            if N > 0 {
                return Some((N - 1) as u16);
            }
        }
        None
    }
}

impl<C: IndexChunk<Index = u8>, const N: usize> IndexOrderedChunked for ArrayChunk<C, N> {}

/// The negated array ranges over every `u16` index, as its membership does.
impl<C: IndexChunk<Index = u8>, const N: usize> IndexViewNot for ArrayChunk<C, N> {
    open spec fn capacity(&self) -> nat {
        0x1_0000
    }

    proof fn lemma_capacity(&self) {
        self.lemma_shape();
        assert forall|i: u16| #[trigger] self.contents().contains(i) implies (i as int) < N * C::BITS by {
            lemma_below_total(i as int, N as int, C::BITS as int);
        }
        let dom = Set::new(|i: u16| (i as int) < N * C::BITS);
        assert(self.contents().subset_of(dom));
        Self::lemma_domain_len(dom);
        vstd::set_lib::lemma_len_subset(self.contents(), dom);
    }

    fn len_not(&self) -> (r: usize) {
        proof {
            self.lemma_shape();
            assert(self.contents().subset_of(Set::<u16>::range(0, 0xffff).insert(0xffff)));
            assert forall|i: u16| #[trigger] self.contents().contains(i) implies (i as int) < N * C::BITS by {
                lemma_below_total(i as int, N as int, C::BITS as int);
            }
            let dom = Set::new(|i: u16| (i as int) < N * C::BITS);
            assert(self.contents().subset_of(dom));
            <u16 as vstd::set_lib::FiniteFull>::full_properties();
            vstd::set_lib::lemma_set_subset_finite(Set::<u16>::full(), dom);
            vstd::set_lib::lemma_len_subset(self.contents(), dom);
            Self::lemma_domain_len(dom);
            assert(N <= 0x1_0000) by (nonlinear_arith)
                requires
                    N * C::BITS <= 0x1_0000,
                    1 <= C::BITS,
            ;
            assert((C::BITS as int) * (N as int) == (N as int) * (C::BITS as int)) by (nonlinear_arith);
        }
        let used = self.len();
        0x1_0000usize - used
    }
}

impl<C: IndexChunk<Index = u8>, const N: usize> ArrayChunk<C, N> {
    proof fn lemma_domain_len(dom: Set<u16>)
        requires
            Self::shape_ok(),
            dom == Set::new(|i: u16| (i as int) < N * C::BITS),
        ensures
            dom.finite(),
            dom.len() == N * C::BITS,
    {
        let total = N * C::BITS;
        if total == 0 {
            assert(dom =~= Set::<u16>::empty());
        } else if total == 0x1_0000 {
            <u16 as vstd::set_lib::FiniteRange>::range_properties(0, 0xffff);
            assert(dom =~= Set::<u16>::range(0, 0xffff).insert(0xffff));
        } else {
            <u16 as vstd::set_lib::FiniteRange>::range_properties(0, total as u16);
            assert(dom =~= Set::<u16>::range(0, total as u16));
        }
    }
}

} // verus!
