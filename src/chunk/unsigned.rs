//! A chunk held in one unsigned machine word: bit `i` set means index `i` is present.
use vstd::prelude::*;

use crate::chunk::{chunk_domain, symmetric, IndexChunk};
use crate::index::{
    above, below, greatest, least, Bound, IndexBackward, IndexCollection, IndexForward, IndexOrdered,
    IndexStore, IndexVault, IndexView, Never,
};
use crate::not::{IndexBackwardNot, IndexForwardNot, IndexOrderedNot, IndexViewNot};

verus! {

/// A chunk of indexes held in the bits of one unsigned integer.
#[derive(Clone, Copy, Debug, Default, PartialEq, Eq, Hash)]
pub struct UnsignedChunk<I>(pub I);

/// The bits set in `x`, as indexes.
pub open spec fn bits_u8(x: u8) -> Set<u8> {
    Set::new(|i: u8| i < 8 && (x >> (i as u8)) & 1u8 == 1u8)
}

proof fn lemma_bits_u8_finite(x: u8)
    ensures
        bits_u8(x).finite(),
        bits_u8(x).subset_of(chunk_domain::<u8>(8)),
{
    <u8 as vstd::set_lib::FiniteFull>::full_properties();
    assert(bits_u8(x).subset_of(Set::<u8>::full()));
    vstd::set_lib::lemma_set_subset_finite(Set::<u8>::full(), bits_u8(x));
}

spec fn bit_u8(x: u8, i: u8) -> bool {
    (x >> (i as u8)) & 1u8 == 1u8
}

spec fn bitwise_facts_u8(a: u8, b: u8, i: u8) -> bool {
    &&& bit_u8(a & b, i) == (bit_u8(a, i) && bit_u8(b, i))
    &&& bit_u8(a | b, i) == (bit_u8(a, i) || bit_u8(b, i))
    &&& bit_u8(a ^ b, i) == (bit_u8(a, i) != bit_u8(b, i))
    &&& bit_u8(a & !b, i) == (bit_u8(a, i) && !bit_u8(b, i))
    &&& bit_u8(!a, i) == !bit_u8(a, i)
    &&& !bit_u8(0, i)
}

proof fn lemma_bitwise_u8(a: u8, b: u8)
    ensures
        bits_u8(a & b) == bits_u8(a).intersect(bits_u8(b)),
        bits_u8(a | b) == bits_u8(a).union(bits_u8(b)),
        bits_u8(a ^ b) == symmetric(bits_u8(a), bits_u8(b)),
        bits_u8(a & !b) == bits_u8(a).difference(bits_u8(b)),
        bits_u8(!a) == chunk_domain::<u8>(8).difference(bits_u8(a)),
        bits_u8(0) == Set::<u8>::empty(),
{
    assert forall|i: u8| i < 8 implies #[trigger] bitwise_facts_u8(a, b, i) by {
        let s = i as u8;
        assert(s < 8 ==> {
            &&& ((a & b) >> s) & 1 == 1 <==> ((a >> s) & 1 == 1 && (b >> s) & 1 == 1)
            &&& ((a | b) >> s) & 1 == 1 <==> ((a >> s) & 1 == 1 || (b >> s) & 1 == 1)
            &&& ((a ^ b) >> s) & 1 == 1 <==> ((a >> s) & 1 == 1) != ((b >> s) & 1 == 1)
            &&& ((a & !b) >> s) & 1 == 1 <==> ((a >> s) & 1 == 1 && (b >> s) & 1 != 1)
            &&& ((!a) >> s) & 1 == 1 <==> (a >> s) & 1 != 1
            &&& (0u8 >> s) & 1 != 1
        }) by (bit_vector);
    }
    assert forall|i: u8| #[trigger] bits_u8(a & b).contains(i) == bits_u8(a).intersect(bits_u8(b)).contains(i) by {
        if i < 8 {
            assert(bitwise_facts_u8(a, b, i));
        }
    }
    assert(bits_u8(a & b) =~= bits_u8(a).intersect(bits_u8(b)));
    assert forall|i: u8| #[trigger] bits_u8(a | b).contains(i) == bits_u8(a).union(bits_u8(b)).contains(i) by {
        if i < 8 {
            assert(bitwise_facts_u8(a, b, i));
        }
    }
    assert(bits_u8(a | b) =~= bits_u8(a).union(bits_u8(b)));
    assert forall|i: u8| #[trigger] bits_u8(a ^ b).contains(i) == symmetric(bits_u8(a), bits_u8(b)).contains(i) by {
        if i < 8 {
            assert(bitwise_facts_u8(a, b, i));
        }
    }
    assert(bits_u8(a ^ b) =~= symmetric(bits_u8(a), bits_u8(b)));
    assert forall|i: u8| #[trigger] bits_u8(a & !b).contains(i) == bits_u8(a).difference(bits_u8(b)).contains(i) by {
        if i < 8 {
            assert(bitwise_facts_u8(a, b, i));
        }
    }
    assert(bits_u8(a & !b) =~= bits_u8(a).difference(bits_u8(b)));
    assert forall|i: u8| #[trigger] bits_u8(!a).contains(i) == chunk_domain::<u8>(8).difference(bits_u8(a)).contains(i) by {
        if i < 8 {
            assert(bitwise_facts_u8(a, b, i));
        }
    }
    assert(bits_u8(!a) =~= chunk_domain::<u8>(8).difference(bits_u8(a)));
    assert forall|i: u8| #[trigger] bits_u8(0).contains(i) == Set::<u8>::empty().contains(i) by {
        if i < 8 {
            assert(bitwise_facts_u8(a, b, i));
        }
    }
    assert(bits_u8(0) =~= Set::<u8>::empty());
}

spec fn single_facts_u8(x: u8, n: u8, i: u8) -> bool {
    let m = n as u8;
    &&& bit_u8(x | (1u8 << m), i) == (bit_u8(x, i) || i == n)
    &&& bit_u8(x & !(1u8 << m), i) == (bit_u8(x, i) && i != n)
    &&& bit_u8(x & !(((1u8 << m) - 1) as u8), i) == (bit_u8(x, i) && n <= i)
    &&& bit_u8(x & (((1u8 << m) - 1) as u8), i) == (bit_u8(x, i) && i < n)
}

proof fn lemma_single_u8(x: u8, n: u8)
    requires
        n < 8,
    ensures
        bits_u8(x | (1u8 << (n as u8))) == bits_u8(x).insert(n),
        bits_u8(x & !(1u8 << (n as u8))) == bits_u8(x).remove(n),
        (x & (1u8 << (n as u8)) != 0) == bits_u8(x).contains(n),
        bits_u8(x & !(((1u8 << (n as u8)) - 1) as u8)) == bits_u8(x).filter(|j: u8| n <= j),
        bits_u8(x & (((1u8 << (n as u8)) - 1) as u8)) == bits_u8(x).filter(|j: u8| j < n),
        (1u8 << (n as u8)) >= 1,
{
    let m = n as u8;
    assert(m < 8 ==> (x & (1u8 << m) != 0) == ((x >> m) & 1 == 1) && (1u8 << m) >= 1) by (bit_vector);
    assert forall|i: u8| i < 8 implies #[trigger] single_facts_u8(x, n, i) by {
        let s = i as u8;
        assert(s < 8 && m < 8 ==> {
            &&& ((x | (1u8 << m)) >> s) & 1 == 1 <==> ((x >> s) & 1 == 1 || s == m)
            &&& ((x & !(1u8 << m)) >> s) & 1 == 1 <==> ((x >> s) & 1 == 1 && s != m)
            &&& ((x & !(((1u8 << m) - 1) as u8)) >> s) & 1 == 1 <==> ((x >> s) & 1 == 1 && m <= s)
            &&& ((x & (((1u8 << m) - 1) as u8)) >> s) & 1 == 1 <==> ((x >> s) & 1 == 1 && s < m)
        }) by (bit_vector);
    }
    assert forall|i: u8| #[trigger] bits_u8(x | (1u8 << m)).contains(i) == bits_u8(x).insert(n).contains(i) by {
        if i < 8 {
            assert(single_facts_u8(x, n, i));
        }
    }
    assert(bits_u8(x | (1u8 << m)) =~= bits_u8(x).insert(n));
    assert forall|i: u8| #[trigger] bits_u8(x & !(1u8 << m)).contains(i) == bits_u8(x).remove(n).contains(i) by {
        if i < 8 {
            assert(single_facts_u8(x, n, i));
        }
    }
    assert(bits_u8(x & !(1u8 << m)) =~= bits_u8(x).remove(n));
    assert forall|i: u8| #[trigger] bits_u8(x & !(((1u8 << m) - 1) as u8)).contains(i) == bits_u8(x).filter(|j: u8| n <= j).contains(i) by {
        if i < 8 {
            assert(single_facts_u8(x, n, i));
        }
    }
    assert(bits_u8(x & !(((1u8 << m) - 1) as u8)) =~= bits_u8(x).filter(|j: u8| n <= j));
    assert forall|i: u8| #[trigger] bits_u8(x & (((1u8 << m) - 1) as u8)).contains(i) == bits_u8(x).filter(|j: u8| j < n).contains(i) by {
        if i < 8 {
            assert(single_facts_u8(x, n, i));
        }
    }
    assert(bits_u8(x & (((1u8 << m) - 1) as u8)) =~= bits_u8(x).filter(|j: u8| j < n));
}

/// The number of indexes in the chunk `x`: its one bits, counted one bit at a time.
fn count_ones_u8(x: u8) -> (r: u32)
    ensures
        r as nat == bits_u8(x).len(),
{
    let mut n: u32 = 0;
    let mut i: u8 = 0;
    proof {
        lemma_bits_u8_finite(x);
        assert(bits_u8(x).filter(|j: u8| j < 0u8) =~= Set::<u8>::empty());
    }
    while i < 8
        invariant
            i <= 8,
            n <= i,
            bits_u8(x).finite(),
            n as nat == bits_u8(x).filter(|j: u8| j < i).len(),
        decreases 8 - i,
    {
        let ghost before = bits_u8(x).filter(|j: u8| j < i);
        proof {
            vstd::set_lib::lemma_set_subset_finite(bits_u8(x), before);
        }
        if (x >> (i as u8)) & 1u8 == 1u8 {
            proof {
                assert(bits_u8(x).filter(|j: u8| j < (i + 1) as u8) =~= before.insert(i));
            }
            n = n + 1;
        } else {
            proof {
                assert(bits_u8(x).filter(|j: u8| j < (i + 1) as u8) =~= before);
            }
        }
        i = i + 1;
    }
    proof {
        assert(bits_u8(x).filter(|j: u8| j < 8) =~= bits_u8(x));
    }
    n
}

impl UnsignedChunk<u8> {
    /// Lowest set bit of `x`, if any.
    fn lowest_u8(x: u8) -> (r: Option<u8>)
        ensures
            least(bits_u8(x), r),
    {
        proof {
            vstd::std_specs::bits::axiom_u8_trailing_zeros(x);
        }
        let zeros = x.trailing_zeros();
        if zeros < 8 {
            proof {
                assert forall|j: u8| #[trigger] bits_u8(x).contains(j) implies zeros <= j by {
                    if j < zeros {
                        assert((x >> (j as u8)) & 1u8 == 0u8);
                    }
                }
            }
            Some(zeros as u8)
        } else {
            proof {
                lemma_bitwise_u8(x, x);
            }
            None
        }
    }

    /// Highest set bit of `x`, if any.
    fn highest_u8(x: u8) -> (r: Option<u8>)
        ensures
            greatest(bits_u8(x), r),
    {
        proof {
            vstd::std_specs::bits::axiom_u8_leading_zeros(x);
        }
        let zeros = x.leading_zeros();
        if zeros < 8 {
            let top = (7 - zeros) as u8;
            proof {
                assert((x >> (top as u8)) & 1u8 == 1u8) by {
                    let t = top as u8;
                    assert((x >> t) & 1u8 != 0u8 ==> (x >> t) & 1u8 == 1u8) by (bit_vector);
                }
                assert forall|j: u8| #[trigger] bits_u8(x).contains(j) implies j <= top by {
                    if j > top {
                        assert((x >> (j as u8)) & 1u8 == 0u8);
                    }
                }
            }
            Some(top)
        } else {
            proof {
                lemma_bitwise_u8(x, x);
            }
            None
        }
    }
}

impl IndexView for UnsignedChunk<u8> {
    type Index = u8;

    open spec fn wf(&self) -> bool {
        true
    }

    open spec fn contents(&self) -> Set<u8> {
        bits_u8(self.0)
    }

    open spec fn count(&self) -> nat {
        bits_u8(self.0).len()
    }

    fn is_empty(&self) -> (r: bool) {
        proof {
            lemma_bitwise_u8(self.0, self.0);
            lemma_bits_u8_finite(self.0);
            if self.0 != 0 {
                Self::lemma_nonzero_u8(self.0);
            }
        }
        self.0 == 0
    }

    fn len(&self) -> (r: usize) {
        proof {
            lemma_bits_u8_finite(self.0);
            vstd::set_lib::lemma_len_subset(bits_u8(self.0), Set::<u8>::range(0, 8));
            assert(bits_u8(self.0).subset_of(Set::<u8>::range(0, 8)));
        }
        count_ones_u8(self.0) as usize
    }

    fn contains(&self, index: u8) -> (r: bool) {
        if index >= 8 {
            return false;
        }
        proof {
            lemma_single_u8(self.0, index);
        }
        (self.0 & (1u8 << (index as u8))) != 0
    }
}

impl UnsignedChunk<u8> {
    proof fn lemma_nonzero_u8(x: u8)
        requires
            x != 0,
        ensures
            bits_u8(x).len() > 0,
    {
        vstd::std_specs::bits::axiom_u8_trailing_zeros(x);
        let t = x.trailing_zeros() as u8;
        lemma_bits_u8_finite(x);
        assert(bits_u8(x).contains(t));
    }
}

impl IndexCollection for UnsignedChunk<u8> {
    open spec fn spec_span() -> (Bound<u8>, Bound<u8>) {
        (Bound::Included(0), Bound::Excluded(8))
    }

    open spec fn constructible() -> bool {
        true
    }

    fn span() -> (r: (Bound<u8>, Bound<u8>)) {
        (Bound::Included(0), Bound::Excluded(8))
    }

    fn new() -> (r: Self) {
        proof {
            lemma_bitwise_u8(0, 0);
        }
        UnsignedChunk(0)
    }

    fn with_span(range: (Bound<u8>, Bound<u8>)) -> (r: Self) {
        Self::new()
    }
}

impl IndexStore for UnsignedChunk<u8> {
    type InsertionError = Never;

    open spec fn admits(index: u8) -> bool {
        index < 8
    }

    open spec fn infallible() -> bool {
        true
    }

    proof fn lemma_count(&self) {
        lemma_bits_u8_finite(self.0);
    }

    fn clear(&mut self) {
        proof {
            lemma_bitwise_u8(0, 0);
        }
        self.0 = 0;
    }

    fn insert(&mut self, index: u8) -> (r: Result<bool, Never>) {
        proof {
            lemma_single_u8(self.0, index);
        }
        let mask: u8 = 1u8 << (index as u8);
        let existed = (self.0 & mask) != 0;
        self.0 = self.0 | mask;
        Ok(!existed)
    }

    fn remove(&mut self, index: u8) -> (r: bool) {
        if index >= 8 {
            proof {
                lemma_bits_u8_finite(self.0);
                assert(self.contents().remove(index) =~= self.contents());
            }
            return false;
        }
        proof {
            lemma_single_u8(self.0, index);
        }
        let mask: u8 = 1u8 << (index as u8);
        let existed = (self.0 & mask) != 0;
        self.0 = self.0 & !mask;
        existed
    }
}

impl IndexVault for UnsignedChunk<u8> {}

impl IndexForward for UnsignedChunk<u8> {
    fn first(&self) -> (r: Option<u8>) {
        Self::lowest_u8(self.0)
    }

    fn next_after(&self, current: u8) -> (r: Option<u8>) {
        if current >= 7 {
            proof {
                lemma_bits_u8_finite(self.0);
                assert forall|j: u8| !#[trigger] above(self.contents(), current).contains(j) by {
                    assert(self.contents().contains(j) ==> j < 8);
                }
            }
            return None;
        }
        let next = current + 1;
        proof {
            lemma_single_u8(self.0, next);
            assert(bits_u8(self.0).filter(|j: u8| next <= j) =~= above(self.contents(), current));
        }
        let masked = self.0 & !((1u8 << (next as u8)) - 1);
        Self::lowest_u8(masked)
    }
}

impl IndexBackward for UnsignedChunk<u8> {
    fn last(&self) -> (r: Option<u8>) {
        Self::highest_u8(self.0)
    }

    fn next_before(&self, current: u8) -> (r: Option<u8>) {
        if current >= 8 {
            proof {
                lemma_bits_u8_finite(self.0);
                assert(below(self.contents(), current) =~= self.contents());
            }
            return Self::highest_u8(self.0);
        }
        proof {
            lemma_single_u8(self.0, current);
            assert(bits_u8(self.0).filter(|j: u8| j < current) =~= below(self.contents(), current));
        }
        let masked = self.0 & ((1u8 << (current as u8)) - 1);
        Self::highest_u8(masked)
    }
}

impl IndexOrdered for UnsignedChunk<u8> {}

impl IndexChunk for UnsignedChunk<u8> {
    const BITS: u32 = 8;

    proof fn lemma_domain(&self) {
        lemma_bits_u8_finite(self.0);
    }

    proof fn lemma_domain_len() {
        <u8 as vstd::set_lib::FiniteRange>::range_properties(0, 8);
        assert(chunk_domain::<u8>(8) =~= Set::<u8>::range(0, 8));
    }

    open spec fn inverse_of(self, other: Self) -> bool {
        self.0 == !other.0
    }

    proof fn lemma_inverse_symmetric(a: Self, b: Self) {
        let (x, y) = (a.0, b.0);
        assert((x == !y) == (y == !x)) by (bit_vector);
    }

    proof fn lemma_inverse_unique(a: Self, b: Self, c: Self) {
    }

    fn bitand(self, other: Self) -> (r: Self) {
        proof {
            lemma_bitwise_u8(self.0, other.0);
        }
        UnsignedChunk(self.0 & other.0)
    }

    fn bitor(self, other: Self) -> (r: Self) {
        proof {
            lemma_bitwise_u8(self.0, other.0);
        }
        UnsignedChunk(self.0 | other.0)
    }

    fn bitxor(self, other: Self) -> (r: Self) {
        proof {
            lemma_bitwise_u8(self.0, other.0);
        }
        UnsignedChunk(self.0 ^ other.0)
    }

    fn sub(self, other: Self) -> (r: Self) {
        proof {
            lemma_bitwise_u8(self.0, other.0);
        }
        UnsignedChunk(self.0 & !other.0)
    }

    fn bitand_assign(&mut self, other: Self) {
        proof {
            lemma_bitwise_u8(self.0, other.0);
        }
        self.0 = self.0 & other.0;
    }

    fn bitor_assign(&mut self, other: Self) {
        proof {
            lemma_bitwise_u8(self.0, other.0);
        }
        self.0 = self.0 | other.0;
    }

    fn bitxor_assign(&mut self, other: Self) {
        proof {
            lemma_bitwise_u8(self.0, other.0);
        }
        self.0 = self.0 ^ other.0;
    }

    fn sub_assign(&mut self, other: Self) {
        proof {
            lemma_bitwise_u8(self.0, other.0);
        }
        self.0 = self.0 & !other.0;
    }

    fn not(self) -> (r: Self) {
        proof {
            lemma_bitwise_u8(self.0, self.0);
        }
        UnsignedChunk(!self.0)
    }
}

/// The negated chunk ranges over every `u8` index, as its traversal does.
impl IndexViewNot for UnsignedChunk<u8> {
    open spec fn capacity(&self) -> nat {
        0x100
    }

    proof fn lemma_capacity(&self) {
        lemma_bits_u8_finite(self.0);
        assert(bits_u8(self.0).subset_of(Set::<u8>::range(0, 8)));
        vstd::set_lib::lemma_len_subset(bits_u8(self.0), Set::<u8>::range(0, 8));
        <u8 as vstd::set_lib::FiniteRange>::range_properties(0, 8);
    }

    fn len_not(&self) -> (r: usize) {
        proof {
            lemma_bits_u8_finite(self.0);
            assert(bits_u8(self.0).subset_of(Set::<u8>::range(0, 8)));
            vstd::set_lib::lemma_len_subset(bits_u8(self.0), Set::<u8>::range(0, 8));
            <u8 as vstd::set_lib::FiniteRange>::range_properties(0, 8);
        }
        let n = count_ones_u8(self.0);
        (0x100 - n) as usize
    }
}

impl IndexForwardNot for UnsignedChunk<u8> {
    fn first_not(&self) -> (r: Option<u8>) {
        proof {
            lemma_bitwise_u8(self.0, self.0);
        }
        let low = Self::lowest_u8(!self.0);
        match low {
            Some(i) => {
                proof {
                    assert forall|j: u8| #[trigger] self.contents().complement().contains(j) implies i <= j by {
                        if j < 8 {
                            assert(bits_u8(!self.0).contains(j));
                        }
                    }
                }
                Some(i)
            },
            None => {
                proof {
                    assert(!bits_u8(!self.0).contains(8 as u8));
                    assert forall|j: u8| #[trigger] self.contents().complement().contains(j) implies 8
                        <= j by {
                        if j < 8 {
                            assert(bits_u8(!self.0).contains(j));
                        }
                    }
                }
                Some(8)
            },
        }
    }

    fn next_after_not(&self, current: u8) -> (r: Option<u8>) {
        if current >= 7 {
            if current == 255 {
                proof {
                    assert forall|j: u8| !#[trigger] above(self.contents().complement(), current).contains(j) by {
                    }
                }
                return None;
            }
            proof {
                lemma_bits_u8_finite(self.0);
                assert(!self.contents().contains((current + 1) as u8));
            }
            return Some(current + 1);
        }
        let next = current + 1;
        proof {
            lemma_bitwise_u8(self.0, self.0);
            lemma_single_u8(!self.0, next);
            assert(bits_u8(!self.0).filter(|j: u8| next <= j) =~= above(self.contents().complement(), current).filter(
                |j: u8| j < 8,
            ));
        }
        let masked = !self.0 & !((1u8 << (next as u8)) - 1);
        match Self::lowest_u8(masked) {
            Some(i) => {
                proof {
                    assert forall|j: u8| #[trigger] above(self.contents().complement(), current).contains(j) implies i
                        <= j by {
                        if j < 8 {
                            assert(bits_u8(!self.0).filter(|j: u8| next <= j).contains(j));
                        }
                    }
                }
                Some(i)
            },
            None => {
                proof {
                    assert forall|j: u8| #[trigger] above(self.contents().complement(), current).contains(j) implies 8
                        <= j by {
                        if j < 8 {
                            assert(bits_u8(!self.0).filter(|j: u8| next <= j).contains(j));
                        }
                    }
                    assert(above(self.contents().complement(), current).contains(8 as u8));
                }
                Some(8)
            },
        }
    }
}

impl IndexBackwardNot for UnsignedChunk<u8> {
    fn last_not(&self) -> (r: Option<u8>) {
        proof {
            lemma_bits_u8_finite(self.0);
            assert(!self.contents().contains(255u8));
        }
        Some(255)
    }

    fn next_before_not(&self, current: u8) -> (r: Option<u8>) {
        if current > 8 {
            proof {
                lemma_bits_u8_finite(self.0);
                assert(!self.contents().contains((current - 1) as u8));
            }
            return Some(current - 1);
        }
        proof {
            lemma_bitwise_u8(self.0, self.0);
        }
        if current == 8 {
            let r = Self::highest_u8(!self.0);
            proof {
                assert(bits_u8(!self.0) =~= below(self.contents().complement(), current));
            }
            return r;
        }
        proof {
            lemma_single_u8(!self.0, current);
            assert(bits_u8(!self.0).filter(|j: u8| j < current) =~= below(self.contents().complement(), current));
        }
        let masked = !self.0 & ((1u8 << (current as u8)) - 1);
        Self::highest_u8(masked)
    }
}

impl IndexOrderedNot for UnsignedChunk<u8> {}

impl UnsignedChunk<u8> {
    /// A chunk of this word has `8` bits.
    pub proof fn lemma_bits()
        ensures
            <Self as IndexChunk>::BITS == 8,
    {
    }
}

impl UnsignedChunk<u8> {
    /// The indexes absent from the chunk are exactly as many as its negated length counts.
    pub proof fn lemma_complement_len(&self)
        ensures
            self.contents().complement().finite(),
            self.contents().complement().len() + self.count() == 0x100,
    {
        lemma_bits_u8_finite(self.0);
        <u8 as vstd::set_lib::FiniteRange>::range_properties(0, 255);
        let full = Set::<u8>::range(0, 255).insert(255);
        assert(self.contents().complement() =~= full.difference(self.contents()));
        vstd::set_lib::lemma_set_difference_len(full, self.contents());
        assert(full.intersect(self.contents()) =~= self.contents());
        vstd::set_lib::lemma_set_subset_finite(full, full.difference(self.contents()));
    }
}

/// The bits set in `x`, as indexes.
pub open spec fn bits_u16(x: u16) -> Set<u8> {
    Set::new(|i: u8| i < 16 && (x >> (i as u16)) & 1u16 == 1u16)
}

proof fn lemma_bits_u16_finite(x: u16)
    ensures
        bits_u16(x).finite(),
        bits_u16(x).subset_of(chunk_domain::<u8>(16)),
{
    <u8 as vstd::set_lib::FiniteFull>::full_properties();
    assert(bits_u16(x).subset_of(Set::<u8>::full()));
    vstd::set_lib::lemma_set_subset_finite(Set::<u8>::full(), bits_u16(x));
}

spec fn bit_u16(x: u16, i: u8) -> bool {
    (x >> (i as u16)) & 1u16 == 1u16
}

spec fn bitwise_facts_u16(a: u16, b: u16, i: u8) -> bool {
    &&& bit_u16(a & b, i) == (bit_u16(a, i) && bit_u16(b, i))
    &&& bit_u16(a | b, i) == (bit_u16(a, i) || bit_u16(b, i))
    &&& bit_u16(a ^ b, i) == (bit_u16(a, i) != bit_u16(b, i))
    &&& bit_u16(a & !b, i) == (bit_u16(a, i) && !bit_u16(b, i))
    &&& bit_u16(!a, i) == !bit_u16(a, i)
    &&& !bit_u16(0, i)
}

proof fn lemma_bitwise_u16(a: u16, b: u16)
    ensures
        bits_u16(a & b) == bits_u16(a).intersect(bits_u16(b)),
        bits_u16(a | b) == bits_u16(a).union(bits_u16(b)),
        bits_u16(a ^ b) == symmetric(bits_u16(a), bits_u16(b)),
        bits_u16(a & !b) == bits_u16(a).difference(bits_u16(b)),
        bits_u16(!a) == chunk_domain::<u8>(16).difference(bits_u16(a)),
        bits_u16(0) == Set::<u8>::empty(),
{
    assert forall|i: u8| i < 16 implies #[trigger] bitwise_facts_u16(a, b, i) by {
        let s = i as u16;
        assert(s < 16 ==> {
            &&& ((a & b) >> s) & 1 == 1 <==> ((a >> s) & 1 == 1 && (b >> s) & 1 == 1)
            &&& ((a | b) >> s) & 1 == 1 <==> ((a >> s) & 1 == 1 || (b >> s) & 1 == 1)
            &&& ((a ^ b) >> s) & 1 == 1 <==> ((a >> s) & 1 == 1) != ((b >> s) & 1 == 1)
            &&& ((a & !b) >> s) & 1 == 1 <==> ((a >> s) & 1 == 1 && (b >> s) & 1 != 1)
            &&& ((!a) >> s) & 1 == 1 <==> (a >> s) & 1 != 1
            &&& (0u16 >> s) & 1 != 1
        }) by (bit_vector);
    }
    assert forall|i: u8| #[trigger] bits_u16(a & b).contains(i) == bits_u16(a).intersect(bits_u16(b)).contains(i) by {
        if i < 16 {
            assert(bitwise_facts_u16(a, b, i));
        }
    }
    assert(bits_u16(a & b) =~= bits_u16(a).intersect(bits_u16(b)));
    assert forall|i: u8| #[trigger] bits_u16(a | b).contains(i) == bits_u16(a).union(bits_u16(b)).contains(i) by {
        if i < 16 {
            assert(bitwise_facts_u16(a, b, i));
        }
    }
    assert(bits_u16(a | b) =~= bits_u16(a).union(bits_u16(b)));
    assert forall|i: u8| #[trigger] bits_u16(a ^ b).contains(i) == symmetric(bits_u16(a), bits_u16(b)).contains(i) by {
        if i < 16 {
            assert(bitwise_facts_u16(a, b, i));
        }
    }
    assert(bits_u16(a ^ b) =~= symmetric(bits_u16(a), bits_u16(b)));
    assert forall|i: u8| #[trigger] bits_u16(a & !b).contains(i) == bits_u16(a).difference(bits_u16(b)).contains(i) by {
        if i < 16 {
            assert(bitwise_facts_u16(a, b, i));
        }
    }
    assert(bits_u16(a & !b) =~= bits_u16(a).difference(bits_u16(b)));
    assert forall|i: u8| #[trigger] bits_u16(!a).contains(i) == chunk_domain::<u8>(16).difference(bits_u16(a)).contains(i) by {
        if i < 16 {
            assert(bitwise_facts_u16(a, b, i));
        }
    }
    assert(bits_u16(!a) =~= chunk_domain::<u8>(16).difference(bits_u16(a)));
    assert forall|i: u8| #[trigger] bits_u16(0).contains(i) == Set::<u8>::empty().contains(i) by {
        if i < 16 {
            assert(bitwise_facts_u16(a, b, i));
        }
    }
    assert(bits_u16(0) =~= Set::<u8>::empty());
}

spec fn single_facts_u16(x: u16, n: u8, i: u8) -> bool {
    let m = n as u16;
    &&& bit_u16(x | (1u16 << m), i) == (bit_u16(x, i) || i == n)
    &&& bit_u16(x & !(1u16 << m), i) == (bit_u16(x, i) && i != n)
    &&& bit_u16(x & !(((1u16 << m) - 1) as u16), i) == (bit_u16(x, i) && n <= i)
    &&& bit_u16(x & (((1u16 << m) - 1) as u16), i) == (bit_u16(x, i) && i < n)
}

proof fn lemma_single_u16(x: u16, n: u8)
    requires
        n < 16,
    ensures
        bits_u16(x | (1u16 << (n as u16))) == bits_u16(x).insert(n),
        bits_u16(x & !(1u16 << (n as u16))) == bits_u16(x).remove(n),
        (x & (1u16 << (n as u16)) != 0) == bits_u16(x).contains(n),
        bits_u16(x & !(((1u16 << (n as u16)) - 1) as u16)) == bits_u16(x).filter(|j: u8| n <= j),
        bits_u16(x & (((1u16 << (n as u16)) - 1) as u16)) == bits_u16(x).filter(|j: u8| j < n),
        (1u16 << (n as u16)) >= 1,
{
    let m = n as u16;
    assert(m < 16 ==> (x & (1u16 << m) != 0) == ((x >> m) & 1 == 1) && (1u16 << m) >= 1) by (bit_vector);
    assert forall|i: u8| i < 16 implies #[trigger] single_facts_u16(x, n, i) by {
        let s = i as u16;
        assert(s < 16 && m < 16 ==> {
            &&& ((x | (1u16 << m)) >> s) & 1 == 1 <==> ((x >> s) & 1 == 1 || s == m)
            &&& ((x & !(1u16 << m)) >> s) & 1 == 1 <==> ((x >> s) & 1 == 1 && s != m)
            &&& ((x & !(((1u16 << m) - 1) as u16)) >> s) & 1 == 1 <==> ((x >> s) & 1 == 1 && m <= s)
            &&& ((x & (((1u16 << m) - 1) as u16)) >> s) & 1 == 1 <==> ((x >> s) & 1 == 1 && s < m)
        }) by (bit_vector);
    }
    assert forall|i: u8| #[trigger] bits_u16(x | (1u16 << m)).contains(i) == bits_u16(x).insert(n).contains(i) by {
        if i < 16 {
            assert(single_facts_u16(x, n, i));
        }
    }
    assert(bits_u16(x | (1u16 << m)) =~= bits_u16(x).insert(n));
    assert forall|i: u8| #[trigger] bits_u16(x & !(1u16 << m)).contains(i) == bits_u16(x).remove(n).contains(i) by {
        if i < 16 {
            assert(single_facts_u16(x, n, i));
        }
    }
    assert(bits_u16(x & !(1u16 << m)) =~= bits_u16(x).remove(n));
    assert forall|i: u8| #[trigger] bits_u16(x & !(((1u16 << m) - 1) as u16)).contains(i) == bits_u16(x).filter(|j: u8| n <= j).contains(i) by {
        if i < 16 {
            assert(single_facts_u16(x, n, i));
        }
    }
    assert(bits_u16(x & !(((1u16 << m) - 1) as u16)) =~= bits_u16(x).filter(|j: u8| n <= j));
    assert forall|i: u8| #[trigger] bits_u16(x & (((1u16 << m) - 1) as u16)).contains(i) == bits_u16(x).filter(|j: u8| j < n).contains(i) by {
        if i < 16 {
            assert(single_facts_u16(x, n, i));
        }
    }
    assert(bits_u16(x & (((1u16 << m) - 1) as u16)) =~= bits_u16(x).filter(|j: u8| j < n));
}

/// The number of indexes in the chunk `x`: its one bits, counted one bit at a time.
fn count_ones_u16(x: u16) -> (r: u32)
    ensures
        r as nat == bits_u16(x).len(),
{
    let mut n: u32 = 0;
    let mut i: u8 = 0;
    proof {
        lemma_bits_u16_finite(x);
        assert(bits_u16(x).filter(|j: u8| j < 0u8) =~= Set::<u8>::empty());
    }
    while i < 16
        invariant
            i <= 16,
            n <= i,
            bits_u16(x).finite(),
            n as nat == bits_u16(x).filter(|j: u8| j < i).len(),
        decreases 16 - i,
    {
        let ghost before = bits_u16(x).filter(|j: u8| j < i);
        proof {
            vstd::set_lib::lemma_set_subset_finite(bits_u16(x), before);
        }
        if (x >> (i as u16)) & 1u16 == 1u16 {
            proof {
                assert(bits_u16(x).filter(|j: u8| j < (i + 1) as u8) =~= before.insert(i));
            }
            n = n + 1;
        } else {
            proof {
                assert(bits_u16(x).filter(|j: u8| j < (i + 1) as u8) =~= before);
            }
        }
        i = i + 1;
    }
    proof {
        assert(bits_u16(x).filter(|j: u8| j < 16) =~= bits_u16(x));
    }
    n
}

impl UnsignedChunk<u16> {
    /// Lowest set bit of `x`, if any.
    fn lowest_u16(x: u16) -> (r: Option<u8>)
        ensures
            least(bits_u16(x), r),
    {
        proof {
            vstd::std_specs::bits::axiom_u16_trailing_zeros(x);
        }
        let zeros = x.trailing_zeros();
        if zeros < 16 {
            proof {
                assert forall|j: u8| #[trigger] bits_u16(x).contains(j) implies zeros <= j by {
                    if j < zeros {
                        assert((x >> (j as u16)) & 1u16 == 0u16);
                    }
                }
            }
            Some(zeros as u8)
        } else {
            proof {
                lemma_bitwise_u16(x, x);
            }
            None
        }
    }

    /// Highest set bit of `x`, if any.
    fn highest_u16(x: u16) -> (r: Option<u8>)
        ensures
            greatest(bits_u16(x), r),
    {
        proof {
            vstd::std_specs::bits::axiom_u16_leading_zeros(x);
        }
        let zeros = x.leading_zeros();
        if zeros < 16 {
            let top = (15 - zeros) as u8;
            proof {
                assert((x >> (top as u16)) & 1u16 == 1u16) by {
                    let t = top as u16;
                    assert((x >> t) & 1u16 != 0u16 ==> (x >> t) & 1u16 == 1u16) by (bit_vector);
                }
                assert forall|j: u8| #[trigger] bits_u16(x).contains(j) implies j <= top by {
                    if j > top {
                        assert((x >> (j as u16)) & 1u16 == 0u16);
                    }
                }
            }
            Some(top)
        } else {
            proof {
                lemma_bitwise_u16(x, x);
            }
            None
        }
    }
}

impl IndexView for UnsignedChunk<u16> {
    type Index = u8;

    open spec fn wf(&self) -> bool {
        true
    }

    open spec fn contents(&self) -> Set<u8> {
        bits_u16(self.0)
    }

    open spec fn count(&self) -> nat {
        bits_u16(self.0).len()
    }

    fn is_empty(&self) -> (r: bool) {
        proof {
            lemma_bitwise_u16(self.0, self.0);
            lemma_bits_u16_finite(self.0);
            if self.0 != 0 {
                Self::lemma_nonzero_u16(self.0);
            }
        }
        self.0 == 0
    }

    fn len(&self) -> (r: usize) {
        proof {
            lemma_bits_u16_finite(self.0);
            vstd::set_lib::lemma_len_subset(bits_u16(self.0), Set::<u8>::range(0, 16));
            assert(bits_u16(self.0).subset_of(Set::<u8>::range(0, 16)));
        }
        count_ones_u16(self.0) as usize
    }

    fn contains(&self, index: u8) -> (r: bool) {
        if index >= 16 {
            return false;
        }
        proof {
            lemma_single_u16(self.0, index);
        }
        (self.0 & (1u16 << (index as u16))) != 0
    }
}

impl UnsignedChunk<u16> {
    proof fn lemma_nonzero_u16(x: u16)
        requires
            x != 0,
        ensures
            bits_u16(x).len() > 0,
    {
        vstd::std_specs::bits::axiom_u16_trailing_zeros(x);
        let t = x.trailing_zeros() as u8;
        lemma_bits_u16_finite(x);
        assert(bits_u16(x).contains(t));
    }
}

impl IndexCollection for UnsignedChunk<u16> {
    open spec fn spec_span() -> (Bound<u8>, Bound<u8>) {
        (Bound::Included(0), Bound::Excluded(16))
    }

    open spec fn constructible() -> bool {
        true
    }

    fn span() -> (r: (Bound<u8>, Bound<u8>)) {
        (Bound::Included(0), Bound::Excluded(16))
    }

    fn new() -> (r: Self) {
        proof {
            lemma_bitwise_u16(0, 0);
        }
        UnsignedChunk(0)
    }

    fn with_span(range: (Bound<u8>, Bound<u8>)) -> (r: Self) {
        Self::new()
    }
}

impl IndexStore for UnsignedChunk<u16> {
    type InsertionError = Never;

    open spec fn admits(index: u8) -> bool {
        index < 16
    }

    open spec fn infallible() -> bool {
        true
    }

    proof fn lemma_count(&self) {
        lemma_bits_u16_finite(self.0);
    }

    fn clear(&mut self) {
        proof {
            lemma_bitwise_u16(0, 0);
        }
        self.0 = 0;
    }

    fn insert(&mut self, index: u8) -> (r: Result<bool, Never>) {
        proof {
            lemma_single_u16(self.0, index);
        }
        let mask: u16 = 1u16 << (index as u16);
        let existed = (self.0 & mask) != 0;
        self.0 = self.0 | mask;
        Ok(!existed)
    }

    fn remove(&mut self, index: u8) -> (r: bool) {
        if index >= 16 {
            proof {
                lemma_bits_u16_finite(self.0);
                assert(self.contents().remove(index) =~= self.contents());
            }
            return false;
        }
        proof {
            lemma_single_u16(self.0, index);
        }
        let mask: u16 = 1u16 << (index as u16);
        let existed = (self.0 & mask) != 0;
        self.0 = self.0 & !mask;
        existed
    }
}

impl IndexVault for UnsignedChunk<u16> {}

impl IndexForward for UnsignedChunk<u16> {
    fn first(&self) -> (r: Option<u8>) {
        Self::lowest_u16(self.0)
    }

    fn next_after(&self, current: u8) -> (r: Option<u8>) {
        if current >= 15 {
            proof {
                lemma_bits_u16_finite(self.0);
                assert forall|j: u8| !#[trigger] above(self.contents(), current).contains(j) by {
                    assert(self.contents().contains(j) ==> j < 16);
                }
            }
            return None;
        }
        let next = current + 1;
        proof {
            lemma_single_u16(self.0, next);
            assert(bits_u16(self.0).filter(|j: u8| next <= j) =~= above(self.contents(), current));
        }
        let masked = self.0 & !((1u16 << (next as u16)) - 1);
        Self::lowest_u16(masked)
    }
}

impl IndexBackward for UnsignedChunk<u16> {
    fn last(&self) -> (r: Option<u8>) {
        Self::highest_u16(self.0)
    }

    fn next_before(&self, current: u8) -> (r: Option<u8>) {
        if current >= 16 {
            proof {
                lemma_bits_u16_finite(self.0);
                assert(below(self.contents(), current) =~= self.contents());
            }
            return Self::highest_u16(self.0);
        }
        proof {
            lemma_single_u16(self.0, current);
            assert(bits_u16(self.0).filter(|j: u8| j < current) =~= below(self.contents(), current));
        }
        let masked = self.0 & ((1u16 << (current as u16)) - 1);
        Self::highest_u16(masked)
    }
}

impl IndexOrdered for UnsignedChunk<u16> {}

impl IndexChunk for UnsignedChunk<u16> {
    const BITS: u32 = 16;

    proof fn lemma_domain(&self) {
        lemma_bits_u16_finite(self.0);
    }

    proof fn lemma_domain_len() {
        <u8 as vstd::set_lib::FiniteRange>::range_properties(0, 16);
        assert(chunk_domain::<u8>(16) =~= Set::<u8>::range(0, 16));
    }

    open spec fn inverse_of(self, other: Self) -> bool {
        self.0 == !other.0
    }

    proof fn lemma_inverse_symmetric(a: Self, b: Self) {
        let (x, y) = (a.0, b.0);
        assert((x == !y) == (y == !x)) by (bit_vector);
    }

    proof fn lemma_inverse_unique(a: Self, b: Self, c: Self) {
    }

    fn bitand(self, other: Self) -> (r: Self) {
        proof {
            lemma_bitwise_u16(self.0, other.0);
        }
        UnsignedChunk(self.0 & other.0)
    }

    fn bitor(self, other: Self) -> (r: Self) {
        proof {
            lemma_bitwise_u16(self.0, other.0);
        }
        UnsignedChunk(self.0 | other.0)
    }

    fn bitxor(self, other: Self) -> (r: Self) {
        proof {
            lemma_bitwise_u16(self.0, other.0);
        }
        UnsignedChunk(self.0 ^ other.0)
    }

    fn sub(self, other: Self) -> (r: Self) {
        proof {
            lemma_bitwise_u16(self.0, other.0);
        }
        UnsignedChunk(self.0 & !other.0)
    }

    fn bitand_assign(&mut self, other: Self) {
        proof {
            lemma_bitwise_u16(self.0, other.0);
        }
        self.0 = self.0 & other.0;
    }

    fn bitor_assign(&mut self, other: Self) {
        proof {
            lemma_bitwise_u16(self.0, other.0);
        }
        self.0 = self.0 | other.0;
    }

    fn bitxor_assign(&mut self, other: Self) {
        proof {
            lemma_bitwise_u16(self.0, other.0);
        }
        self.0 = self.0 ^ other.0;
    }

    fn sub_assign(&mut self, other: Self) {
        proof {
            lemma_bitwise_u16(self.0, other.0);
        }
        self.0 = self.0 & !other.0;
    }

    fn not(self) -> (r: Self) {
        proof {
            lemma_bitwise_u16(self.0, self.0);
        }
        UnsignedChunk(!self.0)
    }
}

/// The negated chunk ranges over every `u8` index, as its traversal does.
impl IndexViewNot for UnsignedChunk<u16> {
    open spec fn capacity(&self) -> nat {
        0x100
    }

    proof fn lemma_capacity(&self) {
        lemma_bits_u16_finite(self.0);
        assert(bits_u16(self.0).subset_of(Set::<u8>::range(0, 16)));
        vstd::set_lib::lemma_len_subset(bits_u16(self.0), Set::<u8>::range(0, 16));
        <u8 as vstd::set_lib::FiniteRange>::range_properties(0, 16);
    }

    fn len_not(&self) -> (r: usize) {
        proof {
            lemma_bits_u16_finite(self.0);
            assert(bits_u16(self.0).subset_of(Set::<u8>::range(0, 16)));
            vstd::set_lib::lemma_len_subset(bits_u16(self.0), Set::<u8>::range(0, 16));
            <u8 as vstd::set_lib::FiniteRange>::range_properties(0, 16);
        }
        let n = count_ones_u16(self.0);
        (0x100 - n) as usize
    }
}

impl IndexForwardNot for UnsignedChunk<u16> {
    fn first_not(&self) -> (r: Option<u8>) {
        proof {
            lemma_bitwise_u16(self.0, self.0);
        }
        let low = Self::lowest_u16(!self.0);
        match low {
            Some(i) => {
                proof {
                    assert forall|j: u8| #[trigger] self.contents().complement().contains(j) implies i <= j by {
                        if j < 16 {
                            assert(bits_u16(!self.0).contains(j));
                        }
                    }
                }
                Some(i)
            },
            None => {
                proof {
                    assert(!bits_u16(!self.0).contains(16 as u8));
                    assert forall|j: u8| #[trigger] self.contents().complement().contains(j) implies 16
                        <= j by {
                        if j < 16 {
                            assert(bits_u16(!self.0).contains(j));
                        }
                    }
                }
                Some(16)
            },
        }
    }

    fn next_after_not(&self, current: u8) -> (r: Option<u8>) {
        if current >= 15 {
            if current == 255 {
                proof {
                    assert forall|j: u8| !#[trigger] above(self.contents().complement(), current).contains(j) by {
                    }
                }
                return None;
            }
            proof {
                lemma_bits_u16_finite(self.0);
                assert(!self.contents().contains((current + 1) as u8));
            }
            return Some(current + 1);
        }
        let next = current + 1;
        proof {
            lemma_bitwise_u16(self.0, self.0);
            lemma_single_u16(!self.0, next);
            assert(bits_u16(!self.0).filter(|j: u8| next <= j) =~= above(self.contents().complement(), current).filter(
                |j: u8| j < 16,
            ));
        }
        let masked = !self.0 & !((1u16 << (next as u16)) - 1);
        match Self::lowest_u16(masked) {
            Some(i) => {
                proof {
                    assert forall|j: u8| #[trigger] above(self.contents().complement(), current).contains(j) implies i
                        <= j by {
                        if j < 16 {
                            assert(bits_u16(!self.0).filter(|j: u8| next <= j).contains(j));
                        }
                    }
                }
                Some(i)
            },
            None => {
                proof {
                    assert forall|j: u8| #[trigger] above(self.contents().complement(), current).contains(j) implies 16
                        <= j by {
                        if j < 16 {
                            assert(bits_u16(!self.0).filter(|j: u8| next <= j).contains(j));
                        }
                    }
                    assert(above(self.contents().complement(), current).contains(16 as u8));
                }
                Some(16)
            },
        }
    }
}

impl IndexBackwardNot for UnsignedChunk<u16> {
    fn last_not(&self) -> (r: Option<u8>) {
        proof {
            lemma_bits_u16_finite(self.0);
            assert(!self.contents().contains(255u8));
        }
        Some(255)
    }

    fn next_before_not(&self, current: u8) -> (r: Option<u8>) {
        if current > 16 {
            proof {
                lemma_bits_u16_finite(self.0);
                assert(!self.contents().contains((current - 1) as u8));
            }
            return Some(current - 1);
        }
        proof {
            lemma_bitwise_u16(self.0, self.0);
        }
        if current == 16 {
            let r = Self::highest_u16(!self.0);
            proof {
                assert(bits_u16(!self.0) =~= below(self.contents().complement(), current));
            }
            return r;
        }
        proof {
            lemma_single_u16(!self.0, current);
            assert(bits_u16(!self.0).filter(|j: u8| j < current) =~= below(self.contents().complement(), current));
        }
        let masked = !self.0 & ((1u16 << (current as u16)) - 1);
        Self::highest_u16(masked)
    }
}

impl IndexOrderedNot for UnsignedChunk<u16> {}

impl UnsignedChunk<u16> {
    /// A chunk of this word has `16` bits.
    pub proof fn lemma_bits()
        ensures
            <Self as IndexChunk>::BITS == 16,
    {
    }
}

impl UnsignedChunk<u16> {
    /// The indexes absent from the chunk are exactly as many as its negated length counts.
    pub proof fn lemma_complement_len(&self)
        ensures
            self.contents().complement().finite(),
            self.contents().complement().len() + self.count() == 0x100,
    {
        lemma_bits_u16_finite(self.0);
        <u8 as vstd::set_lib::FiniteRange>::range_properties(0, 255);
        let full = Set::<u8>::range(0, 255).insert(255);
        assert(self.contents().complement() =~= full.difference(self.contents()));
        vstd::set_lib::lemma_set_difference_len(full, self.contents());
        assert(full.intersect(self.contents()) =~= self.contents());
        vstd::set_lib::lemma_set_subset_finite(full, full.difference(self.contents()));
    }
}

/// The bits set in `x`, as indexes.
pub open spec fn bits_u32(x: u32) -> Set<u8> {
    Set::new(|i: u8| i < 32 && (x >> (i as u32)) & 1u32 == 1u32)
}

proof fn lemma_bits_u32_finite(x: u32)
    ensures
        bits_u32(x).finite(),
        bits_u32(x).subset_of(chunk_domain::<u8>(32)),
{
    <u8 as vstd::set_lib::FiniteFull>::full_properties();
    assert(bits_u32(x).subset_of(Set::<u8>::full()));
    vstd::set_lib::lemma_set_subset_finite(Set::<u8>::full(), bits_u32(x));
}

spec fn bit_u32(x: u32, i: u8) -> bool {
    (x >> (i as u32)) & 1u32 == 1u32
}

spec fn bitwise_facts_u32(a: u32, b: u32, i: u8) -> bool {
    &&& bit_u32(a & b, i) == (bit_u32(a, i) && bit_u32(b, i))
    &&& bit_u32(a | b, i) == (bit_u32(a, i) || bit_u32(b, i))
    &&& bit_u32(a ^ b, i) == (bit_u32(a, i) != bit_u32(b, i))
    &&& bit_u32(a & !b, i) == (bit_u32(a, i) && !bit_u32(b, i))
    &&& bit_u32(!a, i) == !bit_u32(a, i)
    &&& !bit_u32(0, i)
}

proof fn lemma_bitwise_u32(a: u32, b: u32)
    ensures
        bits_u32(a & b) == bits_u32(a).intersect(bits_u32(b)),
        bits_u32(a | b) == bits_u32(a).union(bits_u32(b)),
        bits_u32(a ^ b) == symmetric(bits_u32(a), bits_u32(b)),
        bits_u32(a & !b) == bits_u32(a).difference(bits_u32(b)),
        bits_u32(!a) == chunk_domain::<u8>(32).difference(bits_u32(a)),
        bits_u32(0) == Set::<u8>::empty(),
{
    assert forall|i: u8| i < 32 implies #[trigger] bitwise_facts_u32(a, b, i) by {
        let s = i as u32;
        assert(s < 32 ==> {
            &&& ((a & b) >> s) & 1 == 1 <==> ((a >> s) & 1 == 1 && (b >> s) & 1 == 1)
            &&& ((a | b) >> s) & 1 == 1 <==> ((a >> s) & 1 == 1 || (b >> s) & 1 == 1)
            &&& ((a ^ b) >> s) & 1 == 1 <==> ((a >> s) & 1 == 1) != ((b >> s) & 1 == 1)
            &&& ((a & !b) >> s) & 1 == 1 <==> ((a >> s) & 1 == 1 && (b >> s) & 1 != 1)
            &&& ((!a) >> s) & 1 == 1 <==> (a >> s) & 1 != 1
            &&& (0u32 >> s) & 1 != 1
        }) by (bit_vector);
    }
    assert forall|i: u8| #[trigger] bits_u32(a & b).contains(i) == bits_u32(a).intersect(bits_u32(b)).contains(i) by {
        if i < 32 {
            assert(bitwise_facts_u32(a, b, i));
        }
    }
    assert(bits_u32(a & b) =~= bits_u32(a).intersect(bits_u32(b)));
    assert forall|i: u8| #[trigger] bits_u32(a | b).contains(i) == bits_u32(a).union(bits_u32(b)).contains(i) by {
        if i < 32 {
            assert(bitwise_facts_u32(a, b, i));
        }
    }
    assert(bits_u32(a | b) =~= bits_u32(a).union(bits_u32(b)));
    assert forall|i: u8| #[trigger] bits_u32(a ^ b).contains(i) == symmetric(bits_u32(a), bits_u32(b)).contains(i) by {
        if i < 32 {
            assert(bitwise_facts_u32(a, b, i));
        }
    }
    assert(bits_u32(a ^ b) =~= symmetric(bits_u32(a), bits_u32(b)));
    assert forall|i: u8| #[trigger] bits_u32(a & !b).contains(i) == bits_u32(a).difference(bits_u32(b)).contains(i) by {
        if i < 32 {
            assert(bitwise_facts_u32(a, b, i));
        }
    }
    assert(bits_u32(a & !b) =~= bits_u32(a).difference(bits_u32(b)));
    assert forall|i: u8| #[trigger] bits_u32(!a).contains(i) == chunk_domain::<u8>(32).difference(bits_u32(a)).contains(i) by {
        if i < 32 {
            assert(bitwise_facts_u32(a, b, i));
        }
    }
    assert(bits_u32(!a) =~= chunk_domain::<u8>(32).difference(bits_u32(a)));
    assert forall|i: u8| #[trigger] bits_u32(0).contains(i) == Set::<u8>::empty().contains(i) by {
        if i < 32 {
            assert(bitwise_facts_u32(a, b, i));
        }
    }
    assert(bits_u32(0) =~= Set::<u8>::empty());
}

spec fn single_facts_u32(x: u32, n: u8, i: u8) -> bool {
    let m = n as u32;
    &&& bit_u32(x | (1u32 << m), i) == (bit_u32(x, i) || i == n)
    &&& bit_u32(x & !(1u32 << m), i) == (bit_u32(x, i) && i != n)
    &&& bit_u32(x & !(((1u32 << m) - 1) as u32), i) == (bit_u32(x, i) && n <= i)
    &&& bit_u32(x & (((1u32 << m) - 1) as u32), i) == (bit_u32(x, i) && i < n)
}

proof fn lemma_single_u32(x: u32, n: u8)
    requires
        n < 32,
    ensures
        bits_u32(x | (1u32 << (n as u32))) == bits_u32(x).insert(n),
        bits_u32(x & !(1u32 << (n as u32))) == bits_u32(x).remove(n),
        (x & (1u32 << (n as u32)) != 0) == bits_u32(x).contains(n),
        bits_u32(x & !(((1u32 << (n as u32)) - 1) as u32)) == bits_u32(x).filter(|j: u8| n <= j),
        bits_u32(x & (((1u32 << (n as u32)) - 1) as u32)) == bits_u32(x).filter(|j: u8| j < n),
        (1u32 << (n as u32)) >= 1,
{
    let m = n as u32;
    assert(m < 32 ==> (x & (1u32 << m) != 0) == ((x >> m) & 1 == 1) && (1u32 << m) >= 1) by (bit_vector);
    assert forall|i: u8| i < 32 implies #[trigger] single_facts_u32(x, n, i) by {
        let s = i as u32;
        assert(s < 32 && m < 32 ==> {
            &&& ((x | (1u32 << m)) >> s) & 1 == 1 <==> ((x >> s) & 1 == 1 || s == m)
            &&& ((x & !(1u32 << m)) >> s) & 1 == 1 <==> ((x >> s) & 1 == 1 && s != m)
            &&& ((x & !(((1u32 << m) - 1) as u32)) >> s) & 1 == 1 <==> ((x >> s) & 1 == 1 && m <= s)
            &&& ((x & (((1u32 << m) - 1) as u32)) >> s) & 1 == 1 <==> ((x >> s) & 1 == 1 && s < m)
        }) by (bit_vector);
    }
    assert forall|i: u8| #[trigger] bits_u32(x | (1u32 << m)).contains(i) == bits_u32(x).insert(n).contains(i) by {
        if i < 32 {
            assert(single_facts_u32(x, n, i));
        }
    }
    assert(bits_u32(x | (1u32 << m)) =~= bits_u32(x).insert(n));
    assert forall|i: u8| #[trigger] bits_u32(x & !(1u32 << m)).contains(i) == bits_u32(x).remove(n).contains(i) by {
        if i < 32 {
            assert(single_facts_u32(x, n, i));
        }
    }
    assert(bits_u32(x & !(1u32 << m)) =~= bits_u32(x).remove(n));
    assert forall|i: u8| #[trigger] bits_u32(x & !(((1u32 << m) - 1) as u32)).contains(i) == bits_u32(x).filter(|j: u8| n <= j).contains(i) by {
        if i < 32 {
            assert(single_facts_u32(x, n, i));
        }
    }
    assert(bits_u32(x & !(((1u32 << m) - 1) as u32)) =~= bits_u32(x).filter(|j: u8| n <= j));
    assert forall|i: u8| #[trigger] bits_u32(x & (((1u32 << m) - 1) as u32)).contains(i) == bits_u32(x).filter(|j: u8| j < n).contains(i) by {
        if i < 32 {
            assert(single_facts_u32(x, n, i));
        }
    }
    assert(bits_u32(x & (((1u32 << m) - 1) as u32)) =~= bits_u32(x).filter(|j: u8| j < n));
}

/// The number of indexes in the chunk `x`: its one bits, counted one bit at a time.
fn count_ones_u32(x: u32) -> (r: u32)
    ensures
        r as nat == bits_u32(x).len(),
{
    let mut n: u32 = 0;
    let mut i: u8 = 0;
    proof {
        lemma_bits_u32_finite(x);
        assert(bits_u32(x).filter(|j: u8| j < 0u8) =~= Set::<u8>::empty());
    }
    while i < 32
        invariant
            i <= 32,
            n <= i,
            bits_u32(x).finite(),
            n as nat == bits_u32(x).filter(|j: u8| j < i).len(),
        decreases 32 - i,
    {
        let ghost before = bits_u32(x).filter(|j: u8| j < i);
        proof {
            vstd::set_lib::lemma_set_subset_finite(bits_u32(x), before);
        }
        if (x >> (i as u32)) & 1u32 == 1u32 {
            proof {
                assert(bits_u32(x).filter(|j: u8| j < (i + 1) as u8) =~= before.insert(i));
            }
            n = n + 1;
        } else {
            proof {
                assert(bits_u32(x).filter(|j: u8| j < (i + 1) as u8) =~= before);
            }
        }
        i = i + 1;
    }
    proof {
        assert(bits_u32(x).filter(|j: u8| j < 32) =~= bits_u32(x));
    }
    n
}

impl UnsignedChunk<u32> {
    /// Lowest set bit of `x`, if any.
    fn lowest_u32(x: u32) -> (r: Option<u8>)
        ensures
            least(bits_u32(x), r),
    {
        proof {
            vstd::std_specs::bits::axiom_u32_trailing_zeros(x);
        }
        let zeros = x.trailing_zeros();
        if zeros < 32 {
            proof {
                assert forall|j: u8| #[trigger] bits_u32(x).contains(j) implies zeros <= j by {
                    if j < zeros {
                        assert((x >> (j as u32)) & 1u32 == 0u32);
                    }
                }
            }
            Some(zeros as u8)
        } else {
            proof {
                lemma_bitwise_u32(x, x);
            }
            None
        }
    }

    /// Highest set bit of `x`, if any.
    fn highest_u32(x: u32) -> (r: Option<u8>)
        ensures
            greatest(bits_u32(x), r),
    {
        proof {
            vstd::std_specs::bits::axiom_u32_leading_zeros(x);
        }
        let zeros = x.leading_zeros();
        if zeros < 32 {
            let top = (31 - zeros) as u8;
            proof {
                assert((x >> (top as u32)) & 1u32 == 1u32) by {
                    let t = top as u32;
                    assert((x >> t) & 1u32 != 0u32 ==> (x >> t) & 1u32 == 1u32) by (bit_vector);
                }
                assert forall|j: u8| #[trigger] bits_u32(x).contains(j) implies j <= top by {
                    if j > top {
                        assert((x >> (j as u32)) & 1u32 == 0u32);
                    }
                }
            }
            Some(top)
        } else {
            proof {
                lemma_bitwise_u32(x, x);
            }
            None
        }
    }
}

impl IndexView for UnsignedChunk<u32> {
    type Index = u8;

    open spec fn wf(&self) -> bool {
        true
    }

    open spec fn contents(&self) -> Set<u8> {
        bits_u32(self.0)
    }

    open spec fn count(&self) -> nat {
        bits_u32(self.0).len()
    }

    fn is_empty(&self) -> (r: bool) {
        proof {
            lemma_bitwise_u32(self.0, self.0);
            lemma_bits_u32_finite(self.0);
            if self.0 != 0 {
                Self::lemma_nonzero_u32(self.0);
            }
        }
        self.0 == 0
    }

    fn len(&self) -> (r: usize) {
        proof {
            lemma_bits_u32_finite(self.0);
            vstd::set_lib::lemma_len_subset(bits_u32(self.0), Set::<u8>::range(0, 32));
            assert(bits_u32(self.0).subset_of(Set::<u8>::range(0, 32)));
        }
        count_ones_u32(self.0) as usize
    }

    fn contains(&self, index: u8) -> (r: bool) {
        if index >= 32 {
            return false;
        }
        proof {
            lemma_single_u32(self.0, index);
        }
        (self.0 & (1u32 << (index as u32))) != 0
    }
}

impl UnsignedChunk<u32> {
    proof fn lemma_nonzero_u32(x: u32)
        requires
            x != 0,
        ensures
            bits_u32(x).len() > 0,
    {
        vstd::std_specs::bits::axiom_u32_trailing_zeros(x);
        let t = x.trailing_zeros() as u8;
        lemma_bits_u32_finite(x);
        assert(bits_u32(x).contains(t));
    }
}

impl IndexCollection for UnsignedChunk<u32> {
    open spec fn spec_span() -> (Bound<u8>, Bound<u8>) {
        (Bound::Included(0), Bound::Excluded(32))
    }

    open spec fn constructible() -> bool {
        true
    }

    fn span() -> (r: (Bound<u8>, Bound<u8>)) {
        (Bound::Included(0), Bound::Excluded(32))
    }

    fn new() -> (r: Self) {
        proof {
            lemma_bitwise_u32(0, 0);
        }
        UnsignedChunk(0)
    }

    fn with_span(range: (Bound<u8>, Bound<u8>)) -> (r: Self) {
        Self::new()
    }
}

impl IndexStore for UnsignedChunk<u32> {
    type InsertionError = Never;

    open spec fn admits(index: u8) -> bool {
        index < 32
    }

    open spec fn infallible() -> bool {
        true
    }

    proof fn lemma_count(&self) {
        lemma_bits_u32_finite(self.0);
    }

    fn clear(&mut self) {
        proof {
            lemma_bitwise_u32(0, 0);
        }
        self.0 = 0;
    }

    fn insert(&mut self, index: u8) -> (r: Result<bool, Never>) {
        proof {
            lemma_single_u32(self.0, index);
        }
        let mask: u32 = 1u32 << (index as u32);
        let existed = (self.0 & mask) != 0;
        self.0 = self.0 | mask;
        Ok(!existed)
    }

    fn remove(&mut self, index: u8) -> (r: bool) {
        if index >= 32 {
            proof {
                lemma_bits_u32_finite(self.0);
                assert(self.contents().remove(index) =~= self.contents());
            }
            return false;
        }
        proof {
            lemma_single_u32(self.0, index);
        }
        let mask: u32 = 1u32 << (index as u32);
        let existed = (self.0 & mask) != 0;
        self.0 = self.0 & !mask;
        existed
    }
}

impl IndexVault for UnsignedChunk<u32> {}

impl IndexForward for UnsignedChunk<u32> {
    fn first(&self) -> (r: Option<u8>) {
        Self::lowest_u32(self.0)
    }

    fn next_after(&self, current: u8) -> (r: Option<u8>) {
        if current >= 31 {
            proof {
                lemma_bits_u32_finite(self.0);
                assert forall|j: u8| !#[trigger] above(self.contents(), current).contains(j) by {
                    assert(self.contents().contains(j) ==> j < 32);
                }
            }
            return None;
        }
        let next = current + 1;
        proof {
            lemma_single_u32(self.0, next);
            assert(bits_u32(self.0).filter(|j: u8| next <= j) =~= above(self.contents(), current));
        }
        let masked = self.0 & !((1u32 << (next as u32)) - 1);
        Self::lowest_u32(masked)
    }
}

impl IndexBackward for UnsignedChunk<u32> {
    fn last(&self) -> (r: Option<u8>) {
        Self::highest_u32(self.0)
    }

    fn next_before(&self, current: u8) -> (r: Option<u8>) {
        if current >= 32 {
            proof {
                lemma_bits_u32_finite(self.0);
                assert(below(self.contents(), current) =~= self.contents());
            }
            return Self::highest_u32(self.0);
        }
        proof {
            lemma_single_u32(self.0, current);
            assert(bits_u32(self.0).filter(|j: u8| j < current) =~= below(self.contents(), current));
        }
        let masked = self.0 & ((1u32 << (current as u32)) - 1);
        Self::highest_u32(masked)
    }
}

impl IndexOrdered for UnsignedChunk<u32> {}

impl IndexChunk for UnsignedChunk<u32> {
    const BITS: u32 = 32;

    proof fn lemma_domain(&self) {
        lemma_bits_u32_finite(self.0);
    }

    proof fn lemma_domain_len() {
        <u8 as vstd::set_lib::FiniteRange>::range_properties(0, 32);
        assert(chunk_domain::<u8>(32) =~= Set::<u8>::range(0, 32));
    }

    open spec fn inverse_of(self, other: Self) -> bool {
        self.0 == !other.0
    }

    proof fn lemma_inverse_symmetric(a: Self, b: Self) {
        let (x, y) = (a.0, b.0);
        assert((x == !y) == (y == !x)) by (bit_vector);
    }

    proof fn lemma_inverse_unique(a: Self, b: Self, c: Self) {
    }

    fn bitand(self, other: Self) -> (r: Self) {
        proof {
            lemma_bitwise_u32(self.0, other.0);
        }
        UnsignedChunk(self.0 & other.0)
    }

    fn bitor(self, other: Self) -> (r: Self) {
        proof {
            lemma_bitwise_u32(self.0, other.0);
        }
        UnsignedChunk(self.0 | other.0)
    }

    fn bitxor(self, other: Self) -> (r: Self) {
        proof {
            lemma_bitwise_u32(self.0, other.0);
        }
        UnsignedChunk(self.0 ^ other.0)
    }

    fn sub(self, other: Self) -> (r: Self) {
        proof {
            lemma_bitwise_u32(self.0, other.0);
        }
        UnsignedChunk(self.0 & !other.0)
    }

    fn bitand_assign(&mut self, other: Self) {
        proof {
            lemma_bitwise_u32(self.0, other.0);
        }
        self.0 = self.0 & other.0;
    }

    fn bitor_assign(&mut self, other: Self) {
        proof {
            lemma_bitwise_u32(self.0, other.0);
        }
        self.0 = self.0 | other.0;
    }

    fn bitxor_assign(&mut self, other: Self) {
        proof {
            lemma_bitwise_u32(self.0, other.0);
        }
        self.0 = self.0 ^ other.0;
    }

    fn sub_assign(&mut self, other: Self) {
        proof {
            lemma_bitwise_u32(self.0, other.0);
        }
        self.0 = self.0 & !other.0;
    }

    fn not(self) -> (r: Self) {
        proof {
            lemma_bitwise_u32(self.0, self.0);
        }
        UnsignedChunk(!self.0)
    }
}

/// The negated chunk ranges over every `u8` index, as its traversal does.
impl IndexViewNot for UnsignedChunk<u32> {
    open spec fn capacity(&self) -> nat {
        0x100
    }

    proof fn lemma_capacity(&self) {
        lemma_bits_u32_finite(self.0);
        assert(bits_u32(self.0).subset_of(Set::<u8>::range(0, 32)));
        vstd::set_lib::lemma_len_subset(bits_u32(self.0), Set::<u8>::range(0, 32));
        <u8 as vstd::set_lib::FiniteRange>::range_properties(0, 32);
    }

    fn len_not(&self) -> (r: usize) {
        proof {
            lemma_bits_u32_finite(self.0);
            assert(bits_u32(self.0).subset_of(Set::<u8>::range(0, 32)));
            vstd::set_lib::lemma_len_subset(bits_u32(self.0), Set::<u8>::range(0, 32));
            <u8 as vstd::set_lib::FiniteRange>::range_properties(0, 32);
        }
        let n = count_ones_u32(self.0);
        (0x100 - n) as usize
    }
}

impl IndexForwardNot for UnsignedChunk<u32> {
    fn first_not(&self) -> (r: Option<u8>) {
        proof {
            lemma_bitwise_u32(self.0, self.0);
        }
        let low = Self::lowest_u32(!self.0);
        match low {
            Some(i) => {
                proof {
                    assert forall|j: u8| #[trigger] self.contents().complement().contains(j) implies i <= j by {
                        if j < 32 {
                            assert(bits_u32(!self.0).contains(j));
                        }
                    }
                }
                Some(i)
            },
            None => {
                proof {
                    assert(!bits_u32(!self.0).contains(32 as u8));
                    assert forall|j: u8| #[trigger] self.contents().complement().contains(j) implies 32
                        <= j by {
                        if j < 32 {
                            assert(bits_u32(!self.0).contains(j));
                        }
                    }
                }
                Some(32)
            },
        }
    }

    fn next_after_not(&self, current: u8) -> (r: Option<u8>) {
        if current >= 31 {
            if current == 255 {
                proof {
                    assert forall|j: u8| !#[trigger] above(self.contents().complement(), current).contains(j) by {
                    }
                }
                return None;
            }
            proof {
                lemma_bits_u32_finite(self.0);
                assert(!self.contents().contains((current + 1) as u8));
            }
            return Some(current + 1);
        }
        let next = current + 1;
        proof {
            lemma_bitwise_u32(self.0, self.0);
            lemma_single_u32(!self.0, next);
            assert(bits_u32(!self.0).filter(|j: u8| next <= j) =~= above(self.contents().complement(), current).filter(
                |j: u8| j < 32,
            ));
        }
        let masked = !self.0 & !((1u32 << (next as u32)) - 1);
        match Self::lowest_u32(masked) {
            Some(i) => {
                proof {
                    assert forall|j: u8| #[trigger] above(self.contents().complement(), current).contains(j) implies i
                        <= j by {
                        if j < 32 {
                            assert(bits_u32(!self.0).filter(|j: u8| next <= j).contains(j));
                        }
                    }
                }
                Some(i)
            },
            None => {
                proof {
                    assert forall|j: u8| #[trigger] above(self.contents().complement(), current).contains(j) implies 32
                        <= j by {
                        if j < 32 {
                            assert(bits_u32(!self.0).filter(|j: u8| next <= j).contains(j));
                        }
                    }
                    assert(above(self.contents().complement(), current).contains(32 as u8));
                }
                Some(32)
            },
        }
    }
}

impl IndexBackwardNot for UnsignedChunk<u32> {
    fn last_not(&self) -> (r: Option<u8>) {
        proof {
            lemma_bits_u32_finite(self.0);
            assert(!self.contents().contains(255u8));
        }
        Some(255)
    }

    fn next_before_not(&self, current: u8) -> (r: Option<u8>) {
        if current > 32 {
            proof {
                lemma_bits_u32_finite(self.0);
                assert(!self.contents().contains((current - 1) as u8));
            }
            return Some(current - 1);
        }
        proof {
            lemma_bitwise_u32(self.0, self.0);
        }
        if current == 32 {
            let r = Self::highest_u32(!self.0);
            proof {
                assert(bits_u32(!self.0) =~= below(self.contents().complement(), current));
            }
            return r;
        }
        proof {
            lemma_single_u32(!self.0, current);
            assert(bits_u32(!self.0).filter(|j: u8| j < current) =~= below(self.contents().complement(), current));
        }
        let masked = !self.0 & ((1u32 << (current as u32)) - 1);
        Self::highest_u32(masked)
    }
}

impl IndexOrderedNot for UnsignedChunk<u32> {}

impl UnsignedChunk<u32> {
    /// A chunk of this word has `32` bits.
    pub proof fn lemma_bits()
        ensures
            <Self as IndexChunk>::BITS == 32,
    {
    }
}

impl UnsignedChunk<u32> {
    /// The indexes absent from the chunk are exactly as many as its negated length counts.
    pub proof fn lemma_complement_len(&self)
        ensures
            self.contents().complement().finite(),
            self.contents().complement().len() + self.count() == 0x100,
    {
        lemma_bits_u32_finite(self.0);
        <u8 as vstd::set_lib::FiniteRange>::range_properties(0, 255);
        let full = Set::<u8>::range(0, 255).insert(255);
        assert(self.contents().complement() =~= full.difference(self.contents()));
        vstd::set_lib::lemma_set_difference_len(full, self.contents());
        assert(full.intersect(self.contents()) =~= self.contents());
        vstd::set_lib::lemma_set_subset_finite(full, full.difference(self.contents()));
    }
}

/// The bits set in `x`, as indexes.
pub open spec fn bits_u64(x: u64) -> Set<u8> {
    Set::new(|i: u8| i < 64 && (x >> (i as u64)) & 1u64 == 1u64)
}

proof fn lemma_bits_u64_finite(x: u64)
    ensures
        bits_u64(x).finite(),
        bits_u64(x).subset_of(chunk_domain::<u8>(64)),
{
    <u8 as vstd::set_lib::FiniteFull>::full_properties();
    assert(bits_u64(x).subset_of(Set::<u8>::full()));
    vstd::set_lib::lemma_set_subset_finite(Set::<u8>::full(), bits_u64(x));
}

spec fn bit_u64(x: u64, i: u8) -> bool {
    (x >> (i as u64)) & 1u64 == 1u64
}

spec fn bitwise_facts_u64(a: u64, b: u64, i: u8) -> bool {
    &&& bit_u64(a & b, i) == (bit_u64(a, i) && bit_u64(b, i))
    &&& bit_u64(a | b, i) == (bit_u64(a, i) || bit_u64(b, i))
    &&& bit_u64(a ^ b, i) == (bit_u64(a, i) != bit_u64(b, i))
    &&& bit_u64(a & !b, i) == (bit_u64(a, i) && !bit_u64(b, i))
    &&& bit_u64(!a, i) == !bit_u64(a, i)
    &&& !bit_u64(0, i)
}

proof fn lemma_bitwise_u64(a: u64, b: u64)
    ensures
        bits_u64(a & b) == bits_u64(a).intersect(bits_u64(b)),
        bits_u64(a | b) == bits_u64(a).union(bits_u64(b)),
        bits_u64(a ^ b) == symmetric(bits_u64(a), bits_u64(b)),
        bits_u64(a & !b) == bits_u64(a).difference(bits_u64(b)),
        bits_u64(!a) == chunk_domain::<u8>(64).difference(bits_u64(a)),
        bits_u64(0) == Set::<u8>::empty(),
{
    assert forall|i: u8| i < 64 implies #[trigger] bitwise_facts_u64(a, b, i) by {
        let s = i as u64;
        assert(s < 64 ==> {
            &&& ((a & b) >> s) & 1 == 1 <==> ((a >> s) & 1 == 1 && (b >> s) & 1 == 1)
            &&& ((a | b) >> s) & 1 == 1 <==> ((a >> s) & 1 == 1 || (b >> s) & 1 == 1)
            &&& ((a ^ b) >> s) & 1 == 1 <==> ((a >> s) & 1 == 1) != ((b >> s) & 1 == 1)
            &&& ((a & !b) >> s) & 1 == 1 <==> ((a >> s) & 1 == 1 && (b >> s) & 1 != 1)
            &&& ((!a) >> s) & 1 == 1 <==> (a >> s) & 1 != 1
            &&& (0u64 >> s) & 1 != 1
        }) by (bit_vector);
    }
    assert forall|i: u8| #[trigger] bits_u64(a & b).contains(i) == bits_u64(a).intersect(bits_u64(b)).contains(i) by {
        if i < 64 {
            assert(bitwise_facts_u64(a, b, i));
        }
    }
    assert(bits_u64(a & b) =~= bits_u64(a).intersect(bits_u64(b)));
    assert forall|i: u8| #[trigger] bits_u64(a | b).contains(i) == bits_u64(a).union(bits_u64(b)).contains(i) by {
        if i < 64 {
            assert(bitwise_facts_u64(a, b, i));
        }
    }
    assert(bits_u64(a | b) =~= bits_u64(a).union(bits_u64(b)));
    assert forall|i: u8| #[trigger] bits_u64(a ^ b).contains(i) == symmetric(bits_u64(a), bits_u64(b)).contains(i) by {
        if i < 64 {
            assert(bitwise_facts_u64(a, b, i));
        }
    }
    assert(bits_u64(a ^ b) =~= symmetric(bits_u64(a), bits_u64(b)));
    assert forall|i: u8| #[trigger] bits_u64(a & !b).contains(i) == bits_u64(a).difference(bits_u64(b)).contains(i) by {
        if i < 64 {
            assert(bitwise_facts_u64(a, b, i));
        }
    }
    assert(bits_u64(a & !b) =~= bits_u64(a).difference(bits_u64(b)));
    assert forall|i: u8| #[trigger] bits_u64(!a).contains(i) == chunk_domain::<u8>(64).difference(bits_u64(a)).contains(i) by {
        if i < 64 {
            assert(bitwise_facts_u64(a, b, i));
        }
    }
    assert(bits_u64(!a) =~= chunk_domain::<u8>(64).difference(bits_u64(a)));
    assert forall|i: u8| #[trigger] bits_u64(0).contains(i) == Set::<u8>::empty().contains(i) by {
        if i < 64 {
            assert(bitwise_facts_u64(a, b, i));
        }
    }
    assert(bits_u64(0) =~= Set::<u8>::empty());
}

spec fn single_facts_u64(x: u64, n: u8, i: u8) -> bool {
    let m = n as u64;
    &&& bit_u64(x | (1u64 << m), i) == (bit_u64(x, i) || i == n)
    &&& bit_u64(x & !(1u64 << m), i) == (bit_u64(x, i) && i != n)
    &&& bit_u64(x & !(((1u64 << m) - 1) as u64), i) == (bit_u64(x, i) && n <= i)
    &&& bit_u64(x & (((1u64 << m) - 1) as u64), i) == (bit_u64(x, i) && i < n)
}

proof fn lemma_single_u64(x: u64, n: u8)
    requires
        n < 64,
    ensures
        bits_u64(x | (1u64 << (n as u64))) == bits_u64(x).insert(n),
        bits_u64(x & !(1u64 << (n as u64))) == bits_u64(x).remove(n),
        (x & (1u64 << (n as u64)) != 0) == bits_u64(x).contains(n),
        bits_u64(x & !(((1u64 << (n as u64)) - 1) as u64)) == bits_u64(x).filter(|j: u8| n <= j),
        bits_u64(x & (((1u64 << (n as u64)) - 1) as u64)) == bits_u64(x).filter(|j: u8| j < n),
        (1u64 << (n as u64)) >= 1,
{
    let m = n as u64;
    assert(m < 64 ==> (x & (1u64 << m) != 0) == ((x >> m) & 1 == 1) && (1u64 << m) >= 1) by (bit_vector);
    assert forall|i: u8| i < 64 implies #[trigger] single_facts_u64(x, n, i) by {
        let s = i as u64;
        assert(s < 64 && m < 64 ==> {
            &&& ((x | (1u64 << m)) >> s) & 1 == 1 <==> ((x >> s) & 1 == 1 || s == m)
            &&& ((x & !(1u64 << m)) >> s) & 1 == 1 <==> ((x >> s) & 1 == 1 && s != m)
            &&& ((x & !(((1u64 << m) - 1) as u64)) >> s) & 1 == 1 <==> ((x >> s) & 1 == 1 && m <= s)
            &&& ((x & (((1u64 << m) - 1) as u64)) >> s) & 1 == 1 <==> ((x >> s) & 1 == 1 && s < m)
        }) by (bit_vector);
    }
    assert forall|i: u8| #[trigger] bits_u64(x | (1u64 << m)).contains(i) == bits_u64(x).insert(n).contains(i) by {
        if i < 64 {
            assert(single_facts_u64(x, n, i));
        }
    }
    assert(bits_u64(x | (1u64 << m)) =~= bits_u64(x).insert(n));
    assert forall|i: u8| #[trigger] bits_u64(x & !(1u64 << m)).contains(i) == bits_u64(x).remove(n).contains(i) by {
        if i < 64 {
            assert(single_facts_u64(x, n, i));
        }
    }
    assert(bits_u64(x & !(1u64 << m)) =~= bits_u64(x).remove(n));
    assert forall|i: u8| #[trigger] bits_u64(x & !(((1u64 << m) - 1) as u64)).contains(i) == bits_u64(x).filter(|j: u8| n <= j).contains(i) by {
        if i < 64 {
            assert(single_facts_u64(x, n, i));
        }
    }
    assert(bits_u64(x & !(((1u64 << m) - 1) as u64)) =~= bits_u64(x).filter(|j: u8| n <= j));
    assert forall|i: u8| #[trigger] bits_u64(x & (((1u64 << m) - 1) as u64)).contains(i) == bits_u64(x).filter(|j: u8| j < n).contains(i) by {
        if i < 64 {
            assert(single_facts_u64(x, n, i));
        }
    }
    assert(bits_u64(x & (((1u64 << m) - 1) as u64)) =~= bits_u64(x).filter(|j: u8| j < n));
}

/// The number of indexes in the chunk `x`: its one bits, counted one bit at a time.
fn count_ones_u64(x: u64) -> (r: u32)
    ensures
        r as nat == bits_u64(x).len(),
{
    let mut n: u32 = 0;
    let mut i: u8 = 0;
    proof {
        lemma_bits_u64_finite(x);
        assert(bits_u64(x).filter(|j: u8| j < 0u8) =~= Set::<u8>::empty());
    }
    while i < 64
        invariant
            i <= 64,
            n <= i,
            bits_u64(x).finite(),
            n as nat == bits_u64(x).filter(|j: u8| j < i).len(),
        decreases 64 - i,
    {
        let ghost before = bits_u64(x).filter(|j: u8| j < i);
        proof {
            vstd::set_lib::lemma_set_subset_finite(bits_u64(x), before);
        }
        if (x >> (i as u64)) & 1u64 == 1u64 {
            proof {
                assert(bits_u64(x).filter(|j: u8| j < (i + 1) as u8) =~= before.insert(i));
            }
            n = n + 1;
        } else {
            proof {
                assert(bits_u64(x).filter(|j: u8| j < (i + 1) as u8) =~= before);
            }
        }
        i = i + 1;
    }
    proof {
        assert(bits_u64(x).filter(|j: u8| j < 64) =~= bits_u64(x));
    }
    n
}

impl UnsignedChunk<u64> {
    /// Lowest set bit of `x`, if any.
    fn lowest_u64(x: u64) -> (r: Option<u8>)
        ensures
            least(bits_u64(x), r),
    {
        proof {
            vstd::std_specs::bits::axiom_u64_trailing_zeros(x);
        }
        let zeros = x.trailing_zeros();
        if zeros < 64 {
            proof {
                assert forall|j: u8| #[trigger] bits_u64(x).contains(j) implies zeros <= j by {
                    if j < zeros {
                        assert((x >> (j as u64)) & 1u64 == 0u64);
                    }
                }
            }
            Some(zeros as u8)
        } else {
            proof {
                lemma_bitwise_u64(x, x);
            }
            None
        }
    }

    /// Highest set bit of `x`, if any.
    fn highest_u64(x: u64) -> (r: Option<u8>)
        ensures
            greatest(bits_u64(x), r),
    {
        proof {
            vstd::std_specs::bits::axiom_u64_leading_zeros(x);
        }
        let zeros = x.leading_zeros();
        if zeros < 64 {
            let top = (63 - zeros) as u8;
            proof {
                assert((x >> (top as u64)) & 1u64 == 1u64) by {
                    let t = top as u64;
                    assert((x >> t) & 1u64 != 0u64 ==> (x >> t) & 1u64 == 1u64) by (bit_vector);
                }
                assert forall|j: u8| #[trigger] bits_u64(x).contains(j) implies j <= top by {
                    if j > top {
                        assert((x >> (j as u64)) & 1u64 == 0u64);
                    }
                }
            }
            Some(top)
        } else {
            proof {
                lemma_bitwise_u64(x, x);
            }
            None
        }
    }
}

impl IndexView for UnsignedChunk<u64> {
    type Index = u8;

    open spec fn wf(&self) -> bool {
        true
    }

    open spec fn contents(&self) -> Set<u8> {
        bits_u64(self.0)
    }

    open spec fn count(&self) -> nat {
        bits_u64(self.0).len()
    }

    fn is_empty(&self) -> (r: bool) {
        proof {
            lemma_bitwise_u64(self.0, self.0);
            lemma_bits_u64_finite(self.0);
            if self.0 != 0 {
                Self::lemma_nonzero_u64(self.0);
            }
        }
        self.0 == 0
    }

    fn len(&self) -> (r: usize) {
        proof {
            lemma_bits_u64_finite(self.0);
            vstd::set_lib::lemma_len_subset(bits_u64(self.0), Set::<u8>::range(0, 64));
            assert(bits_u64(self.0).subset_of(Set::<u8>::range(0, 64)));
        }
        count_ones_u64(self.0) as usize
    }

    fn contains(&self, index: u8) -> (r: bool) {
        if index >= 64 {
            return false;
        }
        proof {
            lemma_single_u64(self.0, index);
        }
        (self.0 & (1u64 << (index as u64))) != 0
    }
}

impl UnsignedChunk<u64> {
    proof fn lemma_nonzero_u64(x: u64)
        requires
            x != 0,
        ensures
            bits_u64(x).len() > 0,
    {
        vstd::std_specs::bits::axiom_u64_trailing_zeros(x);
        let t = x.trailing_zeros() as u8;
        lemma_bits_u64_finite(x);
        assert(bits_u64(x).contains(t));
    }
}

impl IndexCollection for UnsignedChunk<u64> {
    open spec fn spec_span() -> (Bound<u8>, Bound<u8>) {
        (Bound::Included(0), Bound::Excluded(64))
    }

    open spec fn constructible() -> bool {
        true
    }

    fn span() -> (r: (Bound<u8>, Bound<u8>)) {
        (Bound::Included(0), Bound::Excluded(64))
    }

    fn new() -> (r: Self) {
        proof {
            lemma_bitwise_u64(0, 0);
        }
        UnsignedChunk(0)
    }

    fn with_span(range: (Bound<u8>, Bound<u8>)) -> (r: Self) {
        Self::new()
    }
}

impl IndexStore for UnsignedChunk<u64> {
    type InsertionError = Never;

    open spec fn admits(index: u8) -> bool {
        index < 64
    }

    open spec fn infallible() -> bool {
        true
    }

    proof fn lemma_count(&self) {
        lemma_bits_u64_finite(self.0);
    }

    fn clear(&mut self) {
        proof {
            lemma_bitwise_u64(0, 0);
        }
        self.0 = 0;
    }

    fn insert(&mut self, index: u8) -> (r: Result<bool, Never>) {
        proof {
            lemma_single_u64(self.0, index);
        }
        let mask: u64 = 1u64 << (index as u64);
        let existed = (self.0 & mask) != 0;
        self.0 = self.0 | mask;
        Ok(!existed)
    }

    fn remove(&mut self, index: u8) -> (r: bool) {
        if index >= 64 {
            proof {
                lemma_bits_u64_finite(self.0);
                assert(self.contents().remove(index) =~= self.contents());
            }
            return false;
        }
        proof {
            lemma_single_u64(self.0, index);
        }
        let mask: u64 = 1u64 << (index as u64);
        let existed = (self.0 & mask) != 0;
        self.0 = self.0 & !mask;
        existed
    }
}

impl IndexVault for UnsignedChunk<u64> {}

impl IndexForward for UnsignedChunk<u64> {
    fn first(&self) -> (r: Option<u8>) {
        Self::lowest_u64(self.0)
    }

    fn next_after(&self, current: u8) -> (r: Option<u8>) {
        if current >= 63 {
            proof {
                lemma_bits_u64_finite(self.0);
                assert forall|j: u8| !#[trigger] above(self.contents(), current).contains(j) by {
                    assert(self.contents().contains(j) ==> j < 64);
                }
            }
            return None;
        }
        let next = current + 1;
        proof {
            lemma_single_u64(self.0, next);
            assert(bits_u64(self.0).filter(|j: u8| next <= j) =~= above(self.contents(), current));
        }
        let masked = self.0 & !((1u64 << (next as u64)) - 1);
        Self::lowest_u64(masked)
    }
}

impl IndexBackward for UnsignedChunk<u64> {
    fn last(&self) -> (r: Option<u8>) {
        Self::highest_u64(self.0)
    }

    fn next_before(&self, current: u8) -> (r: Option<u8>) {
        if current >= 64 {
            proof {
                lemma_bits_u64_finite(self.0);
                assert(below(self.contents(), current) =~= self.contents());
            }
            return Self::highest_u64(self.0);
        }
        proof {
            lemma_single_u64(self.0, current);
            assert(bits_u64(self.0).filter(|j: u8| j < current) =~= below(self.contents(), current));
        }
        let masked = self.0 & ((1u64 << (current as u64)) - 1);
        Self::highest_u64(masked)
    }
}

impl IndexOrdered for UnsignedChunk<u64> {}

impl IndexChunk for UnsignedChunk<u64> {
    const BITS: u32 = 64;

    proof fn lemma_domain(&self) {
        lemma_bits_u64_finite(self.0);
    }

    proof fn lemma_domain_len() {
        <u8 as vstd::set_lib::FiniteRange>::range_properties(0, 64);
        assert(chunk_domain::<u8>(64) =~= Set::<u8>::range(0, 64));
    }

    open spec fn inverse_of(self, other: Self) -> bool {
        self.0 == !other.0
    }

    proof fn lemma_inverse_symmetric(a: Self, b: Self) {
        let (x, y) = (a.0, b.0);
        assert((x == !y) == (y == !x)) by (bit_vector);
    }

    proof fn lemma_inverse_unique(a: Self, b: Self, c: Self) {
    }

    fn bitand(self, other: Self) -> (r: Self) {
        proof {
            lemma_bitwise_u64(self.0, other.0);
        }
        UnsignedChunk(self.0 & other.0)
    }

    fn bitor(self, other: Self) -> (r: Self) {
        proof {
            lemma_bitwise_u64(self.0, other.0);
        }
        UnsignedChunk(self.0 | other.0)
    }

    fn bitxor(self, other: Self) -> (r: Self) {
        proof {
            lemma_bitwise_u64(self.0, other.0);
        }
        UnsignedChunk(self.0 ^ other.0)
    }

    fn sub(self, other: Self) -> (r: Self) {
        proof {
            lemma_bitwise_u64(self.0, other.0);
        }
        UnsignedChunk(self.0 & !other.0)
    }

    fn bitand_assign(&mut self, other: Self) {
        proof {
            lemma_bitwise_u64(self.0, other.0);
        }
        self.0 = self.0 & other.0;
    }

    fn bitor_assign(&mut self, other: Self) {
        proof {
            lemma_bitwise_u64(self.0, other.0);
        }
        self.0 = self.0 | other.0;
    }

    fn bitxor_assign(&mut self, other: Self) {
        proof {
            lemma_bitwise_u64(self.0, other.0);
        }
        self.0 = self.0 ^ other.0;
    }

    fn sub_assign(&mut self, other: Self) {
        proof {
            lemma_bitwise_u64(self.0, other.0);
        }
        self.0 = self.0 & !other.0;
    }

    fn not(self) -> (r: Self) {
        proof {
            lemma_bitwise_u64(self.0, self.0);
        }
        UnsignedChunk(!self.0)
    }
}

/// The negated chunk ranges over every `u8` index, as its traversal does.
impl IndexViewNot for UnsignedChunk<u64> {
    open spec fn capacity(&self) -> nat {
        0x100
    }

    proof fn lemma_capacity(&self) {
        lemma_bits_u64_finite(self.0);
        assert(bits_u64(self.0).subset_of(Set::<u8>::range(0, 64)));
        vstd::set_lib::lemma_len_subset(bits_u64(self.0), Set::<u8>::range(0, 64));
        <u8 as vstd::set_lib::FiniteRange>::range_properties(0, 64);
    }

    fn len_not(&self) -> (r: usize) {
        proof {
            lemma_bits_u64_finite(self.0);
            assert(bits_u64(self.0).subset_of(Set::<u8>::range(0, 64)));
            vstd::set_lib::lemma_len_subset(bits_u64(self.0), Set::<u8>::range(0, 64));
            <u8 as vstd::set_lib::FiniteRange>::range_properties(0, 64);
        }
        let n = count_ones_u64(self.0);
        (0x100 - n) as usize
    }
}

impl IndexForwardNot for UnsignedChunk<u64> {
    fn first_not(&self) -> (r: Option<u8>) {
        proof {
            lemma_bitwise_u64(self.0, self.0);
        }
        let low = Self::lowest_u64(!self.0);
        match low {
            Some(i) => {
                proof {
                    assert forall|j: u8| #[trigger] self.contents().complement().contains(j) implies i <= j by {
                        if j < 64 {
                            assert(bits_u64(!self.0).contains(j));
                        }
                    }
                }
                Some(i)
            },
            None => {
                proof {
                    assert(!bits_u64(!self.0).contains(64 as u8));
                    assert forall|j: u8| #[trigger] self.contents().complement().contains(j) implies 64
                        <= j by {
                        if j < 64 {
                            assert(bits_u64(!self.0).contains(j));
                        }
                    }
                }
                Some(64)
            },
        }
    }

    fn next_after_not(&self, current: u8) -> (r: Option<u8>) {
        if current >= 63 {
            if current == 255 {
                proof {
                    assert forall|j: u8| !#[trigger] above(self.contents().complement(), current).contains(j) by {
                    }
                }
                return None;
            }
            proof {
                lemma_bits_u64_finite(self.0);
                assert(!self.contents().contains((current + 1) as u8));
            }
            return Some(current + 1);
        }
        let next = current + 1;
        proof {
            lemma_bitwise_u64(self.0, self.0);
            lemma_single_u64(!self.0, next);
            assert(bits_u64(!self.0).filter(|j: u8| next <= j) =~= above(self.contents().complement(), current).filter(
                |j: u8| j < 64,
            ));
        }
        let masked = !self.0 & !((1u64 << (next as u64)) - 1);
        match Self::lowest_u64(masked) {
            Some(i) => {
                proof {
                    assert forall|j: u8| #[trigger] above(self.contents().complement(), current).contains(j) implies i
                        <= j by {
                        if j < 64 {
                            assert(bits_u64(!self.0).filter(|j: u8| next <= j).contains(j));
                        }
                    }
                }
                Some(i)
            },
            None => {
                proof {
                    assert forall|j: u8| #[trigger] above(self.contents().complement(), current).contains(j) implies 64
                        <= j by {
                        if j < 64 {
                            assert(bits_u64(!self.0).filter(|j: u8| next <= j).contains(j));
                        }
                    }
                    assert(above(self.contents().complement(), current).contains(64 as u8));
                }
                Some(64)
            },
        }
    }
}

impl IndexBackwardNot for UnsignedChunk<u64> {
    fn last_not(&self) -> (r: Option<u8>) {
        proof {
            lemma_bits_u64_finite(self.0);
            assert(!self.contents().contains(255u8));
        }
        Some(255)
    }

    fn next_before_not(&self, current: u8) -> (r: Option<u8>) {
        if current > 64 {
            proof {
                lemma_bits_u64_finite(self.0);
                assert(!self.contents().contains((current - 1) as u8));
            }
            return Some(current - 1);
        }
        proof {
            lemma_bitwise_u64(self.0, self.0);
        }
        if current == 64 {
            let r = Self::highest_u64(!self.0);
            proof {
                assert(bits_u64(!self.0) =~= below(self.contents().complement(), current));
            }
            return r;
        }
        proof {
            lemma_single_u64(!self.0, current);
            assert(bits_u64(!self.0).filter(|j: u8| j < current) =~= below(self.contents().complement(), current));
        }
        let masked = !self.0 & ((1u64 << (current as u64)) - 1);
        Self::highest_u64(masked)
    }
}

impl IndexOrderedNot for UnsignedChunk<u64> {}

impl UnsignedChunk<u64> {
    /// A chunk of this word has `64` bits.
    pub proof fn lemma_bits()
        ensures
            <Self as IndexChunk>::BITS == 64,
    {
    }
}

impl UnsignedChunk<u64> {
    /// The indexes absent from the chunk are exactly as many as its negated length counts.
    pub proof fn lemma_complement_len(&self)
        ensures
            self.contents().complement().finite(),
            self.contents().complement().len() + self.count() == 0x100,
    {
        lemma_bits_u64_finite(self.0);
        <u8 as vstd::set_lib::FiniteRange>::range_properties(0, 255);
        let full = Set::<u8>::range(0, 255).insert(255);
        assert(self.contents().complement() =~= full.difference(self.contents()));
        vstd::set_lib::lemma_set_difference_len(full, self.contents());
        assert(full.intersect(self.contents()) =~= self.contents());
        vstd::set_lib::lemma_set_subset_finite(full, full.difference(self.contents()));
    }
}

} // verus!
