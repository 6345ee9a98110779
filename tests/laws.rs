use index_set::chunk::{ArrayChunk, UnsignedChunk};
use index_set::index::{IndexBackward, IndexCollection, IndexForward, IndexStore, IndexView, IndexViewChunked};
use index_set::not::{IndexViewNot, NotView};
use index_set::set::{IndexOrdSet, IndexSet};
use index_set::vault::DynamicChunkStore;

type Ordered = IndexOrdSet<UnsignedChunk<u64>>;
type Store = DynamicChunkStore<ArrayChunk<UnsignedChunk<u8>, 4>>;

fn ordered(indexes: &[u8]) -> Ordered {
    let mut set = Ordered::new();
    set.extend(indexes);
    set
}

fn collect(mut next: impl FnMut() -> Option<u8>) -> Vec<u8> {
    let mut out = Vec::new();
    while let Some(i) = next() {
        out.push(i);
    }
    out
}

#[test]
fn primes_and_evens_algebra() {
    let primes = ordered(&[1, 2, 3, 5]);
    let evens = ordered(&[2, 4, 6, 8]);
    let mut it = primes.intersection(&evens);
    assert_eq!(collect(|| it.next()), vec![2]);
    let mut it = primes.union(&evens);
    assert_eq!(collect(|| it.next()), vec![1, 2, 3, 4, 5, 6, 8]);
    let mut it = primes.difference(&evens);
    assert_eq!(collect(|| it.next()), vec![1, 3, 5]);
    let mut it = primes.symmetric_difference(&evens);
    assert_eq!(collect(|| it.next()), vec![1, 3, 4, 5, 6, 8]);
}

#[test]
fn set_algebra_identities_on_values() {
    let a = IndexSet::<UnsignedChunk<u64>>::new();
    let mut a = a;
    a.extend(&[1, 9, 17, 40]);
    let mut b = IndexSet::<UnsignedChunk<u64>>::new();
    b.extend(&[9, 10, 40, 63]);
    let mut ab = collect({
        let mut it = a.intersection(&b);
        move || it.next()
    });
    let mut ba = collect({
        let mut it = b.intersection(&a);
        move || it.next()
    });
    ab.sort();
    ba.sort();
    assert_eq!(ab, ba);
    let mut union_ab = collect({
        let mut it = a.union(&b);
        move || it.next()
    });
    let mut union_ba = collect({
        let mut it = b.union(&a);
        move || it.next()
    });
    union_ab.sort();
    union_ba.sort();
    assert_eq!(union_ab, union_ba);
    let diff = collect({
        let mut it = a.difference(&b);
        move || it.next()
    });
    assert!(diff.iter().all(|i| !b.contains(*i)));
    let mut sym = collect({
        let mut it = a.symmetric_difference(&b);
        move || it.next()
    });
    sym.sort();
    let expected: Vec<u8> = union_ab.iter().copied().filter(|i| !ab.contains(i)).collect();
    assert_eq!(sym, expected);
    assert!(a.is_subset(&a) && a.is_superset(&a));
    assert_eq!(a.is_disjoint(&b), ab.is_empty());
}

#[test]
fn idempotent_insert_and_absent_remove() {
    let mut set = ordered(&[4, 7]);
    let before = *set.as_store();
    assert_eq!(set.insert(7), Ok(false));
    assert_eq!(*set.as_store(), before);
    assert!(!set.remove(5));
    assert_eq!(*set.as_store(), before);
}

#[test]
fn traversals_agree() {
    let mut store = Store::new();
    for i in [0u64, 31, 32, 95, 1000, 4095, 70_000] {
        store.insert(i).unwrap();
    }
    let mut forward = Vec::new();
    let mut cursor = store.first();
    while let Some(i) = cursor {
        assert!(store.contains(i));
        forward.push(i);
        cursor = store.next_after(i);
    }
    let mut backward = Vec::new();
    let mut cursor = store.last();
    while let Some(i) = cursor {
        backward.push(i);
        cursor = store.next_before(i);
    }
    assert_eq!(forward.len(), store.len());
    backward.reverse();
    assert_eq!(forward, backward);
    assert_eq!(forward, vec![0, 31, 32, 95, 1000, 4095, 70_000]);
}

#[test]
fn split_then_fuse_round_trips() {
    for i in [0u64, 1, 31, 32, 33, 127, 128, 1 << 20, (1 << 40) + 5] {
        let (outer, inner) = Store::split(i);
        assert_eq!(Store::fuse(outer, inner), i);
    }
}

#[test]
fn negation_complements() {
    let mut chunk = UnsignedChunk::<u64>::new();
    for i in [0u8, 5, 63] {
        chunk.insert(i).unwrap();
    }
    let not = NotView::new(chunk);
    for i in 0u8..=255 {
        assert_eq!(not.contains(i), !chunk.contains(i));
    }
    assert_eq!(not.len() + chunk.len(), 256);
    let mut array = ArrayChunk::<UnsignedChunk<u8>, 3>::new();
    array.insert(20).unwrap();
    assert_eq!(array.len_not() + array.len(), 65536);
}

#[test]
fn drain_empties_even_when_partly_consumed() {
    let mut set = ordered(&[3, 9, 12]);
    {
        let mut drain = set.drain();
        assert_eq!(drain.next(), Some(3));
    }
    assert!(set.is_empty());
    assert_eq!(set.len(), 0);
    let mut set = ordered(&[3, 9, 12]);
    drop(set.drain());
    assert!(!set.contains(9));
}

#[test]
fn iterators_skip_with_nth() {
    let set = ordered(&[1, 2, 3, 5]);
    let mut it = set.iter();
    assert_eq!(it.nth(1), Some(2));
    assert_eq!(it.next(), Some(3));
    assert_eq!(it.nth(0), Some(5));
    assert_eq!(it.nth(0), None);

    let mut it = set.iter();
    assert_eq!(it.nth(5), None);
    assert_eq!(it.next(), None);

    let mut it = set.iter_rev();
    assert_eq!(it.nth(1), Some(3));
    assert_eq!(it.next(), Some(2));

    let mut it = set.clone().into_iter();
    assert_eq!(it.nth(3), Some(5));
    assert_eq!(it.next(), None);

    let mut it = set.clone().into_iter_rev();
    assert_eq!(it.nth(2), Some(2));
    assert_eq!(it.next(), Some(1));

    let mut copy = set.clone();
    let mut drain = copy.drain();
    assert_eq!(drain.nth(2), Some(3));
    assert_eq!(drain.next(), Some(5));
    drop(drain);
    assert!(copy.is_empty());
}

#[test]
fn set_valued_bitwise_operations() {
    let primes = ordered(&[1, 2, 3, 5]);
    let evens = ordered(&[2, 4, 6, 8]);
    let both = primes.clone().bitand(&evens);
    assert!(both.contains(2) && both.len() == 1);
    let either = primes.clone().bitor(&evens);
    assert_eq!(either.len(), 7);
    let only = primes.clone().sub(&evens);
    assert!(only.contains(1) && only.contains(3) && only.contains(5) && only.len() == 3);
    let one = primes.clone().bitxor(&evens);
    let mut out = Vec::new();
    let mut it = one.iter();
    while let Some(i) = it.next() {
        out.push(i);
    }
    assert_eq!(out, vec![1, 3, 4, 5, 6, 8]);
}

#[test]
fn iterators_report_exact_length() {
    let set = ordered(&[1, 2, 3, 5]);
    let mut it = set.iter();
    assert_eq!(it.len(), 4);
    it.next();
    assert_eq!(it.len(), 3);
    it.nth(1);
    assert_eq!(it.len(), 1);
    it.next();
    assert_eq!(it.len(), 0);
    let mut it = set.iter_rev();
    it.next();
    assert_eq!(it.len(), 3);
}

#[test]
fn owning_iterators_report_exact_length() {
    let set = ordered(&[1, 2, 3, 5]);
    let mut it = set.clone().into_iter();
    it.next();
    assert_eq!(it.len(), 3);
    let mut it = set.clone().into_iter_rev();
    assert_eq!(it.len(), 4);
    it.nth(3);
    assert_eq!(it.len(), 0);
    let mut copy = set.clone();
    let mut drain = copy.drain();
    drain.next();
    assert_eq!(drain.len(), 3);
}
