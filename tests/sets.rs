use index_set::chunk::{ArrayChunk, UnsignedChunk};
use index_set::index::{IndexForward, IndexStore, IndexView};
use index_set::set::{Entry, IndexOrdSet, IndexSet};

type Plain = IndexSet<UnsignedChunk<u64>>;
type Ordered = IndexOrdSet<UnsignedChunk<u64>>;
type Chunked = IndexOrdSet<ArrayChunk<UnsignedChunk<u8>, 2>>;

const EMPTY: [u8; 0] = [];
const PRIMES: [u8; 4] = [1, 2, 3, 5];
const EVENS: [u8; 4] = [2, 4, 6, 8];
const ODDS: [u8; 4] = [1, 3, 5, 7];
const EVEN_PRIMES: [u8; 1] = [2];
const ODD_PRIMES: [u8; 3] = [1, 3, 5];
const SOME: [u8; 7] = [1, 2, 3, 5, 7, 11, 13];

fn plain(indexes: &[u8]) -> Plain {
    let mut set = Plain::new();
    set.extend(indexes);
    set
}

fn ordered(indexes: &[u8]) -> Ordered {
    let mut set = Ordered::new();
    set.extend(indexes);
    set
}

fn chunked(indexes: &[u8]) -> Chunked {
    let wide: Vec<u16> = indexes.iter().map(|i| *i as u16).collect();
    let mut set = Chunked::new();
    set.extend(&wide);
    set
}

fn wide(indexes: &[u8]) -> Vec<u16> {
    indexes.iter().map(|i| *i as u16).collect()
}

fn plain_items(set: &Plain) -> Vec<u8> {
    let mut out = Vec::new();
    let mut it = set.iter();
    while let Some(i) = it.next() {
        out.push(i);
    }
    out
}

fn ordered_items(set: &Ordered) -> Vec<u8> {
    let mut out = Vec::new();
    let mut it = set.iter();
    while let Some(i) = it.next() {
        out.push(i);
    }
    out
}

fn chunked_items(set: &Chunked) -> Vec<u16> {
    let mut out = Vec::new();
    let mut it = set.iter();
    while let Some(i) = it.next() {
        out.push(i);
    }
    out
}

fn drain_items<I: Copy>(mut next: impl FnMut() -> Option<I>) -> Vec<I> {
    let mut out = Vec::new();
    while let Some(i) = next() {
        out.push(i);
    }
    out
}

#[test]
fn entry_tests_entry() {
    let primes = plain(&PRIMES);
    let mut victim = primes.clone();
    assert!(matches!(victim.entry(1), Entry::Occupied(_)));
    assert_eq!(primes.as_store(), victim.as_store());
    assert!(matches!(victim.entry(4), Entry::Vacant(_)));
    assert_eq!(primes.as_store(), victim.as_store());
}

#[test]
fn entry_tests_entry_get() {
    let primes = plain(&PRIMES);
    let mut victim = primes.clone();
    assert_eq!(1, victim.entry(1).get());
    assert_eq!(primes.as_store(), victim.as_store());
    assert_eq!(4, victim.entry(4).get());
    assert_eq!(primes.as_store(), victim.as_store());
}

#[test]
fn entry_tests_entry_insert() {
    let primes = plain(&PRIMES);
    let mut victim = primes.clone();
    {
        let occupied = victim.entry(1).insert().unwrap();
        assert_eq!(1, occupied.get());
    }
    assert_eq!(primes.as_store(), victim.as_store());
    {
        let occupied = victim.entry(4).insert().unwrap();
        assert_eq!(4, occupied.get());
    }
    assert!(PRIMES.iter().all(|i| victim.contains(*i)));
    assert!(victim.contains(4));
}

#[test]
fn entry_tests_entry_or_insert() {
    let primes = plain(&PRIMES);
    let mut victim = primes.clone();
    victim.entry(1).or_insert().unwrap();
    assert_eq!(primes.as_store(), victim.as_store());
    victim.entry(4).or_insert().unwrap();
    assert!(PRIMES.iter().all(|i| victim.contains(*i)));
    assert!(victim.contains(4));
}

#[test]
fn entry_tests_occupied_get() {
    let primes = ordered(&PRIMES);
    let mut victim = primes.clone();
    assert_eq!(3, victim.entry(3).insert().unwrap().get());
    assert_eq!(primes.as_store(), victim.as_store());
}

#[test]
fn entry_tests_occupied_remove() {
    let primes = ordered(&PRIMES);
    let mut victim = primes.clone();
    assert_eq!(4, victim.entry(4).insert().unwrap().remove());
    assert_eq!(primes.as_store(), victim.as_store());
}

#[test]
fn entry_tests_vacant_get() {
    let primes = plain(&PRIMES);
    let mut victim = primes.clone();
    {
        let Entry::Vacant(vacant) = victim.entry(4) else {
            unreachable!()
        };
        assert_eq!(4, vacant.get());
    }
    assert_eq!(primes.as_store(), victim.as_store());
}

#[test]
fn entry_tests_vacant_into_value() {
    let primes = plain(&PRIMES);
    let mut victim = primes.clone();
    {
        let Entry::Vacant(vacant) = victim.entry(4) else {
            unreachable!()
        };
        assert_eq!(4, vacant.into_value());
    }
    assert_eq!(primes.as_store(), victim.as_store());
}

#[test]
fn entry_tests_vacant_insert() {
    let primes = plain(&PRIMES);
    let mut victim = primes.clone();
    {
        let Entry::Vacant(vacant) = victim.entry(4) else {
            unreachable!()
        };
        vacant.insert().unwrap();
    }
    assert!(PRIMES.iter().all(|i| victim.contains(*i)));
    assert!(victim.contains(4));
}

#[test]
fn individual_tests_contains() {
    let victim = plain(&EMPTY);
    assert!(!victim.contains(0));
    assert!(!victim.contains(1));
    let victim = plain(&SOME);
    assert!(!victim.contains(0));
    assert!(victim.contains(1));
}

#[test]
fn individual_tests_insert_remove() {
    let mut victim = Plain::new();
    for _ in 0..3 {
        assert!(!victim.contains(42));
        assert!(victim.insert(42).unwrap());
        assert!(!victim.insert(42).unwrap());
        assert!(!victim.insert(42).unwrap());
        assert!(victim.remove(42));
        assert!(!victim.remove(42));
        assert!(!victim.remove(42));
    }
}

#[test]
fn individual_tests_extend() {
    let mut victim = Plain::new();
    victim.extend(&EMPTY);
    assert!(victim.is_empty());
    assert!(!victim.contains(0));
    assert!(!victim.contains(1));

    let mut victim = Ordered::new();
    victim.extend(&SOME);
    assert!(!victim.is_empty());
    assert_eq!(SOME.len(), victim.len());
    assert!(!victim.contains(0));
    for index in SOME {
        assert!(victim.contains(index));
    }
}

#[test]
fn as_not() {
    let victim = IndexSet::<UnsignedChunk<u16>>::new();
    assert!(victim.as_not().contains(0));
    assert!(victim.as_not().contains(1));

    let mut victim = IndexSet::<UnsignedChunk<u16>>::new();
    victim.extend(&SOME);
    assert!(victim.as_not().contains(0));
    assert!(!victim.as_not().contains(1));
}

#[test]
fn not_tests_contains() {
    let victim = IndexOrdSet::<UnsignedChunk<u16>>::new();
    assert!(victim.as_not().contains(0));
    assert!(victim.as_not().contains(1));
    let mut victim = IndexOrdSet::<UnsignedChunk<u16>>::new();
    victim.extend(&SOME);
    assert!(victim.as_not().contains(0));
    assert!(!victim.as_not().contains(1));

    let victim = chunked(&EMPTY);
    assert!(victim.as_not().contains(0));
    assert!(victim.as_not().contains(1));
    let victim = chunked(&SOME);
    assert!(victim.as_not().contains(0));
    assert!(!victim.as_not().contains(1));
}

#[test]
fn store_tests_clear() {
    let mut victim = chunked(&SOME);
    victim.as_store_mut().clear();
    assert!(victim.is_empty());
    assert_eq!(0, victim.len());
}

#[test]
fn store_tests_insert_remove() {
    let mut victim = Ordered::new();
    for _ in 0..3 {
        assert!(!victim.as_store().contains(42));
        assert!(victim.as_store_mut().insert(42).unwrap());
        assert!(!victim.as_store_mut().insert(42).unwrap());
        assert!(victim.as_store_mut().remove(42));
        assert!(!victim.as_store_mut().remove(42));
    }
}

#[test]
fn store_tests_extend() {
    let mut victim = chunked(&EMPTY);
    assert!(victim.is_empty());
    victim.extend(&wide(&SOME));
    assert_eq!(SOME.len(), victim.len());
    assert!(!victim.contains(0));
    for index in SOME {
        assert!(victim.contains(index as u16));
    }
}

#[test]
fn view_tests_contains() {
    let victim = plain(&EMPTY);
    assert!(!victim.as_store().contains(0));
    assert!(!victim.as_store().contains(1));
    let victim = ordered(&SOME);
    assert!(!victim.as_store().contains(0));
    assert!(victim.as_store().contains(1));
    assert_eq!(victim.as_store().first(), Some(1));
}

#[test]
fn entry() {
    let primes = ordered(&PRIMES);
    let mut victim = primes.clone();
    assert!(matches!(victim.entry(1), Entry::Occupied(_)));
    assert_eq!(primes.as_store(), victim.as_store());
    assert!(matches!(victim.entry(4), Entry::Vacant(_)));
    assert_eq!(primes.as_store(), victim.as_store());
}

#[test]
fn entry_get() {
    let primes = ordered(&PRIMES);
    let mut victim = primes.clone();
    assert_eq!(1, victim.entry(1).get());
    assert_eq!(primes.as_store(), victim.as_store());
    assert_eq!(4, victim.entry(4).get());
    assert_eq!(primes.as_store(), victim.as_store());
}

#[test]
fn entry_insert() {
    let primes = ordered(&PRIMES);
    let mut victim = primes.clone();
    {
        let occupied = victim.entry(1).insert().unwrap();
        assert_eq!(1, occupied.get());
    }
    assert_eq!(primes.as_store(), victim.as_store());
    {
        let occupied = victim.entry(4).insert().unwrap();
        assert_eq!(4, occupied.get());
    }
    assert!(PRIMES.iter().all(|i| victim.contains(*i)));
    assert!(victim.contains(4));
}

#[test]
fn entry_or_insert() {
    let primes = ordered(&PRIMES);
    let mut victim = primes.clone();
    victim.entry(1).or_insert().unwrap();
    assert_eq!(primes.as_store(), victim.as_store());
    victim.entry(4).or_insert().unwrap();
    assert!(PRIMES.iter().all(|i| victim.contains(*i)));
    assert!(victim.contains(4));
}

#[test]
fn occupied_get() {
    let primes = plain(&PRIMES);
    let mut victim = primes.clone();
    assert_eq!(3, victim.entry(3).insert().unwrap().get());
    assert_eq!(primes.as_store(), victim.as_store());
}

#[test]
fn occupied_remove() {
    let primes = plain(&PRIMES);
    let mut victim = primes.clone();
    assert_eq!(4, victim.entry(4).insert().unwrap().remove());
    assert_eq!(primes.as_store(), victim.as_store());
}

#[test]
fn vacant_get() {
    let primes = ordered(&PRIMES);
    let mut victim = primes.clone();
    {
        let Entry::Vacant(vacant) = victim.entry(4) else {
            unreachable!()
        };
        assert_eq!(4, vacant.get());
    }
    assert_eq!(primes.as_store(), victim.as_store());
}

#[test]
fn vacant_into_value() {
    let primes = ordered(&PRIMES);
    let mut victim = primes.clone();
    {
        let Entry::Vacant(vacant) = victim.entry(4) else {
            unreachable!()
        };
        assert_eq!(4, vacant.into_value());
    }
    assert_eq!(primes.as_store(), victim.as_store());
}

#[test]
fn vacant_insert() {
    let primes = ordered(&PRIMES);
    let mut victim = primes.clone();
    {
        let Entry::Vacant(vacant) = victim.entry(4) else {
            unreachable!()
        };
        vacant.insert().unwrap();
    }
    assert!(PRIMES.iter().all(|i| victim.contains(*i)));
    assert!(victim.contains(4));
}

#[test]
fn contains() {
    let victim = ordered(&EMPTY);
    assert!(!victim.contains(0));
    assert!(!victim.contains(1));
    let victim = ordered(&SOME);
    assert!(!victim.contains(0));
    assert!(victim.contains(1));
}

#[test]
fn insert_remove() {
    let mut victim = Ordered::new();
    for _ in 0..3 {
        assert!(!victim.contains(42));
        assert!(victim.insert(42).unwrap());
        assert!(!victim.insert(42).unwrap());
        assert!(!victim.insert(42).unwrap());
        assert!(victim.remove(42));
        assert!(!victim.remove(42));
        assert!(!victim.remove(42));
    }
}

#[test]
fn extend() {
    let mut victim = Ordered::new();
    victim.extend(&EMPTY);
    assert!(victim.is_empty());
    assert!(!victim.contains(0));
    assert!(!victim.contains(1));

    let mut victim = Plain::new();
    victim.extend(&SOME);
    assert!(!victim.is_empty());
    assert_eq!(SOME.len(), victim.len());
    assert!(!victim.contains(0));
    for index in SOME {
        assert!(victim.contains(index));
    }
}

#[test]
fn basic_iteration_tests_forward_iter() {
    let set = plain(&PRIMES);
    let mut out = Vec::new();
    let mut it = set.iter();
    while let Some(i) = it.next() {
        out.push(i);
    }
    assert_eq!(out, PRIMES.to_vec());
}

#[test]
fn forward_iter() {
    let set = ordered(&PRIMES);
    let mut out = Vec::new();
    let mut it = set.iter();
    while let Some(i) = it.next() {
        out.push(i);
    }
    assert_eq!(out, PRIMES.to_vec());

    let set = chunked(&PRIMES);
    let mut out = Vec::new();
    let mut it = set.iter();
    while let Some(i) = it.next() {
        out.push(i);
    }
    assert_eq!(out, wide(&PRIMES.to_vec()));
}

#[test]
fn basic_iteration_tests_forward_into_iter() {
    let mut out = Vec::new();
    let mut it = plain(&PRIMES).into_iter();
    while let Some(i) = it.next() {
        out.push(i);
    }
    assert_eq!(out, PRIMES.to_vec());
}

#[test]
fn forward_into_iter() {
    let mut out = Vec::new();
    let mut it = ordered(&PRIMES).into_iter();
    while let Some(i) = it.next() {
        out.push(i);
    }
    assert_eq!(out, PRIMES.to_vec());

    let mut out = Vec::new();
    let mut it = chunked(&PRIMES).into_iter();
    while let Some(i) = it.next() {
        out.push(i);
    }
    assert_eq!(out, wide(&PRIMES.to_vec()));
}

#[test]
fn basic_iteration_tests_backward_iter() {
    let set = plain(&PRIMES);
    let mut out = Vec::new();
    let mut it = set.iter_rev();
    while let Some(i) = it.next() {
        out.push(i);
    }
    assert_eq!(out, PRIMES.iter().rev().copied().collect::<Vec<u8>>());
}

#[test]
fn backward_iter() {
    let set = ordered(&PRIMES);
    let mut out = Vec::new();
    let mut it = set.iter_rev();
    while let Some(i) = it.next() {
        out.push(i);
    }
    assert_eq!(out, PRIMES.iter().rev().copied().collect::<Vec<u8>>());

    let set = chunked(&PRIMES);
    let mut out = Vec::new();
    let mut it = set.iter_rev();
    while let Some(i) = it.next() {
        out.push(i);
    }
    assert_eq!(out, wide(&PRIMES.iter().rev().copied().collect::<Vec<u8>>()));
}

#[test]
fn basic_iteration_tests_backward_into_iter() {
    let mut out = Vec::new();
    let mut it = plain(&PRIMES).into_iter_rev();
    while let Some(i) = it.next() {
        out.push(i);
    }
    assert_eq!(out, PRIMES.iter().rev().copied().collect::<Vec<u8>>());
}

#[test]
fn backward_into_iter() {
    let mut out = Vec::new();
    let mut it = ordered(&PRIMES).into_iter_rev();
    while let Some(i) = it.next() {
        out.push(i);
    }
    assert_eq!(out, PRIMES.iter().rev().copied().collect::<Vec<u8>>());

    let mut out = Vec::new();
    let mut it = chunked(&PRIMES).into_iter_rev();
    while let Some(i) = it.next() {
        out.push(i);
    }
    assert_eq!(out, wide(&PRIMES.iter().rev().copied().collect::<Vec<u8>>()));
}

#[test]
fn bitwise_tests_bitand_assign() {
    let cases: [(&[u8], &[u8], &[u8]); 16] = [
        (&EMPTY, &EMPTY, &EMPTY),
        (&EMPTY, &PRIMES, &EMPTY),
        (&EMPTY, &EVENS, &EMPTY),
        (&EMPTY, &ODDS, &EMPTY),
        (&PRIMES, &EMPTY, &EMPTY),
        (&EVENS, &EMPTY, &EMPTY),
        (&ODDS, &EMPTY, &EMPTY),
        (&PRIMES, &PRIMES, &PRIMES),
        (&EVENS, &EVENS, &EVENS),
        (&ODDS, &ODDS, &ODDS),
        (&PRIMES, &EVENS, &EVEN_PRIMES),
        (&EVENS, &PRIMES, &EVEN_PRIMES),
        (&PRIMES, &ODDS, &ODD_PRIMES),
        (&ODDS, &PRIMES, &ODD_PRIMES),
        (&EVENS, &ODDS, &EMPTY),
        (&ODDS, &EVENS, &EMPTY),
    ];
    for (victim, other, expected) in cases {
        let mut set = plain(victim);
        set.bitand_assign(&plain(other));
        assert_eq!(plain_items(&set), expected.to_vec());
    }
}

#[test]
fn bitand_assign() {
    let cases: [(&[u8], &[u8], &[u8]); 16] = [
        (&EMPTY, &EMPTY, &EMPTY),
        (&EMPTY, &PRIMES, &EMPTY),
        (&EMPTY, &EVENS, &EMPTY),
        (&EMPTY, &ODDS, &EMPTY),
        (&PRIMES, &EMPTY, &EMPTY),
        (&EVENS, &EMPTY, &EMPTY),
        (&ODDS, &EMPTY, &EMPTY),
        (&PRIMES, &PRIMES, &PRIMES),
        (&EVENS, &EVENS, &EVENS),
        (&ODDS, &ODDS, &ODDS),
        (&PRIMES, &EVENS, &EVEN_PRIMES),
        (&EVENS, &PRIMES, &EVEN_PRIMES),
        (&PRIMES, &ODDS, &ODD_PRIMES),
        (&ODDS, &PRIMES, &ODD_PRIMES),
        (&EVENS, &ODDS, &EMPTY),
        (&ODDS, &EVENS, &EMPTY),
    ];
    for (victim, other, expected) in cases {
        let mut set = ordered(victim);
        set.bitand_assign(&ordered(other));
        assert_eq!(ordered_items(&set), expected.to_vec());

        let mut set = chunked(victim);
        set.bitand_assign(&chunked(other));
        assert_eq!(chunked_items(&set), wide(expected));
    }
}

#[test]
fn bitwise_tests_bitor_assign() {
    let cases: [(&[u8], &[u8], &[u8]); 16] = [
        (&EMPTY, &EMPTY, &EMPTY),
        (&EMPTY, &PRIMES, &PRIMES),
        (&EMPTY, &EVENS, &EVENS),
        (&EMPTY, &ODDS, &ODDS),
        (&PRIMES, &EMPTY, &PRIMES),
        (&EVENS, &EMPTY, &EVENS),
        (&ODDS, &EMPTY, &ODDS),
        (&PRIMES, &PRIMES, &PRIMES),
        (&EVENS, &EVENS, &EVENS),
        (&ODDS, &ODDS, &ODDS),
        (&PRIMES, &EVENS, &[1, 2, 3, 4, 5, 6, 8]),
        (&EVENS, &PRIMES, &[1, 2, 3, 4, 5, 6, 8]),
        (&PRIMES, &ODDS, &[1, 2, 3, 5, 7]),
        (&ODDS, &PRIMES, &[1, 2, 3, 5, 7]),
        (&EVENS, &ODDS, &[1, 2, 3, 4, 5, 6, 7, 8]),
        (&ODDS, &EVENS, &[1, 2, 3, 4, 5, 6, 7, 8]),
    ];
    for (victim, other, expected) in cases {
        let mut set = plain(victim);
        set.bitor_assign(&plain(other));
        assert_eq!(plain_items(&set), expected.to_vec());
    }
}

#[test]
fn bitor_assign() {
    let cases: [(&[u8], &[u8], &[u8]); 16] = [
        (&EMPTY, &EMPTY, &EMPTY),
        (&EMPTY, &PRIMES, &PRIMES),
        (&EMPTY, &EVENS, &EVENS),
        (&EMPTY, &ODDS, &ODDS),
        (&PRIMES, &EMPTY, &PRIMES),
        (&EVENS, &EMPTY, &EVENS),
        (&ODDS, &EMPTY, &ODDS),
        (&PRIMES, &PRIMES, &PRIMES),
        (&EVENS, &EVENS, &EVENS),
        (&ODDS, &ODDS, &ODDS),
        (&PRIMES, &EVENS, &[1, 2, 3, 4, 5, 6, 8]),
        (&EVENS, &PRIMES, &[1, 2, 3, 4, 5, 6, 8]),
        (&PRIMES, &ODDS, &[1, 2, 3, 5, 7]),
        (&ODDS, &PRIMES, &[1, 2, 3, 5, 7]),
        (&EVENS, &ODDS, &[1, 2, 3, 4, 5, 6, 7, 8]),
        (&ODDS, &EVENS, &[1, 2, 3, 4, 5, 6, 7, 8]),
    ];
    for (victim, other, expected) in cases {
        let mut set = ordered(victim);
        set.bitor_assign(&ordered(other));
        assert_eq!(ordered_items(&set), expected.to_vec());

        let mut set = chunked(victim);
        set.bitor_assign(&chunked(other));
        assert_eq!(chunked_items(&set), wide(expected));
    }
}

#[test]
fn bitwise_tests_sub_assign() {
    let cases: [(&[u8], &[u8], &[u8]); 16] = [
        (&EMPTY, &EMPTY, &EMPTY),
        (&EMPTY, &PRIMES, &EMPTY),
        (&EMPTY, &EVENS, &EMPTY),
        (&EMPTY, &ODDS, &EMPTY),
        (&PRIMES, &EMPTY, &PRIMES),
        (&EVENS, &EMPTY, &EVENS),
        (&ODDS, &EMPTY, &ODDS),
        (&PRIMES, &PRIMES, &EMPTY),
        (&EVENS, &EVENS, &EMPTY),
        (&ODDS, &ODDS, &EMPTY),
        (&PRIMES, &EVENS, &ODD_PRIMES),
        (&EVENS, &PRIMES, &[4, 6, 8]),
        (&PRIMES, &ODDS, &EVEN_PRIMES),
        (&ODDS, &PRIMES, &[7]),
        (&EVENS, &ODDS, &EVENS),
        (&ODDS, &EVENS, &ODDS),
    ];
    for (victim, other, expected) in cases {
        let mut set = plain(victim);
        set.sub_assign(&plain(other));
        assert_eq!(plain_items(&set), expected.to_vec());
    }
}

#[test]
fn sub_assign() {
    let cases: [(&[u8], &[u8], &[u8]); 16] = [
        (&EMPTY, &EMPTY, &EMPTY),
        (&EMPTY, &PRIMES, &EMPTY),
        (&EMPTY, &EVENS, &EMPTY),
        (&EMPTY, &ODDS, &EMPTY),
        (&PRIMES, &EMPTY, &PRIMES),
        (&EVENS, &EMPTY, &EVENS),
        (&ODDS, &EMPTY, &ODDS),
        (&PRIMES, &PRIMES, &EMPTY),
        (&EVENS, &EVENS, &EMPTY),
        (&ODDS, &ODDS, &EMPTY),
        (&PRIMES, &EVENS, &ODD_PRIMES),
        (&EVENS, &PRIMES, &[4, 6, 8]),
        (&PRIMES, &ODDS, &EVEN_PRIMES),
        (&ODDS, &PRIMES, &[7]),
        (&EVENS, &ODDS, &EVENS),
        (&ODDS, &EVENS, &ODDS),
    ];
    for (victim, other, expected) in cases {
        let mut set = ordered(victim);
        set.sub_assign(&ordered(other));
        assert_eq!(ordered_items(&set), expected.to_vec());

        let mut set = chunked(victim);
        set.sub_assign(&chunked(other));
        assert_eq!(chunked_items(&set), wide(expected));
    }
}

#[test]
fn bitwise_tests_bitxor_assign() {
    let cases: [(&[u8], &[u8], &[u8]); 12] = [
        (&EMPTY, &PRIMES, &PRIMES),
        (&EMPTY, &EVENS, &EVENS),
        (&EMPTY, &ODDS, &ODDS),
        (&PRIMES, &EMPTY, &PRIMES),
        (&EVENS, &EMPTY, &EVENS),
        (&ODDS, &EMPTY, &ODDS),
        (&PRIMES, &EVENS, &[1, 3, 4, 5, 6, 8]),
        (&EVENS, &ODDS, &[1, 2, 3, 4, 5, 6, 7, 8]),
        (&ODDS, &EVENS, &[1, 2, 3, 4, 5, 6, 7, 8]),
        (&PRIMES, &PRIMES, &EMPTY),
        (&EVENS, &EVENS, &EMPTY),
        (&ODDS, &ODDS, &EMPTY),
    ];
    for (victim, other, expected) in cases {
        let mut set = ordered(victim);
        set.bitxor_assign(&ordered(other));
        assert_eq!(ordered_items(&set), expected.to_vec());
    }
}

#[test]
fn bitxor_assign() {
    let cases: [(&[u8], &[u8], &[u8]); 12] = [
        (&EMPTY, &PRIMES, &PRIMES),
        (&EMPTY, &EVENS, &EVENS),
        (&EMPTY, &ODDS, &ODDS),
        (&PRIMES, &EMPTY, &PRIMES),
        (&EVENS, &EMPTY, &EVENS),
        (&ODDS, &EMPTY, &ODDS),
        (&PRIMES, &EVENS, &[1, 3, 4, 5, 6, 8]),
        (&EVENS, &ODDS, &[1, 2, 3, 4, 5, 6, 7, 8]),
        (&ODDS, &EVENS, &[1, 2, 3, 4, 5, 6, 7, 8]),
        (&PRIMES, &PRIMES, &EMPTY),
        (&EVENS, &EVENS, &EMPTY),
        (&ODDS, &ODDS, &EMPTY),
    ];
    for (victim, other, expected) in cases {
        let mut set = chunked(victim);
        set.bitxor_assign(&chunked(other));
        assert_eq!(chunked_items(&set), wide(expected));
    }
}

#[test]
fn construction_tests_new() {
    let set = Plain::new();
    assert!(set.is_empty());
    assert_eq!(0, set.len());
}

#[test]
fn new() {
    let set = Ordered::new();
    assert!(set.is_empty());
    assert_eq!(0, set.len());
}

#[test]
fn construction_tests_default() {
    let set = Plain::with_span(Plain::span());
    assert!(set.is_empty());
    assert_eq!(0, set.len());
}

#[test]
fn default() {
    let set = Ordered::with_span(Ordered::span());
    assert!(set.is_empty());
    assert_eq!(0, set.len());
}

#[test]
fn construction_tests_from_iterator_empty() {
    let set = plain(&EMPTY);
    assert!(set.is_empty());
    assert_eq!(0, set.len());

    let set = plain(&SOME);
    assert!(!set.is_empty());
    assert_eq!(SOME.len(), set.len());
}

#[test]
fn from_iterator_empty() {
    let set = ordered(&EMPTY);
    assert!(set.is_empty());
    assert_eq!(0, set.len());

    let set = ordered(&SOME);
    assert!(!set.is_empty());
    assert_eq!(SOME.len(), set.len());
}

#[test]
fn dual_iteration_tests_difference() {
    let (empty, primes, evens, odds) = (plain(&EMPTY), plain(&PRIMES), plain(&EVENS), plain(&ODDS));
    let cases: [(&Plain, &Plain, &[u8]); 9] = [
        (&empty, &primes, &EMPTY),
        (&empty, &evens, &EMPTY),
        (&empty, &odds, &EMPTY),
        (&primes, &empty, &PRIMES),
        (&primes, &evens, &ODD_PRIMES),
        (&primes, &odds, &EVEN_PRIMES),
        (&primes, &primes, &EMPTY),
        (&evens, &evens, &EMPTY),
        (&odds, &odds, &EMPTY),
    ];
    for (a, b, expected) in cases {
        let mut it = a.difference(b);
        assert_eq!(drain_items(|| it.next()), expected.to_vec());
    }
}

#[test]
fn difference() {
    let (empty, primes, evens, odds) = (ordered(&EMPTY), ordered(&PRIMES), ordered(&EVENS), ordered(&ODDS));
    let cases: [(&Ordered, &Ordered, &[u8]); 9] = [
        (&empty, &primes, &EMPTY),
        (&empty, &evens, &EMPTY),
        (&empty, &odds, &EMPTY),
        (&primes, &empty, &PRIMES),
        (&primes, &evens, &ODD_PRIMES),
        (&primes, &odds, &EVEN_PRIMES),
        (&primes, &primes, &EMPTY),
        (&evens, &evens, &EMPTY),
        (&odds, &odds, &EMPTY),
    ];
    for (a, b, expected) in cases {
        let mut it = a.difference(b);
        assert_eq!(drain_items(|| it.next()), expected.to_vec());
    }
}

#[test]
fn dual_iteration_tests_symmetric_difference() {
    let (empty, primes, evens, odds) = (plain(&EMPTY), plain(&PRIMES), plain(&EVENS), plain(&ODDS));
    let cases: [(&Plain, &Plain, &[u8]); 12] = [
        (&empty, &primes, &PRIMES),
        (&empty, &evens, &EVENS),
        (&empty, &odds, &ODDS),
        (&primes, &empty, &PRIMES),
        (&evens, &empty, &EVENS),
        (&odds, &empty, &ODDS),
        (&primes, &evens, &[1, 3, 5, 4, 6, 8]),
        (&evens, &odds, &[2, 4, 6, 8, 1, 3, 5, 7]),
        (&odds, &evens, &[1, 3, 5, 7, 2, 4, 6, 8]),
        (&primes, &primes, &EMPTY),
        (&evens, &evens, &EMPTY),
        (&odds, &odds, &EMPTY),
    ];
    for (a, b, expected) in cases {
        let mut it = a.symmetric_difference(b);
        assert_eq!(drain_items(|| it.next()), expected.to_vec());
    }
}

#[test]
fn symmetric_difference() {
    let (empty, primes, evens, odds) = (ordered(&EMPTY), ordered(&PRIMES), ordered(&EVENS), ordered(&ODDS));
    let cases: [(&Ordered, &Ordered, &[u8]); 12] = [
        (&empty, &primes, &PRIMES),
        (&empty, &evens, &EVENS),
        (&empty, &odds, &ODDS),
        (&primes, &empty, &PRIMES),
        (&evens, &empty, &EVENS),
        (&odds, &empty, &ODDS),
        (&primes, &evens, &[1, 3, 4, 5, 6, 8]),
        (&evens, &odds, &[1, 2, 3, 4, 5, 6, 7, 8]),
        (&odds, &evens, &[1, 2, 3, 4, 5, 6, 7, 8]),
        (&primes, &primes, &EMPTY),
        (&evens, &evens, &EMPTY),
        (&odds, &odds, &EMPTY),
    ];
    for (a, b, expected) in cases {
        let mut it = a.symmetric_difference(b);
        assert_eq!(drain_items(|| it.next()), expected.to_vec());
    }
}

#[test]
fn dual_iteration_tests_intersection() {
    let (empty, primes, evens, odds) = (plain(&EMPTY), plain(&PRIMES), plain(&EVENS), plain(&ODDS));
    let cases: [(&Plain, &Plain, &[u8]); 16] = [
        (&empty, &empty, &EMPTY),
        (&empty, &primes, &EMPTY),
        (&empty, &evens, &EMPTY),
        (&empty, &odds, &EMPTY),
        (&primes, &empty, &EMPTY),
        (&evens, &empty, &EMPTY),
        (&odds, &empty, &EMPTY),
        (&primes, &primes, &PRIMES),
        (&evens, &evens, &EVENS),
        (&odds, &odds, &ODDS),
        (&primes, &evens, &EVEN_PRIMES),
        (&evens, &primes, &EVEN_PRIMES),
        (&primes, &odds, &ODD_PRIMES),
        (&odds, &primes, &ODD_PRIMES),
        (&evens, &odds, &EMPTY),
        (&odds, &evens, &EMPTY),
    ];
    for (a, b, expected) in cases {
        let mut it = a.intersection(b);
        assert_eq!(drain_items(|| it.next()), expected.to_vec());
    }
}

#[test]
fn intersection() {
    let (empty, primes, evens, odds) = (ordered(&EMPTY), ordered(&PRIMES), ordered(&EVENS), ordered(&ODDS));
    let cases: [(&Ordered, &Ordered, &[u8]); 16] = [
        (&empty, &empty, &EMPTY),
        (&empty, &primes, &EMPTY),
        (&empty, &evens, &EMPTY),
        (&empty, &odds, &EMPTY),
        (&primes, &empty, &EMPTY),
        (&evens, &empty, &EMPTY),
        (&odds, &empty, &EMPTY),
        (&primes, &primes, &PRIMES),
        (&evens, &evens, &EVENS),
        (&odds, &odds, &ODDS),
        (&primes, &evens, &EVEN_PRIMES),
        (&evens, &primes, &EVEN_PRIMES),
        (&primes, &odds, &ODD_PRIMES),
        (&odds, &primes, &ODD_PRIMES),
        (&evens, &odds, &EMPTY),
        (&odds, &evens, &EMPTY),
    ];
    for (a, b, expected) in cases {
        let mut it = a.intersection(b);
        assert_eq!(drain_items(|| it.next()), expected.to_vec());
    }
}

#[test]
fn dual_iteration_tests_union() {
    let (empty, primes, evens, odds) = (plain(&EMPTY), plain(&PRIMES), plain(&EVENS), plain(&ODDS));
    let cases: [(&Plain, &Plain, &[u8]); 16] = [
        (&empty, &empty, &EMPTY),
        (&empty, &primes, &PRIMES),
        (&empty, &evens, &EVENS),
        (&empty, &odds, &ODDS),
        (&primes, &empty, &PRIMES),
        (&evens, &empty, &EVENS),
        (&odds, &empty, &ODDS),
        (&primes, &primes, &PRIMES),
        (&evens, &evens, &EVENS),
        (&odds, &odds, &ODDS),
        (&primes, &evens, &[1, 2, 3, 5, 4, 6, 8]),
        (&evens, &primes, &[2, 4, 6, 8, 1, 3, 5]),
        (&primes, &odds, &[1, 2, 3, 5, 7]),
        (&odds, &primes, &[1, 3, 5, 7, 2]),
        (&evens, &odds, &[2, 4, 6, 8, 1, 3, 5, 7]),
        (&odds, &evens, &[1, 3, 5, 7, 2, 4, 6, 8]),
    ];
    for (a, b, expected) in cases {
        let mut it = a.union(b);
        assert_eq!(drain_items(|| it.next()), expected.to_vec());
    }
}

#[test]
fn union() {
    let (empty, primes, evens, odds) = (ordered(&EMPTY), ordered(&PRIMES), ordered(&EVENS), ordered(&ODDS));
    let cases: [(&Ordered, &Ordered, &[u8]); 16] = [
        (&empty, &empty, &EMPTY),
        (&empty, &primes, &PRIMES),
        (&empty, &evens, &EVENS),
        (&empty, &odds, &ODDS),
        (&primes, &empty, &PRIMES),
        (&evens, &empty, &EVENS),
        (&odds, &empty, &ODDS),
        (&primes, &primes, &PRIMES),
        (&evens, &evens, &EVENS),
        (&odds, &odds, &ODDS),
        (&primes, &evens, &[1, 2, 3, 4, 5, 6, 8]),
        (&evens, &primes, &[1, 2, 3, 4, 5, 6, 8]),
        (&primes, &odds, &[1, 2, 3, 5, 7]),
        (&odds, &primes, &[1, 2, 3, 5, 7]),
        (&evens, &odds, &[1, 2, 3, 4, 5, 6, 7, 8]),
        (&odds, &evens, &[1, 2, 3, 4, 5, 6, 7, 8]),
    ];
    for (a, b, expected) in cases {
        let mut it = a.union(b);
        assert_eq!(drain_items(|| it.next()), expected.to_vec());
    }
}

#[test]
fn extract_iteration_tests_drain() {
    let mut victim = plain(&PRIMES);
    {
        let mut drain = victim.drain();
        assert_eq!(drain_items(|| drain.next()), PRIMES.to_vec());
    }
    assert!(plain_items(&victim).is_empty());
}

#[test]
fn drain() {
    let mut victim = ordered(&PRIMES);
    {
        let mut drain = victim.drain();
        assert_eq!(drain_items(|| drain.next()), PRIMES.to_vec());
    }
    assert!(ordered_items(&victim).is_empty());
}

#[test]
fn extract_iteration_tests_extract_if() {
    let cases: [(fn(u8) -> bool, &[u8], &[u8]); 4] = [
        (|_| false, &EMPTY, &PRIMES),
        (|_| true, &PRIMES, &EMPTY),
        (|i| i % 2 == 0, &EVEN_PRIMES, &ODD_PRIMES),
        (|i| i % 2 != 0, &ODD_PRIMES, &EVEN_PRIMES),
    ];
    for (pred, extracted, left) in cases {
        let mut victim = plain(&PRIMES);
        {
            let mut it = victim.extract_if(pred);
            assert_eq!(drain_items(|| it.next()), extracted.to_vec());
        }
        assert_eq!(plain_items(&victim), left.to_vec());
    }
}

#[test]
fn extract_if() {
    let cases: [(fn(u8) -> bool, &[u8], &[u8]); 4] = [
        (|_| false, &EMPTY, &PRIMES),
        (|_| true, &PRIMES, &EMPTY),
        (|i| i % 2 == 0, &EVEN_PRIMES, &ODD_PRIMES),
        (|i| i % 2 != 0, &ODD_PRIMES, &EVEN_PRIMES),
    ];
    for (pred, extracted, left) in cases {
        let mut victim = ordered(&PRIMES);
        {
            let mut it = victim.extract_if(pred);
            assert_eq!(drain_items(|| it.next()), extracted.to_vec());
        }
        assert_eq!(ordered_items(&victim), left.to_vec());
    }
}

#[test]
fn extract_iteration_tests_retain() {
    let cases: [(fn(u8) -> bool, &[u8]); 4] = [
        (|_| true, &PRIMES),
        (|_| false, &EMPTY),
        (|i| i % 2 != 0, &ODD_PRIMES),
        (|i| i % 2 == 0, &EVEN_PRIMES),
    ];
    for (pred, left) in cases {
        let mut victim = plain(&PRIMES);
        victim.retain(pred);
        assert_eq!(plain_items(&victim), left.to_vec());
    }
}

#[test]
fn retain() {
    let cases: [(fn(u8) -> bool, &[u8]); 4] = [
        (|_| true, &PRIMES),
        (|_| false, &EMPTY),
        (|i| i % 2 != 0, &ODD_PRIMES),
        (|i| i % 2 == 0, &EVEN_PRIMES),
    ];
    for (pred, left) in cases {
        let mut victim = ordered(&PRIMES);
        victim.retain(pred);
        assert_eq!(ordered_items(&victim), left.to_vec());
    }
}

#[test]
fn inclusion_tests_is_disjoint() {
    let primes = plain(&[1, 2, 3, 5]);
    let evens = plain(&[2, 4, 6, 8]);
    let perfects = plain(&[36]);
    assert!(!primes.is_disjoint(&evens));
    assert!(!evens.is_disjoint(&primes));
    assert!(primes.is_disjoint(&perfects));
    assert!(perfects.is_disjoint(&primes));
}

#[test]
fn is_disjoint() {
    let primes = ordered(&[1, 2, 3, 5]);
    let evens = ordered(&[2, 4, 6, 8]);
    let perfects = ordered(&[36]);
    assert!(!primes.is_disjoint(&evens));
    assert!(!evens.is_disjoint(&primes));
    assert!(primes.is_disjoint(&perfects));
    assert!(perfects.is_disjoint(&primes));
}

#[test]
fn inclusion_tests_is_subset_superset() {
    let primes = plain(&[1, 2, 3, 5, 7]);
    let odds = plain(&[1, 3, 5, 7]);
    let evens = plain(&[2, 4, 6, 8]);
    assert!(odds.is_subset(&odds));
    assert!(odds.is_superset(&odds));
    assert!(odds.is_subset(&primes));
    assert!(!odds.is_superset(&primes));
    assert!(primes.is_superset(&odds));
    assert!(!primes.is_subset(&odds));
    assert!(!primes.is_subset(&evens));
    assert!(!primes.is_superset(&evens));
    assert!(!evens.is_subset(&primes));
    assert!(!evens.is_superset(&primes));
}

#[test]
fn is_subset_superset() {
    let primes = ordered(&[1, 2, 3, 5, 7]);
    let odds = ordered(&[1, 3, 5, 7]);
    let evens = ordered(&[2, 4, 6, 8]);
    assert!(odds.is_subset(&odds));
    assert!(odds.is_superset(&odds));
    assert!(odds.is_subset(&primes));
    assert!(!odds.is_superset(&primes));
    assert!(primes.is_superset(&odds));
    assert!(!primes.is_subset(&odds));
    assert!(!primes.is_subset(&evens));
    assert!(!primes.is_superset(&evens));
    assert!(!evens.is_subset(&primes));
    assert!(!evens.is_superset(&primes));

    let primes = chunked(&[1, 2, 3, 5, 7]);
    let odds = chunked(&[1, 3, 5, 7]);
    let evens = chunked(&[2, 4, 6, 8]);
    assert!(odds.is_subset(&odds));
    assert!(odds.is_superset(&odds));
    assert!(odds.is_subset(&primes));
    assert!(!odds.is_superset(&primes));
    assert!(primes.is_superset(&odds));
    assert!(!primes.is_subset(&odds));
    assert!(!primes.is_subset(&evens));
    assert!(!primes.is_superset(&evens));
    assert!(!evens.is_subset(&primes));
    assert!(!evens.is_superset(&primes));
}

#[test]
fn overall_tests_clear() {
    let mut victim = plain(&SOME);
    victim.clear();
    assert!(victim.is_empty());
    assert_eq!(0, victim.len());
}

#[test]
fn clear() {
    let mut victim = ordered(&SOME);
    victim.clear();
    assert!(victim.is_empty());
    assert_eq!(0, victim.len());
}
