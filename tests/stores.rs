use index_set::chunk::{ArrayChunk, IndexChunk, UnsignedChunk};
use index_set::index::{
    IndexBackward, IndexBackwardChunked, IndexCollection, IndexForward, IndexForwardChunked, IndexStore,
    IndexStoreChunked, IndexView, IndexViewChunked,
};
use index_set::not::{IndexViewNot, NotView};

fn primes_u16() -> UnsignedChunk<u16> {
    let mut chunk = UnsignedChunk::<u16>::new();
    for i in [1u8, 2, 3, 5] {
        chunk.insert(i).unwrap();
    }
    chunk
}

#[test]
fn nth_after() {
    let victim = primes_u16();

    assert_eq!(Ok(2), victim.nth_after(0, 1));
    assert_eq!(Ok(3), victim.nth_after(0, 2));
    assert_eq!(Ok(5), victim.nth_after(0, 3));
    assert_eq!(Err(1), victim.nth_after(0, 5));

    assert_eq!(Ok(3), victim.nth_after(1, 1));
    assert_eq!(Ok(5), victim.nth_after(1, 2));
    assert_eq!(Err(1), victim.nth_after(1, 3));
    assert_eq!(Err(2), victim.nth_after(1, 5));

    assert_eq!(Ok(5), victim.nth_after(2, 1));
    assert_eq!(Err(1), victim.nth_after(2, 2));
    assert_eq!(Err(2), victim.nth_after(2, 3));
    assert_eq!(Err(3), victim.nth_after(2, 5));

    assert_eq!(Err(1), victim.nth_after(3, 1));
    assert_eq!(Err(2), victim.nth_after(3, 2));
    assert_eq!(Err(3), victim.nth_after(3, 3));
    assert_eq!(Err(4), victim.nth_after(3, 5));

    assert_eq!(Err(5), victim.nth_after(7, 1));
    assert_eq!(Err(6), victim.nth_after(7, 2));
    assert_eq!(Err(7), victim.nth_after(7, 3));
    assert_eq!(Err(8), victim.nth_after(7, 5));
}

#[test]
fn nth_before() {
    let victim = primes_u16();

    assert_eq!(Ok(3), victim.nth_before(0, 5));
    assert_eq!(Ok(2), victim.nth_before(0, 3));
    assert_eq!(Ok(1), victim.nth_before(0, 2));
    assert_eq!(Err(1), victim.nth_before(0, 1));

    assert_eq!(Ok(2), victim.nth_before(1, 5));
    assert_eq!(Ok(1), victim.nth_before(1, 3));
    assert_eq!(Err(1), victim.nth_before(1, 2));
    assert_eq!(Err(2), victim.nth_before(1, 1));

    assert_eq!(Ok(1), victim.nth_before(2, 5));
    assert_eq!(Err(1), victim.nth_before(2, 3));
    assert_eq!(Err(2), victim.nth_before(2, 2));
    assert_eq!(Err(3), victim.nth_before(2, 1));

    assert_eq!(Err(1), victim.nth_before(3, 5));
    assert_eq!(Err(2), victim.nth_before(3, 3));
    assert_eq!(Err(3), victim.nth_before(3, 2));
    assert_eq!(Err(4), victim.nth_before(3, 1));

    assert_eq!(Err(5), victim.nth_before(7, 5));
    assert_eq!(Err(6), victim.nth_before(7, 3));
    assert_eq!(Err(7), victim.nth_before(7, 2));
    assert_eq!(Err(8), victim.nth_before(7, 1));
}

#[test]
fn unsigned_chunk_traversal_and_length() {
    let mut chunk = UnsignedChunk::<u64>::new();
    assert!(chunk.is_empty());
    assert_eq!(chunk.first(), None);
    assert_eq!(chunk.last(), None);
    for i in [0u8, 9, 63] {
        assert!(chunk.insert(i).unwrap());
    }
    assert!(!chunk.insert(9).unwrap());
    assert_eq!(chunk.len(), 3);
    assert_eq!(chunk.len_not(), 253);
    assert_eq!(chunk.first(), Some(0));
    assert_eq!(chunk.next_after(0), Some(9));
    assert_eq!(chunk.next_after(9), Some(63));
    assert_eq!(chunk.next_after(63), None);
    assert_eq!(chunk.last(), Some(63));
    assert_eq!(chunk.next_before(63), Some(9));
    assert_eq!(chunk.next_before(0), None);
    assert!(!chunk.contains(64));
    assert!(!chunk.remove(200));
    assert!(chunk.remove(9));
    assert_eq!(chunk.len(), 2);
}

#[test]
fn unsigned_chunk_bitwise() {
    let a = UnsignedChunk::<u8>(0b0010_1110);
    let b = UnsignedChunk::<u8>(0b0101_0100);
    assert_eq!(a.bitand(b), UnsignedChunk(0b0000_0100));
    assert_eq!(a.bitor(b), UnsignedChunk(0b0111_1110));
    assert_eq!(a.bitxor(b), UnsignedChunk(0b0111_1010));
    assert_eq!(a.sub(b), UnsignedChunk(0b0010_1010));
    assert_eq!(a.not(), UnsignedChunk(0b1101_0001));
    assert_eq!(UnsignedChunk::<u32>::span().1, index_set::index::Bound::Excluded(32));
}

#[test]
fn array_chunk_two_levels_agree() {
    let mut array = ArrayChunk::<UnsignedChunk<u8>, 2>::new();
    for i in [1u16, 2, 3, 5, 7, 11, 13] {
        array.insert(i).unwrap();
    }
    for i in 0u16..=15 {
        let (outer, inner) = ArrayChunk::<UnsignedChunk<u8>, 2>::split(i);
        assert_eq!(ArrayChunk::<UnsignedChunk<u8>, 2>::fuse(outer, inner), i);
        let chunk = array.get_chunk(outer);
        assert_eq!(array.contains(i), chunk.is_some_and(|c| c.contains(inner)), "{i}");
    }
    assert_eq!(array.len(), 7);
    assert_eq!(array.len_not(), 65536 - 7);
    assert_eq!(array.first(), Some(1));
    assert_eq!(array.next_after(7), Some(11));
    assert_eq!(array.last(), Some(13));
    assert_eq!(array.next_before(11), Some(7));
    assert_eq!(array.next_before(100), Some(13));
    assert_eq!(array.get_chunk(2), None);
}

#[test]
fn array_chunk_chunks() {
    let mut array = ArrayChunk::<UnsignedChunk<u8>, 4>::new();
    assert_eq!(array.first_chunk(), Some(0));
    assert_eq!(array.next_chunk_after(2), Some(3));
    assert_eq!(array.next_chunk_after(3), None);
    assert_eq!(array.last_chunk(), Some(3));
    assert_eq!(array.next_chunk_before(0), None);
    assert!(array.set_chunk(1, UnsignedChunk(0b1000_0001)).is_ok());
    assert_eq!(array.set_chunk(4, UnsignedChunk(1)).unwrap_err().index, 4);
    assert!(array.contains(8));
    assert!(array.contains(15));
    assert_eq!(array.len(), 2);
    let full = array.not();
    assert_eq!(full.len(), 30);
    assert!(!full.contains(8));
    assert_eq!(ArrayChunk::<UnsignedChunk<u8>, 4>::span().1, index_set::index::Bound::Included(31));
}

#[test]
fn not_view_negates() {
    let chunk = primes_u16();
    let not = NotView::new(chunk);
    for i in 0u8..16 {
        assert_eq!(not.contains(i), !chunk.contains(i));
    }
    assert_eq!(not.len() + chunk.len(), 256);
    assert!(!not.is_empty());
    assert_eq!(*not.as_view(), chunk);
    assert_eq!(not.into_view(), chunk);
}

#[test]
fn not_view_traversal() {
    let mut chunk = UnsignedChunk::<u8>::new();
    for i in [0u8, 1, 3] {
        chunk.insert(i).unwrap();
    }
    let not = NotView::new(chunk);
    assert_eq!(not.first(), Some(2));
    assert_eq!(not.next_after(2), Some(4));
    assert_eq!(not.next_after(7), Some(8));
    assert_eq!(not.next_after(255), None);
    assert_eq!(not.last(), Some(255));
    assert_eq!(not.next_before(4), Some(2));
    assert_eq!(not.next_before(2), None);
    assert_eq!(not.next_before(9), Some(8));
    assert_eq!(not.nth_after(2, 2), Ok(6));

    let full = NotView::new(UnsignedChunk::<u8>(0xff));
    assert_eq!(full.first(), Some(8));
    assert!(!full.is_empty());
    assert_eq!(full.len(), 248);
}

#[test]
fn set_complement_traversal() {
    let mut set = index_set::set::IndexOrdSet::<UnsignedChunk<u16>>::new();
    set.extend(&[0, 1, 2, 4]);
    let not = set.as_not();
    assert_eq!(not.first(), Some(3));
    assert_eq!(not.next_after(3), Some(5));
    assert_eq!(not.len(), 252);
}

#[test]
fn chunk_in_place_operations() {
    let mut a = UnsignedChunk::<u8>(0b0010_1110);
    a.bitand_assign(UnsignedChunk(0b0101_0100));
    assert_eq!(a, UnsignedChunk(0b0000_0100));
    a.bitor_assign(UnsignedChunk(0b1000_0001));
    assert_eq!(a, UnsignedChunk(0b1000_0101));
    a.bitxor_assign(UnsignedChunk(0b0000_0111));
    assert_eq!(a, UnsignedChunk(0b1000_0010));
    a.sub_assign(UnsignedChunk(0b1000_0000));
    assert_eq!(a, UnsignedChunk(0b0000_0010));

    let mut x = ArrayChunk::<UnsignedChunk<u8>, 2>::new();
    let mut y = ArrayChunk::<UnsignedChunk<u8>, 2>::new();
    for i in [1u16, 9, 12] {
        x.insert(i).unwrap();
    }
    for i in [9u16, 15] {
        y.insert(i).unwrap();
    }
    let mut both = x;
    both.bitand_assign(y);
    assert_eq!(both.len(), 1);
    let mut either = x;
    either.bitor_assign(y);
    assert_eq!(either.len(), 4);
    let mut one = x;
    one.bitxor_assign(y);
    assert!(one.contains(15) && !one.contains(9));
    let mut only = x;
    only.sub_assign(y);
    assert!(only.contains(1) && only.contains(12) && only.len() == 2);
    assert_eq!(x.not().not(), x);
}
