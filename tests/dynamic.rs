use index_set::chunk::{ArrayChunk, IndexChunk, UnsignedChunk};
use index_set::index::{
    Bound, IndexBackward, IndexBackwardChunked, IndexCollection, IndexForward, IndexForwardChunked, IndexStore,
    IndexStoreChunked, IndexView, IndexViewChunked,
};
use index_set::not::{IndexBackwardNot, IndexForwardNot, IndexViewNot, NotView};
use index_set::set::IndexOrdSet;
use index_set::vault::DynamicChunkStore;

type Store = DynamicChunkStore<ArrayChunk<UnsignedChunk<u64>, 2>>;

#[test]
fn dynamic_store_grows_on_insert() {
    let mut store = Store::new();
    assert!(store.is_empty());
    assert_eq!(store.first_chunk(), None);
    assert_eq!(store.insert(1000), Ok(true));
    assert_eq!(store.insert(1000), Ok(false));
    assert_eq!(store.insert(3), Ok(true));
    assert_eq!(store.len(), 2);
    assert!(store.contains(1000));
    assert!(!store.contains(999));
    assert!(!store.contains(1 << 40));
    // 1000 lives in chunk 7 of 128 bits: growth to 8 chunks.
    assert_eq!(store.last_chunk(), Some(7));
    assert_eq!(store.first(), Some(3));
    assert_eq!(store.next_after(3), Some(1000));
    assert_eq!(store.next_after(1000), None);
    assert_eq!(store.last(), Some(1000));
    assert_eq!(store.next_before(1000), Some(3));
    assert_eq!(store.next_before(u64::MAX), Some(1000));
    assert_eq!(store.len_not(), usize::MAX - 2);
}

#[test]
fn dynamic_store_doubles() {
    let mut store = Store::new();
    store.insert(0).unwrap();
    assert_eq!(store.last_chunk(), Some(0));
    store.insert(128).unwrap();
    assert_eq!(store.last_chunk(), Some(1));
    store.insert(256).unwrap();
    assert_eq!(store.last_chunk(), Some(3));
    assert_eq!(store.next_chunk_after(0), Some(1));
    assert_eq!(store.next_chunk_before(3), Some(2));
    assert_eq!(store.next_chunk_before(0), None);
}

#[test]
fn dynamic_store_remove_and_clear() {
    let mut store = Store::new();
    for i in [5u64, 64, 200, 4097] {
        store.insert(i).unwrap();
    }
    assert!(store.remove(64));
    assert!(!store.remove(64));
    assert!(!store.remove(1 << 50));
    assert_eq!(store.len(), 3);
    store.clear();
    assert!(store.is_empty());
    assert_eq!(store.first(), None);
    store.clear();
    assert_eq!(store.len(), 0);
}

#[test]
fn dynamic_store_chunks() {
    let mut store = Store::with_span((Bound::Included(0), Bound::Excluded(300)));
    assert_eq!(store.last_chunk(), Some(2));
    assert!(store.is_empty());
    let (outer, inner) = Store::split(300);
    assert_eq!((outer, inner), (2, 44));
    assert_eq!(Store::fuse(outer, inner), 300);
    let mut chunk = ArrayChunk::<UnsignedChunk<u64>, 2>::new();
    chunk.insert(1).unwrap();
    chunk.insert(100).unwrap();
    assert!(store.set_chunk(5, chunk).is_ok());
    assert_eq!(store.len(), 2);
    assert!(store.contains(5 * 128 + 100));
    assert_eq!(store.get_chunk(5), Some(chunk));
    assert!(store.get_chunk(9).is_none());
    for i in 0u64..1024 {
        let (outer, inner) = Store::split(i);
        assert_eq!(store.contains(i), store.get_chunk(outer).is_some_and(|c| c.contains(inner)));
    }
}

#[test]
fn dynamic_store_in_a_set() {
    let mut set = IndexOrdSet::<Store>::new();
    set.extend(&[70_000, 3, 129]);
    let mut out = Vec::new();
    let mut it = set.iter();
    while let Some(i) = it.next() {
        out.push(i);
    }
    assert_eq!(out, vec![3, 129, 70_000]);
}

#[test]
fn dynamic_store_complement_traversal() {
    let mut store = Store::new();
    for i in 0u64..130 {
        if i != 7 && i != 128 {
            store.insert(i).unwrap();
        }
    }
    assert_eq!(store.first_not(), Some(7));
    assert_eq!(store.next_after_not(7), Some(128));
    assert_eq!(store.next_after_not(128), Some(130));
    assert_eq!(store.next_after_not(10_000), Some(10_001));
    assert_eq!(store.next_after_not(u64::MAX), None);
    assert_eq!(store.last_not(), Some(u64::MAX));
    assert_eq!(store.next_before_not(128), Some(7));
    assert_eq!(store.next_before_not(7), None);
    assert_eq!(store.next_before_not(1_000), Some(999));
    let not = NotView::new(store);
    assert_eq!(not.first(), Some(7));
    assert_eq!(not.nth_after(1, 7), Ok(130));
    assert_eq!(not.next_before(130), Some(128));
}

#[test]
fn negated_chunks() {
    let mut store = Store::new();
    store.insert(1).unwrap();
    store.insert(200).unwrap();
    let chunk0 = store.get_chunk(0).unwrap();
    let not = NotView::new(store);
    let inverted = not.get_chunk(0).unwrap();
    assert!(!inverted.contains(1));
    assert!(inverted.contains(0));
    assert_eq!(inverted, chunk0.not());
    assert!(not.get_chunk(5).is_none());
    assert_eq!(not.first_chunk(), Some(0));
    assert_eq!(not.next_chunk_after(0), Some(1));
    assert_eq!(not.last_chunk(), Some(1));
    for i in 0u64..300 {
        let (outer, inner) = NotView::<Store>::split(i);
        let by_chunk = not.get_chunk(outer).map_or(true, |c| c.contains(inner));
        assert_eq!(not.contains(i), by_chunk, "{i}");
    }
}
