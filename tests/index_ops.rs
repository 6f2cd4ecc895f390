use kvs::index::new_index;
use kvs::order::compare;
use kvs::{IndexType, IteratorConfig, RecordPos};

fn pos(gen: u32, offset: u64) -> RecordPos {
    RecordPos { gen, offset }
}

#[test]
fn index_put_get_delete() {
    let mut idx = new_index(IndexType::BTree);
    assert_eq!(idx.get(b"a"), None);
    idx.put(b"b".to_vec(), pos(0, 10));
    idx.put(b"a".to_vec(), pos(0, 0));
    idx.put(b"b".to_vec(), pos(1, 5));
    assert_eq!(idx.get(b"a"), Some(pos(0, 0)));
    assert_eq!(idx.get(b"b"), Some(pos(1, 5)));
    assert_eq!(idx.items.len(), 2);
    idx.delete(b"a");
    idx.delete(b"zz");
    assert_eq!(idx.get(b"a"), None);
    assert_eq!(idx.items.len(), 1);
}

#[test]
fn index_iterator_snapshot() {
    let mut idx = new_index(IndexType::BTree);
    idx.put(b"b".to_vec(), pos(0, 1));
    idx.put(b"a".to_vec(), pos(0, 2));
    let mut it = idx.iterator(IteratorConfig::default());
    idx.put(b"c".to_vec(), pos(0, 3));
    assert_eq!(it.next(), Some((b"a".to_vec(), pos(0, 2))));
    assert_eq!(it.next(), Some((b"b".to_vec(), pos(0, 1))));
    assert_eq!(it.next(), None);
    assert_eq!(it.next(), None);
}

#[test]
fn byte_order() {
    assert_eq!(compare(b"a", b"b"), -1);
    assert_eq!(compare(b"ab", b"a"), 1);
    assert_eq!(compare(b"", b""), 0);
    assert_eq!(compare(b"\xff", b"\x00\x00"), 1);
}

