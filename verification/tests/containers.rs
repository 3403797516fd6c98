use mooncake_table::deletion_vector::DeletionVector;
use mooncake_table::puffin::{load_blob, BlobLocation, PuffinFile, PuffinStore};

#[test]
fn empty_container_is_the_magic() {
    let file = PuffinFile::new();
    assert_eq!(file.bytes(), &vec![0x50, 0x46, 0x41, 0x31]);
    assert_eq!(file.len(), 4);
}

#[test]
fn blobs_lie_one_after_the_other() {
    let mut file = PuffinFile::new();
    let first = file.add_blob(b"abc");
    let second = file.add_blob(b"");
    let third = file.add_blob(b"defgh");
    assert_eq!(first, BlobLocation { offset: 4, size: 3 });
    assert_eq!(second, BlobLocation { offset: 7, size: 0 });
    assert_eq!(third, BlobLocation { offset: 7, size: 5 });
    assert_eq!(file.bytes(), &b"PFA1abcdefgh".to_vec());
    assert_eq!(file.blob(first), Some(b"abc".to_vec()));
    assert_eq!(file.blob(second), Some(vec![]));
    assert_eq!(file.blob(third), Some(b"defgh".to_vec()));
}

#[test]
fn blob_is_read_by_offset_and_length_alone() {
    let container = b"PFA1abcdefgh";
    assert_eq!(load_blob(container, 4, 3), Some(b"abc".to_vec()));
    assert_eq!(load_blob(container, 0, 12), Some(container.to_vec()));
    assert_eq!(load_blob(container, 12, 0), Some(vec![]));
    assert_eq!(load_blob(container, 12, 1), None);
    assert_eq!(load_blob(container, 13, 0), None);
    assert_eq!(load_blob(container, 5, u64::MAX), None);
    assert_eq!(load_blob(container, u64::MAX, 1), None);
}

#[test]
fn vectors_in_one_container_read_independently() {
    let mut a = DeletionVector::new(10);
    a.mark_deleted(1);
    let mut b = DeletionVector::new(20);
    b.mark_deleted(19);
    b.mark_deleted(0);
    let mut file = PuffinFile::new();
    let at_a = file.add_blob(&a.serialize());
    let at_b = file.add_blob(&b.serialize());
    let read_b = DeletionVector::deserialize(&file.blob(at_b).unwrap()).unwrap();
    let read_a = DeletionVector::deserialize(&file.blob(at_a).unwrap()).unwrap();
    assert_eq!(read_a.collect_deleted_rows(), vec![1]);
    assert_eq!(read_b.collect_deleted_rows(), vec![0, 19]);
    assert_eq!(read_b.max_rows(), 20);
}

#[test]
fn store_numbers_its_containers() {
    let mut store = PuffinStore::new();
    assert_eq!(store.len(), 0);
    assert!(store.get(0).is_none());
    let mut file = PuffinFile::new();
    file.add_blob(b"x");
    assert_eq!(store.put(PuffinFile::new()), 0);
    assert_eq!(store.put(file), 1);
    assert_eq!(store.len(), 2);
    assert_eq!(store.get(0).unwrap().len(), 4);
    assert_eq!(store.get(1).unwrap().bytes(), &b"PFA1x".to_vec());
    assert!(store.get(2).is_none());
}
