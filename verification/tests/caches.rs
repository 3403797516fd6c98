use mooncake_table::cache::{CacheError, ObjectStorageCache};
use mooncake_table::puffin::{PuffinFile, PuffinStore};

fn store_of_sizes(sizes: &[usize]) -> PuffinStore {
    let mut store = PuffinStore::new();
    for size in sizes {
        let mut file = PuffinFile::new();
        file.add_blob(&vec![0u8; size - 4]);
        store.put(file);
    }
    store
}

#[test]
fn fetch_pins_and_counts_bytes() {
    let store = store_of_sizes(&[10, 20]);
    let mut cache = ObjectStorageCache::new("/cache");
    assert_eq!(cache.usage(), 0);
    assert!(!cache.is_cached(0));
    let handle = cache.get_or_fetch(1, &store).unwrap();
    assert_eq!(handle.get_file_id(), 1);
    assert_eq!(handle.get_cache_filepath(), "/cache/puffin-1");
    assert!(cache.is_cached(1));
    assert_eq!(cache.pin_count(1), 1);
    assert_eq!(cache.usage(), 20);
    let again = cache.get_or_fetch(1, &store).unwrap();
    assert_eq!(cache.pin_count(1), 2);
    assert_eq!(cache.usage(), 20);
    assert!(cache.release(handle));
    assert_eq!(cache.pin_count(1), 1);
    assert!(cache.release(again));
    assert_eq!(cache.pin_count(1), 0);
    assert!(cache.is_cached(1));
}

#[test]
fn missing_container_cannot_be_fetched() {
    let store = store_of_sizes(&[10]);
    let mut cache = ObjectStorageCache::new("/cache");
    assert_eq!(cache.get_or_fetch(1, &store).unwrap_err(), CacheError::BlobMissing);
    assert_eq!(cache.usage(), 0);
    assert!(!cache.is_cached(1));
}

#[test]
fn pinned_entry_is_never_evicted() {
    let store = store_of_sizes(&[10, 20, 30]);
    let mut cache = ObjectStorageCache::new("/cache");
    let a = cache.get_or_fetch(0, &store).unwrap();
    let b = cache.get_or_fetch(1, &store).unwrap();
    let c = cache.get_or_fetch(2, &store).unwrap();
    assert_eq!(cache.usage(), 60);
    assert_eq!(cache.evict_to(0), Vec::<u64>::new());
    assert_eq!(cache.usage(), 60);
    assert!(cache.release(b));
    assert_eq!(cache.evict_to(0), vec![1]);
    assert_eq!(cache.usage(), 40);
    assert!(cache.is_cached(0) && cache.is_cached(2) && !cache.is_cached(1));
    assert_eq!(cache.pin_count(0), 1);
    assert_eq!(cache.pin_count(2), 1);
    assert!(cache.release(a));
    assert!(cache.release(c));
}

#[test]
fn eviction_takes_the_least_recently_released_first() {
    let store = store_of_sizes(&[10, 20, 30, 40]);
    let mut cache = ObjectStorageCache::new("/cache");
    let handles: Vec<_> = (0..4).map(|id| cache.get_or_fetch(id, &store).unwrap()).collect();
    let mut handles = handles.into_iter();
    let (a, b, c, d) = (
        handles.next().unwrap(),
        handles.next().unwrap(),
        handles.next().unwrap(),
        handles.next().unwrap(),
    );
    assert_eq!(cache.usage(), 100);
    cache.release(c);
    cache.release(a);
    cache.release(d);
    assert_eq!(cache.evict_to(100), Vec::<u64>::new());
    assert_eq!(cache.evict_to(65), vec![2, 0]);
    assert_eq!(cache.usage(), 60);
    assert_eq!(cache.evict_to(60), Vec::<u64>::new());
    assert_eq!(cache.evict_to(0), vec![3]);
    assert_eq!(cache.usage(), 20);
    assert_eq!(cache.pin_count(1), 1);
    cache.release(b);
    assert_eq!(cache.evict_to(19), vec![1]);
    assert_eq!(cache.usage(), 0);
}

#[test]
fn fetched_again_entry_goes_behind_the_others() {
    let store = store_of_sizes(&[10, 20]);
    let mut cache = ObjectStorageCache::new("/cache");
    let a = cache.get_or_fetch(0, &store).unwrap();
    let b = cache.get_or_fetch(1, &store).unwrap();
    cache.release(a);
    cache.release(b);
    let a = cache.get_or_fetch(0, &store).unwrap();
    assert_eq!(cache.pin_count(0), 1);
    assert_eq!(cache.usage(), 30);
    cache.release(a);
    assert_eq!(cache.evict_to(29), vec![1]);
    assert_eq!(cache.evict_to(0), vec![0]);
}

#[test]
fn releasing_what_is_not_pinned_changes_nothing() {
    let store = store_of_sizes(&[10]);
    let mut cache = ObjectStorageCache::new("/cache");
    let mut other = ObjectStorageCache::new("/other");
    let stray = other.get_or_fetch(0, &store).unwrap();
    assert!(!cache.release(stray));
    assert_eq!(cache.usage(), 0);
    let a = cache.get_or_fetch(0, &store).unwrap();
    let stray = other.get_or_fetch(0, &store).unwrap();
    assert!(cache.release(a));
    assert!(!cache.release(stray));
    assert_eq!(cache.pin_count(0), 0);
    assert!(cache.is_cached(0));
}
