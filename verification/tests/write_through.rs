use lru_cache::error::CacheError;
use lru_cache::lru::persistent::{document_of, PersistentCache};
use lru_cache::lru::traits::CacheTrait;

#[test]
fn no_document_gives_an_empty_cache() {
    let mut cache: PersistentCache<u64, u64> = PersistentCache::new(3, "cache.json", None).unwrap();
    assert_eq!(cache.len(), 0);
    assert_eq!(cache.file_path(), "cache.json");
    assert_eq!(cache.get(&1), None);
}

#[test]
fn empty_document_gives_an_empty_cache() {
    let cache: PersistentCache<u64, u64> = PersistentCache::new(3, "cache.json", Some("")).unwrap();
    assert_eq!(cache.len(), 0);
}

#[test]
fn document_is_replayed_in_order() {
    let mut cache: PersistentCache<u64, u64> =
        PersistentCache::new(3, "cache.json", Some("[[1,100],[2,200],[3,300]]")).unwrap();
    assert_eq!(cache.len(), 3);
    assert_eq!(cache.document().unwrap(), "[[1,100],[2,200],[3,300]]");
    assert_eq!(cache.get(&1), Some(&100));
    assert_eq!(cache.document().unwrap(), "[[2,200],[3,300],[1,100]]");
    assert!(cache.take_unwritten().is_none());
    cache.put(4, 400);
    assert_eq!(cache.take_unwritten().unwrap().unwrap(), "[[3,300],[1,100],[4,400]]");
    assert!(cache.take_unwritten().is_none());
    assert_eq!(cache.get(&2), None);
}

#[test]
fn document_beyond_capacity_loses_the_earliest() {
    let cache: PersistentCache<String, u64> =
        PersistentCache::new(2, "cache.json", Some("[[\"a\",1],[\"b\",2],[\"c\",3]]")).unwrap();
    assert_eq!(cache.document().unwrap(), "[[\"b\",2],[\"c\",3]]");
}

fn put_and_take(cache: &mut PersistentCache<String, String>, key: &str, value: &str) -> String {
    cache.put(key.to_string(), value.to_string());
    cache.take_unwritten().unwrap().unwrap()
}

#[test]
fn every_put_leaves_the_whole_document() {
    let mut cache: PersistentCache<String, String> =
        PersistentCache::new(2, "cache.json", None).unwrap();
    assert_eq!(put_and_take(&mut cache, "a", "1"), "[[\"a\",\"1\"]]");
    assert_eq!(put_and_take(&mut cache, "b", "2"), "[[\"a\",\"1\"],[\"b\",\"2\"]]");
    assert_eq!(put_and_take(&mut cache, "a", "3"), "[[\"b\",\"2\"],[\"a\",\"3\"]]");
    assert_eq!(put_and_take(&mut cache, "c", "4"), "[[\"a\",\"3\"],[\"c\",\"4\"]]");
}

#[test]
fn a_later_put_replaces_what_was_left() {
    let mut cache: PersistentCache<u64, u64> = PersistentCache::new(2, "cache.json", None).unwrap();
    cache.put(1, 10);
    cache.put(2, 20);
    assert_eq!(cache.take_unwritten().unwrap().unwrap(), "[[1,10],[2,20]]");
    assert!(cache.take_unwritten().is_none());
}

#[test]
fn a_lookup_leaves_nothing_to_write() {
    let mut cache: PersistentCache<u64, u64> =
        PersistentCache::new(2, "cache.json", Some("[[1,10],[2,20]]")).unwrap();
    assert_eq!(cache.get(&1), Some(&10));
    assert!(cache.take_unwritten().is_none());
    assert_eq!(cache.document().unwrap(), "[[2,20],[1,10]]");
}

fn use_any_cache<C: CacheTrait<u64, u64>>(cache: &mut C) {
    cache.put(1, 10);
    cache.put(2, 20);
    cache.put(3, 30);
    assert_eq!(cache.get(&1), None);
    assert_eq!(cache.get(&3), Some(&30));
}

#[test]
fn written_through_cache_is_a_cache() {
    let mut cache: PersistentCache<u64, u64> = PersistentCache::new(2, "cache.json", None).unwrap();
    use_any_cache(&mut cache);
    assert_eq!(cache.take_unwritten().unwrap().unwrap(), "[[2,20],[3,30]]");
}

#[test]
fn written_document_restores_the_cache() {
    let mut cache: PersistentCache<u64, String> =
        PersistentCache::new(3, "cache.json", None).unwrap();
    cache.put(1, "one".to_string());
    cache.put(2, "two".to_string());
    cache.put(3, "three".to_string());
    cache.get(&1);
    let document = cache.document().unwrap();
    let mut again: PersistentCache<u64, String> =
        PersistentCache::new(3, "cache.json", Some(&document)).unwrap();
    assert_eq!(again.document().unwrap(), document);
    assert_eq!(again.get(&2), Some(&"two".to_string()));
    assert_eq!(again.get(&3), Some(&"three".to_string()));
    assert_eq!(again.get(&1), Some(&"one".to_string()));
}

#[test]
fn malformed_document_is_a_parse_error() {
    let result: Result<PersistentCache<u64, u64>, CacheError> =
        PersistentCache::new(3, "cache.json", Some("[[1,100],[2"));
    match result {
        Err(CacheError::ParseError(message)) => {
            assert!(message.starts_with("Erreur lors de la désérialisation: "));
            assert!(message.len() > "Erreur lors de la désérialisation: ".len());
        }
        _ => panic!("a malformed document was accepted"),
    }
}

#[test]
fn document_of_another_shape_is_a_parse_error() {
    let result: Result<PersistentCache<u64, u64>, CacheError> =
        PersistentCache::new(3, "cache.json", Some("{\"1\":100}"));
    assert!(matches!(result, Err(CacheError::ParseError(_))));
}

#[test]
fn encoded_document_is_handed_on_as_it_is() {
    match document_of(Ok("[[1,10]]".to_string())) {
        Ok(document) => assert_eq!(document, "[[1,10]]"),
        Err(_) => panic!("an encoded document was turned into an error"),
    }
}

#[test]
fn failed_encoding_is_a_storage_error() {
    match document_of(Err("clé invalide".to_string())) {
        Err(CacheError::StorageError(message)) => {
            assert_eq!(message, "Erreur lors de la sérialisation: clé invalide")
        }
        _ => panic!("a failed encoding was not reported as a storage error"),
    }
}
