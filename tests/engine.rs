use semantic_cache::cache::{collect_records, records_from_pairs, Cache};
use semantic_cache::ann_index::{ANNIndex, HnswAnnIndex};
use semantic_cache::cache_client::CacheClient;
use semantic_cache::types::CacheError;
use std::cell::RefCell;
use std::collections::HashMap;
use std::rc::Rc;

type Shared = Rc<RefCell<HashMap<String, HashMap<String, String>>>>;

struct MemStore {
    data: Shared,
    fail: bool,
}

impl MemStore {
    fn new() -> (MemStore, Shared) {
        let data: Shared = Rc::new(RefCell::new(HashMap::new()));
        (MemStore { data: data.clone(), fail: false }, data)
    }

    fn over(data: &Shared) -> MemStore {
        MemStore { data: data.clone(), fail: false }
    }

    fn check(&self) -> Result<(), CacheError> {
        if self.fail {
            Err(CacheError::Backend("store unavailable".to_string()))
        } else {
            Ok(())
        }
    }
}

impl CacheClient for MemStore {
    fn h_set(&mut self, key: &str, field: &str, value: &str) -> Result<(), CacheError> {
        self.check()?;
        self.data
            .borrow_mut()
            .entry(key.to_string())
            .or_default()
            .insert(field.to_string(), value.to_string());
        Ok(())
    }

    fn hm_get(&mut self, key: &str, fields: &[String]) -> Result<Vec<Option<String>>, CacheError> {
        self.check()?;
        let data = self.data.borrow();
        Ok(fields
            .iter()
            .map(|f| data.get(key).and_then(|h| h.get(f)).cloned())
            .collect())
    }

    fn h_get_all(&mut self, key: &str) -> Result<Vec<(String, String)>, CacheError> {
        self.check()?;
        let data = self.data.borrow();
        Ok(data
            .get(key)
            .map(|h| h.iter().map(|(f, v)| (f.clone(), v.clone())).collect())
            .unwrap_or_default())
    }

    fn delete(&mut self, key: &str) -> Result<(), CacheError> {
        self.check()?;
        self.data.borrow_mut().remove(key);
        Ok(())
    }

    fn expire(&mut self, _key: &str, _seconds: i64) -> Result<(), CacheError> {
        self.check()
    }
}

fn fields_of(data: &Shared, key: &str) -> Vec<String> {
    let mut v: Vec<String> = data
        .borrow()
        .get(key)
        .map(|h| h.keys().cloned().collect())
        .unwrap_or_default();
    v.sort();
    v
}

fn new_cache(store: MemStore, dim: usize) -> Cache<MemStore, HnswAnnIndex> {
    Cache::new(store, HnswAnnIndex::new(1000, dim), "embeddings".to_string(), dim, 0)
}

#[test]
fn empty_cache_search_is_empty_then_store_succeeds() {
    let (store, data) = MemStore::new();
    let mut cache = new_cache(store, 2);
    let found = cache.semantic_search(&[1, 0], 5).unwrap();
    assert!(found.is_empty());
    cache.store_embedding("q".to_string(), vec![1, 0], "a".to_string()).unwrap();
    assert_eq!(fields_of(&data, "embeddings"), vec!["0".to_string()]);
    let found = cache.semantic_search(&[1, 0], 5).unwrap();
    assert_eq!(found.len(), 1);
    assert_eq!(found[0].response, "a");
}

#[test]
fn nearest_record_comes_first() {
    let (store, _data) = MemStore::new();
    let mut cache = new_cache(store, 2);
    cache.store_embedding("A".to_string(), vec![1, 0], "x".to_string()).unwrap();
    cache.store_embedding("B".to_string(), vec![0, 1], "y".to_string()).unwrap();
    let found = cache.semantic_search(&[1, 0], 2).unwrap();
    assert_eq!(found.len(), 2);
    assert_eq!(found[0].response, "x");
    assert_eq!(found[0].query, "A");
    assert_eq!(found[0].embedding, vec![1, 0]);
    assert_eq!(found[1].response, "y");
}

#[test]
fn ids_increase_from_zero() {
    let (store, data) = MemStore::new();
    let mut cache = new_cache(store, 2);
    for i in 0..3 {
        cache.store_embedding(format!("q{}", i), vec![1, i as i16], "r".to_string()).unwrap();
    }
    assert_eq!(fields_of(&data, "embeddings"), vec!["0", "1", "2"]);
    let found = cache.semantic_search(&[1, 0], 3).unwrap();
    let mut ids: Vec<usize> = found.iter().map(|d| d.id).collect();
    ids.sort();
    assert_eq!(ids, vec![0, 1, 2]);
}

#[test]
fn dimension_mismatch_changes_nothing() {
    let (store, data) = MemStore::new();
    let mut cache = new_cache(store, 2);
    let r = cache.store_embedding("q".to_string(), vec![1, 0, 0], "a".to_string());
    assert_eq!(r, Err(CacheError::DimensionMismatch { expected: 2, found: 3 }));
    assert!(fields_of(&data, "embeddings").is_empty());
    let found = cache.semantic_search(&[1, 0], 5).unwrap();
    assert!(found.is_empty());
    let r = cache.semantic_search(&[1], 5);
    assert_eq!(r.err(), Some(CacheError::DimensionMismatch { expected: 2, found: 1 }));
}

#[test]
fn search_clamps_k_to_point_count() {
    let (store, _data) = MemStore::new();
    let mut cache = new_cache(store, 2);
    cache.store_embedding("a".to_string(), vec![1, 0], "1".to_string()).unwrap();
    cache.store_embedding("b".to_string(), vec![1, 1], "2".to_string()).unwrap();
    cache.store_embedding("c".to_string(), vec![0, 1], "3".to_string()).unwrap();
    let found = cache.semantic_search(&[1, 0], 10).unwrap();
    assert_eq!(found.len(), 3);
    let none = cache.semantic_search(&[1, 0], 0).unwrap();
    assert!(none.is_empty());
}

#[test]
fn growing_index_keeps_every_point() {
    let (store, _data) = MemStore::new();
    let mut cache = new_cache(store, 2).with_capacity_policy(1, 1);
    for i in 0..6 {
        cache.store_embedding(format!("q{}", i), vec![10, i as i16 * 7 - 20], format!("r{}", i)).unwrap();
    }
    let found = cache.semantic_search(&[10, -20], 6).unwrap();
    let mut ids: Vec<usize> = found.iter().map(|d| d.id).collect();
    ids.sort();
    assert_eq!(ids, vec![0, 1, 2, 3, 4, 5]);
    assert_eq!(found[0].id, 0);
}

#[test]
fn every_returned_id_is_in_the_store() {
    let (store, data) = MemStore::new();
    let mut cache = new_cache(store, 2);
    cache.store_embedding("a".to_string(), vec![3, 4], "x".to_string()).unwrap();
    cache.store_embedding("b".to_string(), vec![4, 3], "y".to_string()).unwrap();
    let found = cache.semantic_search(&[3, 4], 2).unwrap();
    let fields = fields_of(&data, "embeddings");
    for d in &found {
        assert!(fields.contains(&d.id.to_string()));
    }
}

#[test]
fn rebuild_from_store_matches_and_moves_next_id() {
    let (store, data) = MemStore::new();
    let mut first = new_cache(store, 2);
    first.store_embedding("a".to_string(), vec![1, 0], "x".to_string()).unwrap();
    first.store_embedding("b".to_string(), vec![0, 1], "y".to_string()).unwrap();
    first.store_embedding("c".to_string(), vec![1, 1], "z".to_string()).unwrap();
    let top = first.semantic_search(&[1, 0], 1).unwrap();

    let mut second = new_cache(MemStore::over(&data), 2);
    let again = second.semantic_search(&[1, 0], 1).unwrap();
    let mut third = new_cache(MemStore::over(&data), 2);
    let once_more = third.semantic_search(&[1, 0], 1).unwrap();
    assert_eq!(top[0].id, again[0].id);
    assert_eq!(again[0].id, once_more[0].id);
    assert_eq!(again[0].response, "x");

    second.store_embedding("d".to_string(), vec![2, 1], "w".to_string()).unwrap();
    assert_eq!(fields_of(&data, "embeddings"), vec!["0", "1", "2", "3"]);
}

#[test]
fn rebuild_skips_unreadable_records() {
    let (store, data) = MemStore::new();
    let mut first = new_cache(store, 2);
    first.store_embedding("a".to_string(), vec![1, 0], "x".to_string()).unwrap();
    data.borrow_mut()
        .get_mut("embeddings")
        .unwrap()
        .insert("7".to_string(), "not a record".to_string());
    let mut second = new_cache(MemStore::over(&data), 2);
    let found = second.semantic_search(&[1, 0], 5).unwrap();
    assert_eq!(found.len(), 1);
    assert_eq!(found[0].response, "x");
}

#[test]
fn missing_records_are_dropped_from_results() {
    let (store, data) = MemStore::new();
    let mut cache = new_cache(store, 2);
    cache.store_embedding("a".to_string(), vec![1, 0], "x".to_string()).unwrap();
    cache.store_embedding("b".to_string(), vec![0, 1], "y".to_string()).unwrap();
    data.borrow_mut().get_mut("embeddings").unwrap().remove("0");
    let found = cache.semantic_search(&[1, 0], 2).unwrap();
    assert_eq!(found.len(), 1);
    assert_eq!(found[0].response, "y");
}

#[test]
fn unreadable_record_in_results_is_an_encoding_error() {
    let (store, data) = MemStore::new();
    let mut cache = new_cache(store, 2);
    cache.store_embedding("a".to_string(), vec![1, 0], "x".to_string()).unwrap();
    data.borrow_mut()
        .get_mut("embeddings")
        .unwrap()
        .insert("0".to_string(), "{".to_string());
    let r = cache.semantic_search(&[1, 0], 1);
    assert_eq!(r.err(), Some(CacheError::Encoding));
}

#[test]
fn backend_failure_is_reported() {
    let (mut store, data) = MemStore::new();
    store.fail = true;
    let mut cache = new_cache(store, 2);
    let r = cache.store_embedding("a".to_string(), vec![1, 0], "x".to_string());
    assert!(matches!(r, Err(CacheError::Backend(_))));
    assert!(fields_of(&data, "embeddings").is_empty());
    let r = cache.semantic_search(&[1, 0], 1);
    assert!(matches!(r, Err(CacheError::Backend(_))));
}

#[test]
fn stored_record_reads_back_exactly() {
    let (store, data) = MemStore::new();
    let mut cache = new_cache(store, 3);
    cache
        .store_embedding("what is \"rust\"?".to_string(), vec![-32768, 0, 32767], "a language\n".to_string())
        .unwrap();
    let text = data.borrow()["embeddings"]["0"].clone();
    assert_ne!(text, "");
    let found = cache.semantic_search(&[-32768, 0, 32767], 1).unwrap();
    assert_eq!(found[0].id, 0);
    assert_eq!(found[0].query, "what is \"rust\"?");
    assert_eq!(found[0].embedding, vec![-32768, 0, 32767]);
    assert_eq!(found[0].response, "a language\n");
    assert!(found[0].timestamp > 1_600_000_000);
}

#[test]
fn hnsw_index_counts_and_resizes() {
    let mut index = HnswAnnIndex::new(2, 2);
    index.add_pt(vec![1, 0], 4).unwrap();
    index.add_pt(vec![0, 1], 9).unwrap();
    assert_eq!(
        index.add_pt(vec![1], 1),
        Err(CacheError::DimensionMismatch { expected: 2, found: 1 })
    );
    assert_eq!(index.get_curr_ct(), 2);
    assert_eq!(index.get_max_elements(), 2);
    index.resize(10);
    assert_eq!(index.get_max_elements(), 10);
    assert_eq!(index.get_curr_ct(), 2);
    let ids = index.search_knn(&[0, 1], 2);
    assert_eq!(ids, vec![9, 4]);
    index.init_index(5, 2);
    assert_eq!(index.get_curr_ct(), 0);
}

#[test]
fn collect_records_keeps_order_and_skips_absent() {
    let (store, data) = MemStore::new();
    let mut cache = new_cache(store, 2);
    cache.store_embedding("a".to_string(), vec![1, 0], "x".to_string()).unwrap();
    cache.store_embedding("b".to_string(), vec![0, 1], "y".to_string()).unwrap();
    let a = data.borrow()["embeddings"]["0"].clone();
    let b = data.borrow()["embeddings"]["1"].clone();
    let got = collect_records(vec![Some(b), None, Some(a)]).unwrap();
    assert_eq!(got.len(), 2);
    assert_eq!(got[0].id, 1);
    assert_eq!(got[0].response, "y");
    assert_eq!(got[1].id, 0);
    assert_eq!(got[1].query, "a");
    assert!(collect_records(Vec::new()).unwrap().is_empty());
    let bad = collect_records(vec![None, Some("[1]".to_string())]);
    assert_eq!(bad.err(), Some(CacheError::Encoding));
}

#[test]
fn records_from_pairs_keeps_readable_ones_in_order() {
    let (store, data) = MemStore::new();
    let mut cache = new_cache(store, 2);
    cache.store_embedding("a".to_string(), vec![1, 0], "x".to_string()).unwrap();
    cache.store_embedding("b".to_string(), vec![0, 1], "y".to_string()).unwrap();
    let a = data.borrow()["embeddings"]["0"].clone();
    let b = data.borrow()["embeddings"]["1"].clone();
    let pairs = vec![
        ("1".to_string(), b),
        ("9".to_string(), "garbage".to_string()),
        ("0".to_string(), a),
    ];
    let got = records_from_pairs(&pairs);
    assert_eq!(got.len(), 2);
    assert_eq!(got[0].response, "y");
    assert_eq!(got[1].response, "x");
    assert!(records_from_pairs(&Vec::new()).is_empty());
}
