use retrieval::error::SearchError;
use retrieval::rank::{rank_by_key, rank_records, rank_scores};
use retrieval::record::{
    add_record, build_record, load_records, new_record, storage_result, stored_id, EmbeddingRecord,
    EmbeddingStorage,
};
use retrieval::score::score_key;
use retrieval::similarity::check_dimensions;

struct MemoryStore {
    records: Vec<EmbeddingRecord<Vec<f32>>>,
    fail: bool,
}

impl EmbeddingStorage<Vec<f32>> for MemoryStore {
    fn store_embedding(&mut self, record: EmbeddingRecord<Vec<f32>>) -> Result<(), String> {
        if self.fail {
            return Err("disk full".to_string());
        }
        self.records.push(record);
        Ok(())
    }

    fn get_all_embeddings(&self) -> Result<Vec<EmbeddingRecord<Vec<f32>>>, String> {
        if self.fail {
            return Err("unreadable".to_string());
        }
        Ok(self.records.clone())
    }
}

fn cosine(a: &[f32], b: &[f32]) -> f32 {
    let dot: f32 = a.iter().zip(b).map(|(x, y)| x * y).sum();
    let na: f32 = a.iter().map(|x| x * x).sum::<f32>().sqrt();
    let nb: f32 = b.iter().map(|x| x * x).sum::<f32>().sqrt();
    dot / (na * nb)
}

fn search(store: &MemoryStore, query: &[f32], k: usize) -> Vec<(EmbeddingRecord<Vec<f32>>, u32)> {
    let records = load_records(store).unwrap();
    let scores: Vec<u32> = records.iter().map(|r| cosine(query, &r.embedding).to_bits()).collect();
    rank_records(records, &scores, k)
}

#[test]
fn score_key_orders_numbers() {
    let values = [-f32::INFINITY, -2.5, -1.0, -0.0, 0.0, 0.25, 1.0, f32::INFINITY];
    for w in values.windows(2) {
        assert!(score_key(w[0].to_bits()) <= score_key(w[1].to_bits()));
    }
    assert!(score_key((-1.0f32).to_bits()) < score_key(0.5f32.to_bits()));
    assert_eq!(score_key(0.0f32.to_bits()), score_key((-0.0f32).to_bits()));
}

#[test]
fn score_key_exact_values() {
    assert_eq!(score_key(0.0f32.to_bits()), 0x8000_0000);
    assert_eq!(score_key(1.0f32.to_bits()), 0x8000_0000 + 0x3f80_0000);
    assert_eq!(score_key((-1.0f32).to_bits()), 0x8000_0000 - 0x3f80_0000);
    assert_eq!(score_key(f32::NAN.to_bits()), 0);
    assert_eq!(score_key((-f32::NAN).to_bits()), 0);
}

#[test]
fn nan_sorts_below_everything() {
    assert!(score_key(f32::NAN.to_bits()) < score_key(f32::NEG_INFINITY.to_bits()));
    let scores = vec![f32::NAN.to_bits(), (-0.9f32).to_bits(), 0.3f32.to_bits()];
    assert_eq!(rank_scores(&scores, 3), vec![2, 1, 0]);
}

#[test]
fn rank_by_key_descending_and_stable() {
    let keys = vec![5, 9, 5, 1, 9];
    assert_eq!(rank_by_key(&keys, 5), vec![1, 4, 0, 2, 3]);
    assert_eq!(rank_by_key(&keys, 3), vec![1, 4, 0]);
}

#[test]
fn rank_limit_zero_is_empty() {
    assert!(rank_by_key(&vec![3, 2, 1], 0).is_empty());
}

#[test]
fn rank_limit_larger_than_store_returns_all() {
    assert_eq!(rank_by_key(&vec![1, 3, 2], 10), vec![1, 2, 0]);
}

#[test]
fn rank_empty_store_is_empty_for_any_limit() {
    for k in [0usize, 1, 5, usize::MAX] {
        assert!(rank_by_key(&vec![], k).is_empty());
        assert!(rank_scores(&vec![], k).is_empty());
    }
}

#[test]
fn rank_never_exceeds_limit_and_is_sorted() {
    let scores: Vec<u32> = [0.1f32, 0.9, -0.4, 0.5, 0.9, 0.0].iter().map(|s| s.to_bits()).collect();
    for k in 0..8 {
        let order = rank_scores(&scores, k);
        assert!(order.len() <= k);
        for w in order.windows(2) {
            assert!(f32::from_bits(scores[w[0]]) >= f32::from_bits(scores[w[1]]));
        }
    }
}

#[test]
fn rank_records_pairs_records_with_scores() {
    let scores: Vec<u32> = [0.2f32, 0.7, 0.5].iter().map(|s| s.to_bits()).collect();
    let ranked = rank_records(vec!["a", "b", "c"], &scores, 2);
    assert_eq!(ranked, vec![("b", 0.7f32.to_bits()), ("c", 0.5f32.to_bits())]);
}

#[test]
fn dimension_check() {
    assert_eq!(check_dimensions(3, 3), Ok(()));
    assert_eq!(
        check_dimensions(3, 4),
        Err(SearchError::DimensionMismatch { left: 3, right: 4 })
    );
}

#[test]
fn new_record_fields() {
    let r = new_record("Alice", vec![1.0f32, 0.0]);
    assert_eq!(r.name, "Alice");
    assert_eq!(r.embedding, vec![1.0f32, 0.0]);
    assert_eq!(r.id.len(), 36);
    assert!(r.metadata.is_empty());
    let other = new_record("Alice", vec![1.0f32, 0.0]);
    assert_ne!(r.id, other.id);
}

#[test]
fn add_record_stores_one_record() {
    let mut store = MemoryStore { records: Vec::new(), fail: false };
    let id = add_record(&mut store, "Alice", vec![1.0f32, 2.0]).unwrap();
    assert_eq!(id.len(), 36);
    assert_eq!(store.records.len(), 1);
    assert_eq!(store.records[0].id, id);
    assert_eq!(store.records[0].name, "Alice");
}

#[test]
fn add_record_propagates_store_failure() {
    let mut store = MemoryStore { records: Vec::new(), fail: true };
    let r = add_record(&mut store, "Alice", vec![1.0f32]);
    assert_eq!(r, Err(SearchError::StorageFailure("disk full".to_string())));
    assert_eq!(
        load_records(&store).map(|v| v.len()),
        Err(SearchError::StorageFailure("unreadable".to_string()))
    );
}

#[test]
fn added_record_is_found_first() {
    let mut store = MemoryStore { records: Vec::new(), fail: false };
    add_record(&mut store, "Bob", vec![0.0f32, 1.0, 0.0]).unwrap();
    let id = add_record(&mut store, "Alice", vec![0.6f32, 0.8, 0.0]).unwrap();
    let found = search(&store, &[0.6, 0.8, 0.0], 2);
    assert_eq!(found[0].0.id, id);
    assert!((f32::from_bits(found[0].1) - 1.0).abs() < 1e-5);
}

#[test]
fn alice_ranks_above_bob() {
    let mut store = MemoryStore { records: Vec::new(), fail: false };
    add_record(&mut store, "Bob", vec![0.2f32, 0.9, 0.1]).unwrap();
    add_record(&mut store, "Alice", vec![0.9f32, 0.1, 0.3]).unwrap();
    let found = search(&store, &[0.9, 0.1, 0.3], 10);
    assert_eq!(found.len(), 2);
    assert_eq!(found[0].0.name, "Alice");
    assert_eq!(found[1].0.name, "Bob");
    let top = search(&store, &[0.9, 0.1, 0.3], 1);
    assert_eq!(top.len(), 1);
    assert_eq!(top[0].0.name, "Alice");
}

#[test]
fn empty_store_search_is_empty() {
    let store = MemoryStore { records: Vec::new(), fail: false };
    assert!(search(&store, &[1.0, 0.0], 3).is_empty());
}

fn assert_uuid_v4_text(id: &str) {
    let chars: Vec<char> = id.chars().collect();
    assert_eq!(chars.len(), 36);
    for (i, c) in chars.iter().enumerate() {
        if [8, 13, 18, 23].contains(&i) {
            assert_eq!(*c, '-');
        } else {
            assert!(c.is_ascii_digit() || ('a'..='f').contains(c));
        }
    }
    assert_eq!(chars[14], '4');
    assert!(['8', '9', 'a', 'b'].contains(&chars[19]));
}

#[test]
fn record_ids_are_uuid_v4_text() {
    assert_uuid_v4_text(&new_record("Alice", 1u8).id);
    let mut store = MemoryStore { records: Vec::new(), fail: false };
    let id = add_record(&mut store, "Bob", vec![0.5f32]).unwrap();
    assert_uuid_v4_text(&id);
}

#[test]
fn build_record_keeps_every_field() {
    let r = build_record("Carol", vec![0.25f32, -1.0], "abc".to_string(), 1_700_000_000_123);
    assert_eq!(r.id, "abc");
    assert_eq!(r.name, "Carol");
    assert_eq!(r.embedding, vec![0.25f32, -1.0]);
    assert_eq!(r.created_at_millis, 1_700_000_000_123);
    assert!(r.metadata.is_empty());
}

#[test]
fn add_record_stamps_current_time() {
    let mut store = MemoryStore { records: Vec::new(), fail: false };
    add_record(&mut store, "Dan", vec![1.0f32]).unwrap();
    assert!(store.records[0].created_at_millis > 1_600_000_000_000);
}

#[test]
fn storage_result_keeps_value_and_message() {
    assert_eq!(storage_result::<u32>(Ok(7)), Ok(7));
    assert_eq!(
        storage_result::<u32>(Err("timeout".to_string())),
        Err(SearchError::StorageFailure("timeout".to_string()))
    );
}

#[test]
fn stored_id_follows_the_store() {
    assert_eq!(stored_id("id-1".to_string(), Ok(())), Ok("id-1".to_string()));
    assert_eq!(
        stored_id("id-1".to_string(), Err("full".to_string())),
        Err(SearchError::StorageFailure("full".to_string()))
    );
}
