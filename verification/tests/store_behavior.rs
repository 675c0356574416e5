use memstore::codec::{decode, encode};
use memstore::error::StoreError;
use memstore::rank::rank_indices;
use memstore::store::MemoryCollection;

fn row(xs: &[f32]) -> Vec<u32> {
    xs.iter().map(|x| x.to_bits()).collect()
}

fn scores_for(c: &MemoryCollection, q: &[f32]) -> Vec<u32> {
    c.embeddings()
        .iter()
        .map(|r| {
            let s: f32 = r.iter().zip(q.iter()).map(|(b, x)| f32::from_bits(*b) * x).sum();
            s.to_bits()
        })
        .collect()
}

#[test]
fn empty_store_get_returns_none() {
    let c = MemoryCollection::new(2);
    let scores: Vec<u32> = Vec::new();
    assert!(c.get_scored(&scores).is_none());
}

#[test]
fn empty_store_list_returns_empty() {
    let c = MemoryCollection::new(2);
    let scores: Vec<u32> = Vec::new();
    assert!(c.list_scored(&scores, 10).is_empty());
    assert!(c.is_empty());
}

#[test]
fn insert_appends_in_order() {
    let mut c = MemoryCollection::new(2);
    c.insert("buy milk".to_string(), "grocery reminder".to_string(), row(&[1.0, 0.0])).unwrap();
    c.insert("call mom".to_string(), "family reminder".to_string(), row(&[0.0, 1.0])).unwrap();
    assert_eq!(c.len(), 2);
    assert_eq!(c.memory_at(0).value, "buy milk");
    assert_eq!(c.memory_at(0).description, "grocery reminder");
    assert_eq!(c.memory_at(1).value, "call mom");
    assert_eq!(c.memory_at(1).description, "family reminder");
}

#[test]
fn dimension_mismatch_rejected_and_state_unchanged() {
    let mut c = MemoryCollection::new(2);
    c.insert("first".to_string(), "one".to_string(), row(&[0.5, 0.5])).unwrap();
    let before = encode(&c);
    let r = c.insert("second".to_string(), "two".to_string(), row(&[1.0, 2.0, 3.0]));
    assert_eq!(r, Err(StoreError::DimensionMismatch { expected: 2, actual: 3 }));
    assert_eq!(c.len(), 1);
    let after = encode(&c);
    assert_eq!(before, after);
}

#[test]
fn validate_query_checks_dimensionality() {
    let c = MemoryCollection::new(3);
    assert!(c.validate_query(&row(&[1.0, 2.0, 3.0])).is_ok());
    assert_eq!(
        c.validate_query(&row(&[1.0])),
        Err(StoreError::DimensionMismatch { expected: 3, actual: 1 })
    );
}

#[test]
fn concrete_scenario_grocery_beats_family() {
    let mut c = MemoryCollection::new(2);
    c.insert("buy milk".to_string(), "grocery reminder".to_string(), row(&[1.0, 0.0])).unwrap();
    c.insert("call mom".to_string(), "family reminder".to_string(), row(&[0.0, 1.0])).unwrap();
    let scores = scores_for(&c, &[1.0, 0.0]);
    let top = c.get_scored(&scores).unwrap();
    assert_eq!(top.value, "buy milk");
    assert_eq!(top.description, "grocery reminder");
    assert_eq!(f32::from_bits(top.score_bits), 1.0);
}

#[test]
fn list_orders_by_descending_score() {
    let mut c = MemoryCollection::new(1);
    c.insert("low".to_string(), "a".to_string(), row(&[-1.5])).unwrap();
    c.insert("high".to_string(), "b".to_string(), row(&[2.0])).unwrap();
    c.insert("mid".to_string(), "c".to_string(), row(&[-0.25])).unwrap();
    let scores = scores_for(&c, &[1.0]);
    let listed = c.list_scored(&scores, 10);
    let values: Vec<&str> = listed.iter().map(|m| m.value.as_str()).collect();
    assert_eq!(values, vec!["high", "mid", "low"]);
    assert_eq!(f32::from_bits(listed[0].score_bits), 2.0);
    assert_eq!(f32::from_bits(listed[1].score_bits), -0.25);
    assert_eq!(f32::from_bits(listed[2].score_bits), -1.5);
}

#[test]
fn ranking_breaks_ties_by_storage_order() {
    let scores = row(&[2.0, 5.0, 5.0, -0.0, 0.0]);
    let order = rank_indices(&scores);
    assert_eq!(order, vec![1, 2, 0, 3, 4]);
}

#[test]
fn get_returns_first_of_tied_maxima() {
    let mut c = MemoryCollection::new(1);
    c.insert("first".to_string(), "a".to_string(), row(&[5.0])).unwrap();
    c.insert("second".to_string(), "b".to_string(), row(&[5.0])).unwrap();
    let scores = scores_for(&c, &[1.0]);
    let top = c.get_scored(&scores).unwrap();
    assert_eq!(top.value, "first");
}

#[test]
fn list_is_deterministic_across_calls() {
    let mut c = MemoryCollection::new(2);
    c.insert("a".to_string(), "x".to_string(), row(&[1.0, 2.0])).unwrap();
    c.insert("b".to_string(), "y".to_string(), row(&[2.0, 1.0])).unwrap();
    c.insert("c".to_string(), "z".to_string(), row(&[1.5, 1.5])).unwrap();
    let scores = scores_for(&c, &[0.5, 0.25]);
    let first: Vec<(String, u32)> =
        c.list_scored(&scores, 10).into_iter().map(|m| (m.value, m.score_bits)).collect();
    let second: Vec<(String, u32)> =
        c.list_scored(&scores, 10).into_iter().map(|m| (m.value, m.score_bits)).collect();
    assert_eq!(first, second);
}

#[test]
fn truncation_yields_prefixes() {
    let mut c = MemoryCollection::new(1);
    c.insert("a".to_string(), "x".to_string(), row(&[3.0])).unwrap();
    c.insert("b".to_string(), "y".to_string(), row(&[1.0])).unwrap();
    c.insert("c".to_string(), "z".to_string(), row(&[2.0])).unwrap();
    let scores = scores_for(&c, &[1.0]);
    let full: Vec<String> = c.list_scored(&scores, 10).into_iter().map(|m| m.value).collect();
    for count in 0..4usize {
        let part: Vec<String> =
            c.list_scored(&scores, count).into_iter().map(|m| m.value).collect();
        assert_eq!(part.len(), count.min(3));
        assert_eq!(part[..], full[..part.len()]);
    }
}

#[test]
fn list_count_zero_is_empty() {
    let mut c = MemoryCollection::new(1);
    c.insert("a".to_string(), "x".to_string(), row(&[1.0])).unwrap();
    let scores = scores_for(&c, &[1.0]);
    assert!(c.list_scored(&scores, 0).is_empty());
}

#[test]
fn round_trip_preserves_records_and_listing_order() {
    let mut c = MemoryCollection::new(2);
    c.insert("buy milk".to_string(), "grocery reminder".to_string(), row(&[1.0, 0.0])).unwrap();
    c.insert("call mom".to_string(), "family reminder".to_string(), row(&[0.0, 1.0])).unwrap();
    c.insert("третий".to_string(), "unicode χ описание".to_string(), row(&[0.5, -2.25])).unwrap();
    let bytes = encode(&c);
    let c2 = decode(&bytes, 2).unwrap();
    assert_eq!(c2.len(), 3);
    assert_eq!(c2.dim(), 2);
    for i in 0..3 {
        assert_eq!(c2.memory_at(i).value, c.memory_at(i).value);
        assert_eq!(c2.memory_at(i).description, c.memory_at(i).description);
    }
    assert_eq!(c2.embeddings(), c.embeddings());
    // Equal scores everywhere: ties resolve to insertion order.
    let scores = row(&[7.0, 7.0, 7.0]);
    let values: Vec<String> = c2.list_scored(&scores, 10).into_iter().map(|m| m.value).collect();
    assert_eq!(values, vec!["buy milk", "call mom", "третий"]);
}
