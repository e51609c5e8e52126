use imesde::engine::Shard;
use imesde::engine::ShardedCircularBuffer;
use imesde::engine::NUM_SHARDS;
use imesde::engine::SHARD_SIZE;
use imesde::models::VectorRecord;

fn words(components: &[f32]) -> Vec<u32> {
    components.iter().map(|c| c.to_bits()).collect()
}

fn floats(words: &[u32]) -> Vec<f32> {
    words.iter().map(|w| f32::from_bits(*w)).collect()
}

fn cosine_similarity(v1: &[f32], v2: &[f32]) -> f32 {
    if v1.len() != v2.len() || v1.is_empty() {
        return 0.0;
    }
    let dot_product: f32 = v1.iter().zip(v2.iter()).map(|(a, b)| a * b).sum();
    let norm_v1: f32 = v1.iter().map(|a| a * a).sum::<f32>().sqrt();
    let norm_v2: f32 = v2.iter().map(|b| b * b).sum::<f32>().sqrt();
    if norm_v1 == 0.0 || norm_v2 == 0.0 {
        return 0.0;
    }
    dot_product / (norm_v1 * norm_v2)
}

fn dot_product(v1: &[f32], v2: &[f32]) -> f32 {
    if v1.len() != v2.len() || v1.is_empty() {
        return 0.0;
    }
    v1.iter().zip(v2.iter()).map(|(a, b)| a * b).sum()
}

// An integer that orders as the score does.
fn score_key(score: f32) -> i64 {
    let bits = score.to_bits();
    let magnitude = i64::from(bits & 0x7fff_ffff);
    if bits & 0x8000_0000 != 0 {
        -magnitude
    } else {
        magnitude
    }
}

fn key_score(key: i64) -> f32 {
    if key < 0 {
        -f32::from_bits(u32::try_from(-key).unwrap())
    } else {
        f32::from_bits(u32::try_from(key).unwrap())
    }
}

fn cosine_metric(query: &[u32], vector: &[u32]) -> i64 {
    score_key(cosine_similarity(&floats(query), &floats(vector)))
}

fn dot_metric(query: &[u32], vector: &[u32]) -> i64 {
    score_key(dot_product(&floats(query), &floats(vector)))
}

fn record(id: &str, components: &[f32], metadata: &str) -> VectorRecord {
    VectorRecord::new(id.to_string(), words(components), metadata.to_string())
}

fn ids(hits: &[(std::sync::Arc<VectorRecord>, i64)]) -> Vec<String> {
    hits.iter().map(|(r, _)| r.id.clone()).collect()
}

#[test]
fn test_search_functionality() {
    let mut buffer = ShardedCircularBuffer::new(NUM_SHARDS, SHARD_SIZE);

    // Insert some known vectors
    buffer.insert(VectorRecord::new("1".into(), words(&[1.0, 0.0, 0.0]), "vec 1".into())).unwrap();
    buffer.insert(VectorRecord::new("2".into(), words(&[0.0, 1.0, 0.0]), "vec 2".into())).unwrap();
    buffer.insert(VectorRecord::new("3".into(), words(&[0.5, 0.5, 0.0]), "vec 3".into())).unwrap();

    let query = words(&[1.0, 0.1, 0.0]);
    let top_k = buffer.search(&query, 2, &cosine_metric);

    assert_eq!(top_k.len(), 2);
    assert_eq!(top_k[0].0.id, "1"); // Most similar
    assert_eq!(top_k[1].0.id, "3"); // Second most similar

    println!(
        "Search test passed: Found records {:?} with similarities {:?}",
        top_k.iter().map(|(r, _)| &r.id).collect::<Vec<_>>(),
        top_k.iter().map(|(_, s)| s).collect::<Vec<_>>()
    );
}

#[test]
fn test_cosine_similarity() {
    let v1 = vec![1.0, 0.0, 0.0];
    let v2 = vec![1.0, 0.0, 0.0];
    let v3 = vec![0.0, 1.0, 0.0];
    let v4 = vec![-1.0, 0.0, 0.0];

    let mut buffer = ShardedCircularBuffer::new(NUM_SHARDS, SHARD_SIZE);
    buffer.insert(record("same", &v2, "")).unwrap();
    buffer.insert(record("ortho", &v3, "")).unwrap();
    buffer.insert(record("opp", &v4, "")).unwrap();

    let found = buffer.search(&words(&v1), 3, &cosine_metric);
    assert_eq!(ids(&found), vec!["same", "ortho", "opp"]);

    let sim = key_score(found[0].1);
    assert!((sim - 1.0).abs() < f32::EPSILON);

    let sim_ortho = key_score(found[1].1);
    assert!(sim_ortho.abs() < f32::EPSILON);

    let sim_opp = key_score(found[2].1);
    assert!((sim_opp + 1.0).abs() < f32::EPSILON);
}

#[test]
fn search_scores_are_what_the_metric_returns() {
    let mut buffer = ShardedCircularBuffer::new(4, 8);
    buffer.insert(record("a", &[3.0, 4.0], "first")).unwrap();
    buffer.insert(record("b", &[1.0, 0.0], "second")).unwrap();
    let query = words(&[2.0, 1.0]);
    let found = buffer.search(&query, 5, &dot_metric);
    assert_eq!(ids(&found), vec!["a", "b"]);
    assert_eq!(found[0].1, score_key(10.0));
    assert_eq!(found[1].1, score_key(2.0));
    assert_eq!(key_score(found[0].1), 10.0);
    assert_eq!(found[0].0.metadata, "first");
    assert_eq!(found[1].0.metadata, "second");
    assert_eq!(floats(&found[0].0.vector), vec![3.0, 4.0]);
}

#[test]
fn search_with_k_zero_is_empty() {
    let mut buffer = ShardedCircularBuffer::new(4, 8);
    buffer.insert(record("a", &[1.0, 0.0], "")).unwrap();
    buffer.insert(record("b", &[0.0, 1.0], "")).unwrap();
    let found = buffer.search(&words(&[1.0, 0.0]), 0, &cosine_metric);
    assert!(found.is_empty());
}

#[test]
fn search_on_an_empty_store_is_empty() {
    let buffer = ShardedCircularBuffer::new(NUM_SHARDS, SHARD_SIZE);
    let found = buffer.search(&words(&[1.0, 0.0]), 10, &cosine_metric);
    assert!(found.is_empty());
    assert_eq!(buffer.len(), 0);
}

#[test]
fn search_returns_what_there_is_when_k_is_larger() {
    let mut buffer = ShardedCircularBuffer::new(NUM_SHARDS, SHARD_SIZE);
    for i in 0..7u32 {
        let id = format!("doc_{}", i);
        buffer.insert(record(&id, &[1.0, f32::from(u8::try_from(i).unwrap())], "")).unwrap();
    }
    assert_eq!(buffer.search(&words(&[1.0, 0.0]), 7, &cosine_metric).len(), 7);
    assert_eq!(buffer.search(&words(&[1.0, 0.0]), 8, &cosine_metric).len(), 7);
    assert_eq!(buffer.search(&words(&[1.0, 0.0]), 1000, &cosine_metric).len(), 7);
    assert_eq!(buffer.search(&words(&[1.0, 0.0]), usize::MAX, &cosine_metric).len(), 7);
    assert_eq!(buffer.search(&words(&[1.0, 0.0]), 3, &cosine_metric).len(), 3);
}

#[test]
fn search_ranks_across_shards_best_first() {
    let mut buffer = ShardedCircularBuffer::new(8, 4);
    // Scores 0..20 under the dot metric with the query [1.0].
    for i in 0..20u8 {
        let id = format!("doc_{}", i);
        buffer.insert(record(&id, &[f32::from(i)], "")).unwrap();
    }
    let held = buffer.records();
    let mut expected: Vec<i64> =
        held.iter().map(|r| dot_metric(&words(&[1.0]), &r.vector)).collect();
    expected.sort();
    expected.reverse();
    let found = buffer.search(&words(&[1.0]), 5, &dot_metric);
    assert_eq!(found.len(), 5);
    let scores: Vec<i64> = found.iter().map(|(_, s)| *s).collect();
    assert_eq!(scores, expected[..5].to_vec());
    for pair in found.windows(2) {
        assert!(pair[0].1 >= pair[1].1);
    }
    for (r, s) in found.iter() {
        assert_eq!(*s, dot_metric(&words(&[1.0]), &r.vector));
    }
}

#[test]
fn search_keeps_one_of_two_tied_records() {
    let mut buffer = ShardedCircularBuffer::new(4, 4);
    buffer.insert(record("x", &[1.0, 0.0], "")).unwrap();
    buffer.insert(record("y", &[1.0, 0.0], "")).unwrap();
    buffer.insert(record("z", &[0.0, 1.0], "")).unwrap();
    let found = buffer.search(&words(&[1.0, 0.0]), 1, &cosine_metric);
    assert_eq!(found.len(), 1);
    assert!(found[0].0.id == "x" || found[0].0.id == "y");
    let both = buffer.search(&words(&[1.0, 0.0]), 2, &cosine_metric);
    let mut names = ids(&both);
    names.sort();
    assert_eq!(names, vec!["x", "y"]);
}

#[test]
fn search_with_a_query_of_another_length_scores_zero() {
    let mut buffer = ShardedCircularBuffer::new(4, 4);
    buffer.insert(record("a", &[1.0, 0.0, 0.0], "")).unwrap();
    buffer.insert(record("b", &[0.0, 1.0, 0.0], "")).unwrap();
    let found = buffer.search(&words(&[1.0, 0.0]), 2, &cosine_metric);
    assert_eq!(found.len(), 2);
    assert_eq!(found[0].1, 0);
    assert_eq!(found[1].1, 0);
    let none = buffer.search(&words(&[]), 2, &cosine_metric);
    assert_eq!(none.len(), 2);
    assert_eq!(none[0].1, 0);
}

#[test]
fn unit_vectors_score_the_same_under_both_metrics() {
    let a = [0.6f32, 0.8];
    let b = [0.8f32, 0.6];
    let mut buffer = ShardedCircularBuffer::new(2, 2);
    buffer.insert(record("b", &b, "")).unwrap();
    let by_cosine = buffer.search(&words(&a), 1, &cosine_metric);
    let by_dot = buffer.search(&words(&a), 1, &dot_metric);
    assert!((key_score(by_cosine[0].1) - key_score(by_dot[0].1)).abs() < 1e-6);
    assert!((key_score(by_dot[0].1) - 0.96).abs() < 1e-6);
}

#[test]
fn a_search_result_outlives_its_slot() {
    let mut buffer = ShardedCircularBuffer::new(1, 1);
    buffer.insert(record("old", &[1.0], "kept by the reader")).unwrap();
    let found = buffer.search(&words(&[1.0]), 1, &cosine_metric);
    buffer.insert(record("new", &[1.0], "")).unwrap();
    assert_eq!(found[0].0.id, "old");
    assert_eq!(found[0].0.metadata, "kept by the reader");
    assert_eq!(ids(&buffer.search(&words(&[1.0]), 1, &cosine_metric)), vec!["new"]);
}

#[test]
fn default_store_has_the_default_shape() {
    let mut buffer = ShardedCircularBuffer::default();
    assert_eq!(buffer.len(), 0);
    assert_eq!(buffer.get_shard_index("1"), fxhash::hash("1") % NUM_SHARDS);
    buffer.insert(record("1", &[1.0], "")).unwrap();
    assert_eq!(buffer.len(), 1);
}

#[test]
fn a_shard_scan_returns_its_k_best() {
    let mut shard = Shard::new(8);
    for (id, x) in [("a", 0.5f32), ("b", 4.0), ("c", -1.0), ("d", 2.5), ("e", 3.0)] {
        shard.insert(std::sync::Arc::new(record(id, &[x], "")));
    }
    let query = words(&[2.0]);
    let found = shard.scan_top_k(&query, 3, &dot_metric);
    assert_eq!(ids(&found), vec!["b", "e", "d"]);
    assert_eq!(found[0].1, score_key(8.0));
    assert_eq!(found[1].1, score_key(6.0));
    assert_eq!(found[2].1, score_key(5.0));
    assert_eq!(ids(&shard.scan_top_k(&query, 0, &dot_metric)), Vec::<String>::new());
    assert_eq!(ids(&shard.scan_top_k(&query, 9, &dot_metric)), vec!["b", "e", "d", "a", "c"]);
}

#[test]
fn a_shard_scan_passes_over_empty_slots() {
    let mut shard = Shard::new(100);
    shard.insert(std::sync::Arc::new(record("only", &[1.0], "")));
    let found = shard.scan_top_k(&words(&[1.0]), 10, &cosine_metric);
    assert_eq!(ids(&found), vec!["only"]);
    let empty = Shard::new(5);
    assert!(empty.scan_top_k(&words(&[1.0]), 10, &cosine_metric).is_empty());
}

#[test]
fn an_evicted_record_is_no_longer_found() {
    let mut buffer = ShardedCircularBuffer::new(1, 2);
    buffer.insert(record("best", &[1.0, 0.0], "")).unwrap();
    buffer.insert(record("mid", &[0.7, 0.7], "")).unwrap();
    let query = words(&[1.0, 0.0]);
    assert_eq!(ids(&buffer.search(&query, 1, &cosine_metric)), vec!["best"]);
    buffer.insert(record("worst", &[0.0, 1.0], "")).unwrap();
    assert_eq!(ids(&buffer.search(&query, 3, &cosine_metric)), vec!["mid", "worst"]);
}

#[test]
fn score_keys_order_as_scores_do() {
    let scores = [-1.0f32, -0.5, -1e-30, 0.0, 1e-30, 0.25, 0.96, 1.0, 10.0];
    for pair in scores.windows(2) {
        assert!(score_key(pair[0]) < score_key(pair[1]));
    }
    assert_eq!(score_key(0.0), score_key(-0.0));
    for score in scores {
        assert_eq!(key_score(score_key(score)), score);
    }
}
