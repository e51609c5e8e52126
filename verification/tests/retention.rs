use std::sync::Arc;
use std::sync::Mutex;

use imesde::engine::Shard;
use imesde::engine::ShardedCircularBuffer;
use imesde::engine::NUM_SHARDS;
use imesde::engine::SHARD_SIZE;
use imesde::models::VectorRecord;

fn record(id: &str) -> VectorRecord {
    VectorRecord::new(id.to_string(), vec![1.0f32.to_bits(), 0.0f32.to_bits()], format!("about {}", id))
}

fn ids(records: &[Arc<VectorRecord>]) -> Vec<String> {
    records.iter().map(|r| r.id.clone()).collect()
}

#[test]
fn test_stress_sharded_buffer() {
    let buffer = Arc::new(Mutex::new(ShardedCircularBuffer::new(NUM_SHARDS, SHARD_SIZE)));
    let num_threads = 10;
    let inserts_per_thread = 1000;

    println!("Starting stress test with {} threads...", num_threads);

    rayon::scope(|scope| {
        for t in 0..num_threads {
            let buffer_ref = Arc::clone(&buffer);
            scope.spawn(move |_| {
                for i in 0..inserts_per_thread {
                    let record = VectorRecord::new(
                        format!("thread_{}_doc_{}", t, i),
                        vec![f32::from(u16::try_from(i).unwrap()).to_bits(); 128],
                        format!("metadata from thread {}", t),
                    );
                    buffer_ref.lock().unwrap().insert(record).unwrap();
                }
            });
        }
    });

    let store = buffer.lock().unwrap();
    let live = store.len();
    assert!(live <= num_threads * inserts_per_thread);
    assert!(live <= NUM_SHARDS * SHARD_SIZE);
    assert!(live >= NUM_SHARDS);
    // Whatever the interleaving, a shard holds as many records as were routed
    // to it, up to its capacity.
    let mut routed = vec![0usize; NUM_SHARDS];
    for t in 0..num_threads {
        for i in 0..inserts_per_thread {
            let id = format!("thread_{}_doc_{}", t, i);
            routed[fxhash::hash(id.as_str()) % NUM_SHARDS] += 1;
        }
    }
    let expected: usize = routed.iter().map(|n| (*n).min(SHARD_SIZE)).sum();
    assert_eq!(live, expected);
    for held in store.records() {
        let mut parts = held.id.split('_');
        assert_eq!(parts.next(), Some("thread"));
        let t: usize = parts.next().unwrap().parse().unwrap();
        assert_eq!(parts.next(), Some("doc"));
        let i: u16 = parts.next().unwrap().parse().unwrap();
        assert!(t < num_threads);
        assert!(usize::from(i) < inserts_per_thread);
        assert_eq!(held.metadata, format!("metadata from thread {}", t));
        assert_eq!(held.vector, vec![f32::from(i).to_bits(); 128]);
    }

    println!("Test Passed: The circular buffer works under stress!");
}

#[test]
fn a_shard_below_capacity_holds_every_record_in_order() {
    let mut shard = Shard::new(4);
    assert_eq!(shard.len(), 0);
    assert!(shard.records().is_empty());
    for name in ["a", "b", "c"] {
        shard.insert(Arc::new(record(name)));
    }
    assert_eq!(shard.len(), 3);
    assert_eq!(ids(&shard.records()), vec!["a", "b", "c"]);
}

#[test]
fn a_full_shard_overwrites_its_oldest_slot() {
    let mut shard = Shard::new(3);
    for name in ["r0", "r1", "r2"] {
        shard.insert(Arc::new(record(name)));
    }
    assert_eq!(ids(&shard.records()), vec!["r0", "r1", "r2"]);
    shard.insert(Arc::new(record("r3")));
    assert_eq!(shard.len(), 3);
    assert_eq!(ids(&shard.records()), vec!["r3", "r1", "r2"]);
    shard.insert(Arc::new(record("r4")));
    assert_eq!(ids(&shard.records()), vec!["r3", "r4", "r2"]);
    shard.insert(Arc::new(record("r5")));
    assert_eq!(ids(&shard.records()), vec!["r3", "r4", "r5"]);
    shard.insert(Arc::new(record("r6")));
    assert_eq!(ids(&shard.records()), vec!["r6", "r4", "r5"]);
    assert_eq!(shard.len(), 3);
}

#[test]
fn a_shard_of_one_slot_holds_the_last_record() {
    let mut shard = Shard::new(1);
    for i in 0..10 {
        shard.insert(Arc::new(record(&format!("r{}", i))));
        assert_eq!(shard.len(), 1);
    }
    assert_eq!(ids(&shard.records()), vec!["r9"]);
}

#[test]
fn one_shard_retains_the_most_recent_records() {
    let mut store = ShardedCircularBuffer::new(1, 5);
    for i in 0..23 {
        store.insert(record(&format!("doc_{}", i))).unwrap();
    }
    assert_eq!(store.len(), 5);
    let mut held = ids(&store.records());
    held.sort();
    assert_eq!(held, vec!["doc_18", "doc_19", "doc_20", "doc_21", "doc_22"]);
}

#[test]
fn each_shard_retains_the_most_recent_records_routed_to_it() {
    let shard_count = 4;
    let capacity = 8;
    let total = 200;
    let mut store = ShardedCircularBuffer::new(shard_count, capacity);
    let mut routed: Vec<Vec<String>> = vec![Vec::new(); shard_count];
    for i in 0..total {
        let id = format!("doc_{}", i);
        routed[fxhash::hash(id.as_str()) % shard_count].push(id.clone());
        store.insert(record(&id)).unwrap();
    }
    let mut expected: Vec<String> = Vec::new();
    for ids_of_shard in routed.iter() {
        assert!(ids_of_shard.len() >= capacity);
        expected.extend(ids_of_shard[ids_of_shard.len() - capacity..].iter().cloned());
    }
    assert_eq!(store.len(), shard_count * capacity);
    let held = ids(&store.records());
    assert_eq!(held.len(), shard_count * capacity);
    // Shard by shard, the same records; inside a shard the ring has turned.
    for s in 0..shard_count {
        let mut got: Vec<String> = held[s * capacity..(s + 1) * capacity].to_vec();
        let mut want: Vec<String> = expected[s * capacity..(s + 1) * capacity].to_vec();
        got.sort();
        want.sort();
        assert_eq!(got, want);
    }
}

#[test]
fn a_store_below_capacity_holds_every_record() {
    let mut store = ShardedCircularBuffer::new(NUM_SHARDS, SHARD_SIZE);
    for i in 0..100 {
        store.insert(record(&format!("doc_{}", i))).unwrap();
        assert_eq!(store.len(), i + 1);
    }
    let mut held = ids(&store.records());
    held.sort();
    let mut all: Vec<String> = (0..100).map(|i| format!("doc_{}", i)).collect();
    all.sort();
    assert_eq!(held, all);
}

#[test]
fn records_that_share_an_identifier_share_a_shard() {
    let mut store = ShardedCircularBuffer::new(4, 2);
    for i in 0..5 {
        store.insert(VectorRecord::new("same".to_string(), vec![i], format!("v{}", i))).unwrap();
    }
    assert_eq!(store.len(), 2);
    let mut held: Vec<String> = store.records().iter().map(|r| r.metadata.clone()).collect();
    held.sort();
    assert_eq!(held, vec!["v3", "v4"]);
}

#[test]
fn an_uneven_routing_leaves_slots_empty() {
    // Three records, two slots in all, yet one record held: all three go to
    // the same shard of one slot.
    let mut store = ShardedCircularBuffer::new(2, 1);
    let mut names: Vec<String> = Vec::new();
    let mut i = 0;
    while names.len() < 3 {
        let id = format!("doc_{}", i);
        if fxhash::hash(id.as_str()) % 2 == 0 {
            names.push(id);
        }
        i += 1;
    }
    for id in names.iter() {
        store.insert(record(id)).unwrap();
    }
    assert_eq!(store.len(), 1);
    assert_eq!(ids(&store.records()), vec![names[2].clone()]);
}
