//! Tests of the order-preserving value encoding and the blob sharder.

use exotherm::blobstore::{ShardedBlob, SHARD_SIZE};
use exotherm::byteorder::bytes_lt;
use exotherm::kvs::Kvs;
use exotherm::rowid::RowId;
use exotherm::values_indices::IndexableValue;

fn enc(v: &IndexableValue) -> Vec<u8> {
    let mut k = Vec::new();
    v.append_to_key(&mut k);
    k
}

fn lt(a: &IndexableValue, b: &IndexableValue) -> bool {
    bytes_lt(&enc(a), &enc(b))
}

#[test]
fn signed_integers_encode_in_numeric_order() {
    let samples = [i32::MIN, -70000, -1, 0, 1, 70000, i32::MAX];
    for w in samples.windows(2) {
        assert!(lt(&IndexableValue::Int32(w[0]), &IndexableValue::Int32(w[1])));
    }
    let samples = [i64::MIN, -5_000_000_000, -1, 0, 1, 5_000_000_000, i64::MAX];
    for w in samples.windows(2) {
        assert!(lt(&IndexableValue::Int64(w[0]), &IndexableValue::Int64(w[1])));
    }
}

#[test]
fn unsigned_integers_encode_in_numeric_order() {
    let samples = [0u32, 1, 255, 256, 65_536, u32::MAX];
    for w in samples.windows(2) {
        assert!(lt(&IndexableValue::Uint32(w[0]), &IndexableValue::Uint32(w[1])));
    }
    let samples = [0u64, 1, u32::MAX as u64, 1 << 40, u64::MAX];
    for w in samples.windows(2) {
        assert!(lt(&IndexableValue::Uint64(w[0]), &IndexableValue::Uint64(w[1])));
    }
}

#[test]
fn booleans_text_and_ids_encode_in_order() {
    assert!(lt(&IndexableValue::Bool(false), &IndexableValue::Bool(true)));
    assert!(lt(
        &IndexableValue::Text(b"abc".to_vec()),
        &IndexableValue::Text(b"abd".to_vec())
    ));
    assert!(lt(
        &IndexableValue::Text(b"ab".to_vec()),
        &IndexableValue::Text(b"abc".to_vec())
    ));
    assert!(lt(
        &IndexableValue::Uuid(RowId::from_bytes(vec![0; 16])),
        &IndexableValue::Uuid(RowId::from_bytes(vec![1; 16]))
    ));
}

#[test]
fn floats_encode_in_numeric_order_with_nans_last() {
    let samples = [
        f32::NEG_INFINITY,
        f32::MIN,
        -1.5,
        -f32::MIN_POSITIVE,
        -0.0,
        0.0,
        f32::MIN_POSITIVE,
        1.5,
        f32::MAX,
        f32::INFINITY,
    ];
    for w in samples.windows(2) {
        assert!(lt(
            &IndexableValue::Float(w[0].to_bits()),
            &IndexableValue::Float(w[1].to_bits())
        ));
    }
    // a quiet NaN pattern with a clear sign bit sorts above infinity
    assert!(lt(
        &IndexableValue::Float(f32::INFINITY.to_bits()),
        &IndexableValue::Float(f32::NAN.to_bits())
    ));
    let samples = [f64::NEG_INFINITY, f64::MIN, -2.5, -0.0, 0.0, 2.5, f64::MAX, f64::INFINITY];
    for w in samples.windows(2) {
        assert!(lt(
            &IndexableValue::Double(w[0].to_bits()),
            &IndexableValue::Double(w[1].to_bits())
        ));
    }
}

#[test]
fn negative_and_positive_zero_encode_apart() {
    let neg = enc(&IndexableValue::Float((-0.0f32).to_bits()));
    let pos = enc(&IndexableValue::Float(0.0f32.to_bits()));
    assert_ne!(neg, pos);
    assert!(bytes_lt(&neg, &pos));
}

fn blob_of(n: usize) -> Vec<u8> {
    (0..n).map(|i| (i % 251) as u8).collect()
}

#[test]
fn shard_then_unshard_round_trips_boundary_sizes() {
    for n in [0usize, 1, 49_999, 50_000, 50_001, 10 * SHARD_SIZE] {
        let data = blob_of(n);
        let blob = ShardedBlob(data.clone());
        let chunks = blob.shard();
        for (i, c) in chunks.iter().enumerate() {
            assert!(c.len() <= SHARD_SIZE);
            if i + 1 < chunks.len() {
                assert_eq!(c.len(), SHARD_SIZE);
            }
        }
        let back = ShardedBlob::unshard(chunks.iter().map(|c| c.as_slice()).collect());
        assert_eq!(back.0, data);
    }
}

#[test]
fn store_writes_contiguous_shards() {
    // a 120 KiB blob becomes exactly three entries, suffixed 0, 1, 2
    let data = blob_of(120 * 1024);
    let blob = ShardedBlob(data.clone());
    let id = RowId::from_bytes(vec![7; 16]);
    let mut kvs = Kvs::new();
    blob.store(&mut kvs, &id);
    assert_eq!(kvs.len(), 3);
    for i in 0..3usize {
        let key = kvs.key_at(i);
        let mut expected = vec![7u8; 16];
        expected.extend_from_slice(&(i as u64).to_be_bytes());
        assert_eq!(key, expected);
    }
    let loaded = ShardedBlob::load(&kvs, &id);
    assert_eq!(loaded.0, data);
}

#[test]
fn load_round_trips_through_the_store() {
    for n in [0usize, 1, 49_999, 50_000, 50_001, 10 * SHARD_SIZE] {
        let data = blob_of(n);
        let id = RowId::from_bytes(vec![9; 16]);
        let other = RowId::from_bytes(vec![200; 16]);
        let mut kvs = Kvs::new();
        // a neighbouring blob must not leak into the scan
        ShardedBlob(vec![0xaa; 10]).store(&mut kvs, &other);
        ShardedBlob(data.clone()).store(&mut kvs, &id);
        let loaded = ShardedBlob::load(&kvs, &id);
        assert_eq!(loaded.0, data);
    }
}

#[test]
fn store_replaces_shards_of_the_same_blob() {
    let id = RowId::from_bytes(vec![3; 16]);
    let mut kvs = Kvs::new();
    ShardedBlob(blob_of(SHARD_SIZE)).store(&mut kvs, &id);
    let small = vec![5u8; 10];
    ShardedBlob(small.clone()).store(&mut kvs, &id);
    let loaded = ShardedBlob::load(&kvs, &id);
    assert_eq!(loaded.0, small);
}
