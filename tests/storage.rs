use cometbft_playground::db::{Error, DB};
use cometbft_playground::rocksdb::{decode_pairs, ColumnFamily, RocksDB, RocksDBWriteBatch};

#[test]
fn reads_last_write() {
    let db = RocksDB::open(
        vec![(b"k".to_vec(), b"1".to_vec()), (b"j".to_vec(), b"x".to_vec()), (b"k".to_vec(), b"2".to_vec())],
        false,
    );
    assert_eq!(db.read_value_bytes(ColumnFamily::State, b"k"), Some(b"2".to_vec()));
    assert_eq!(db.read_value_bytes(ColumnFamily::State, b"j"), Some(b"x".to_vec()));
    assert_eq!(db.read_value_bytes(ColumnFamily::State, b"z"), None);
}

#[test]
fn batch_applies_in_order() {
    let mut db = RocksDB::open(vec![], false);
    let mut batch = RocksDBWriteBatch::new();
    batch.put(ColumnFamily::State, b"a".to_vec(), b"1".to_vec());
    batch.put(ColumnFamily::State, b"a".to_vec(), b"3".to_vec());
    batch.put(ColumnFamily::State, b"b".to_vec(), b"2".to_vec());
    assert_eq!(batch.len(), 3);
    assert_eq!(batch.op(1), (&b"a"[..], &b"3"[..]));
    assert!(db.exec_batch(batch).is_ok());
    assert_eq!(db.read_val(ColumnFamily::State, b"a"), Some(b"3".to_vec()));
    assert_eq!(db.read_val(ColumnFamily::State, b"b"), Some(b"2".to_vec()));
}

#[test]
fn read_only_refuses_writes() {
    let mut db = RocksDB::open(vec![(b"a".to_vec(), b"1".to_vec())], true);
    let mut batch = RocksDBWriteBatch::new();
    batch.put(ColumnFamily::State, b"a".to_vec(), b"9".to_vec());
    assert!(matches!(db.exec_batch(batch), Err(Error::ReadOnly)));
    assert_eq!(db.read_val(ColumnFamily::State, b"a"), Some(b"1".to_vec()));
}

#[test]
fn store_file_round_trip() {
    let mut first = RocksDBWriteBatch::new();
    first.put(ColumnFamily::State, b"k".to_vec(), b"v1".to_vec());
    first.put(ColumnFamily::State, vec![], vec![7; 300]);
    let mut second = RocksDBWriteBatch::new();
    second.put(ColumnFamily::State, b"k".to_vec(), b"v2".to_vec());
    let one = first.to_bytes();
    assert_eq!(&one[..8], &1u64.to_le_bytes()[..]);
    assert_eq!(one[8], b'k');
    let mut file = one.clone();
    file.extend_from_slice(&second.to_bytes());
    let pairs = decode_pairs(&file).unwrap();
    assert_eq!(pairs.len(), 3);
    assert_eq!(pairs[1], (vec![], vec![7; 300]));
    let db = RocksDB::open(pairs, true);
    assert_eq!(db.read_value_bytes(ColumnFamily::State, b"k"), Some(b"v2".to_vec()));
    assert_eq!(decode_pairs(&[]).unwrap().len(), 0);
    assert!(decode_pairs(&file[..file.len() - 1]).is_none());
    assert!(decode_pairs(&one[..5]).is_none());
}
