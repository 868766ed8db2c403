//! End-to-end behaviour of the storage engine: basic reads and writes,
//! persistence across a close and reopen, and compaction.

use kvs::store::{KvStore, Segment, DiskOp};

fn fresh() -> KvStore {
    KvStore::open(Vec::new()).unwrap()
}

fn reopen(store: &KvStore) -> KvStore {
    KvStore::open(store.segments.clone()).unwrap()
}

#[test]
fn set_then_get() {
    let mut store = fresh();
    store.set("k".to_string(), "v".to_string()).unwrap();
    assert_eq!(store.get("k".to_string()).unwrap(), Some("v".to_string()));
}

#[test]
fn set_twice_keeps_second() {
    let mut store = fresh();
    store.set("k".to_string(), "v1".to_string()).unwrap();
    store.set("k".to_string(), "v2".to_string()).unwrap();
    assert_eq!(store.get("k".to_string()).unwrap(), Some("v2".to_string()));
}

#[test]
fn set_remove_get_none() {
    let mut store = fresh();
    store.set("k".to_string(), "v".to_string()).unwrap();
    store.remove("k".to_string()).unwrap();
    assert_eq!(store.get("k".to_string()).unwrap(), None);
}

#[test]
fn remove_missing_fails() {
    let mut store = fresh();
    let r = store.remove("missing".to_string());
    assert!(matches!(r, Err(kvs::KvsError::KeyNotFound)));
    assert_eq!(store.get("missing".to_string()).unwrap(), None);
}

#[test]
fn empty_value_round_trips() {
    let mut store = fresh();
    store.set("k".to_string(), String::new()).unwrap();
    assert_eq!(store.get("k".to_string()).unwrap(), Some(String::new()));
}

#[test]
fn interleaved_writes() {
    let mut store = fresh();
    store.set("a".to_string(), "1".to_string()).unwrap();
    store.set("b".to_string(), "2".to_string()).unwrap();
    store.set("a".to_string(), "3".to_string()).unwrap();
    assert_eq!(store.get("a".to_string()).unwrap(), Some("3".to_string()));
    assert_eq!(store.get("b".to_string()).unwrap(), Some("2".to_string()));
    assert_eq!(store.get("c".to_string()).unwrap(), None);
}

#[test]
fn reopen_keeps_value() {
    let mut store = fresh();
    store.set("k".to_string(), "v".to_string()).unwrap();
    let again = reopen(&store);
    assert_eq!(again.get("k".to_string()).unwrap(), Some("v".to_string()));
}

#[test]
fn reopen_keeps_removal() {
    let mut store = fresh();
    store.set("k".to_string(), "v".to_string()).unwrap();
    store.remove("k".to_string()).unwrap();
    let again = reopen(&store);
    assert_eq!(again.get("k".to_string()).unwrap(), None);
}

#[test]
fn reopen_many_ops_same_state() {
    let mut store = fresh();
    for i in 0..50 {
        store.set(format!("k{}", i % 7), format!("v{}", i)).unwrap();
        if i % 5 == 0 {
            let _ = store.remove(format!("k{}", i % 7));
        }
    }
    let again = reopen(&store);
    for j in 0..7 {
        assert_eq!(
            again.get(format!("k{}", j)).unwrap(),
            store.get(format!("k{}", j)).unwrap()
        );
    }
}

#[test]
fn large_value_triggers_compaction_on_next_write() {
    let mut store = fresh();
    let big = "x".repeat(1 << 20);
    store.set("k".to_string(), big.clone()).unwrap();
    let segments_before = store.segments.len();
    // overwriting displaces the large record, pushing the stale counter
    // past the threshold, so this small write compacts
    store.set("k".to_string(), "small".to_string()).unwrap();
    assert!(store.segments.len() == 2);
    assert!(store.uncompacted == 0);
    assert!(segments_before < store.segments.len() || store.segments[0].num > 1);
    assert_eq!(store.get("k".to_string()).unwrap(), Some("small".to_string()));
}

#[test]
fn repeated_overwrites_compact_to_one_record() {
    let mut store = fresh();
    for i in 0..2048 {
        store
            .set("key".to_string(), "y".repeat(1024))
            .unwrap();
        let _ = i;
    }
    // after enough overwrites compaction has run; force one more so the
    // layout is exactly one compacted segment plus the active one
    store.run_compaction().unwrap();
    let total: usize = store.segments.iter().map(|s| s.data.len()).sum();
    assert!(total < 3 * (1 << 20), "on-disk size {} too large", total);
    // exactly one live record for the key in the compacted segment
    let compacted = &store.segments[0];
    let mut offset = 0usize;
    let mut records = 0usize;
    while offset < compacted.data.len() {
        let (cmd, end) = kvs::codec::decode_at(&compacted.data, offset).expect("valid record");
        match cmd {
            kvs::codec::Command::Put { key, .. } => {
                assert_eq!(key, "key");
            }
            _ => panic!("unexpected record"),
        }
        records += 1;
        offset = end;
    }
    assert_eq!(records, 1);
    assert_eq!(store.get("key".to_string()).unwrap(), Some("y".repeat(1024)));
}

#[test]
fn compaction_preserves_reads_and_shrinks() {
    let mut store = fresh();
    for i in 0..100 {
        store.set(format!("k{}", i % 10), format!("value-{}", i)).unwrap();
    }
    let before_total: usize = store.segments.iter().map(|s| s.data.len()).sum();
    let mut before = Vec::new();
    for j in 0..10 {
        before.push(store.get(format!("k{}", j)).unwrap());
    }
    store.run_compaction().unwrap();
    let after_total: usize = store.segments.iter().map(|s| s.data.len()).sum();
    for j in 0..10 {
        assert_eq!(store.get(format!("k{}", j)).unwrap(), before[j]);
    }
    assert!(after_total <= before_total);
    assert_eq!(store.uncompacted, 0);
}

#[test]
fn counter_grows_by_the_displaced_length() {
    let mut store = fresh();
    store.set("k".to_string(), "v1".to_string()).unwrap();
    assert_eq!(store.uncompacted, 0);
    let first_len = kvs::codec::encode_record(&kvs::codec::Command::Put {
        key: "k".to_string(),
        value: "v1".to_string(),
    })
    .chars()
    .count() as u64;
    store.set("k".to_string(), "v2".to_string()).unwrap();
    assert_eq!(store.uncompacted, first_len);
    let second_len = kvs::codec::encode_record(&kvs::codec::Command::Put {
        key: "k".to_string(),
        value: "v2".to_string(),
    })
    .chars()
    .count() as u64;
    store.remove("k".to_string()).unwrap();
    assert_eq!(store.uncompacted, first_len + second_len);
    store.run_compaction().unwrap();
    assert_eq!(store.uncompacted, 0);
    let total: usize = store.segments.iter().map(|s| s.data.len()).sum();
    assert_eq!(total, 0);
}

#[test]
fn effects_record_the_directory_changes() {
    let mut store = fresh();
    store.set("k".to_string(), "v".to_string()).unwrap();
    let ops = store.take_effects();
    assert!(matches!(ops[0], DiskOp::Create { walfile_num: 1 }));
    let mut saw_append = false;
    for op in &ops {
        if let DiskOp::Append { walfile_num, data } = op {
            assert_eq!(*walfile_num, 1);
            assert!(!data.is_empty());
            saw_append = true;
        }
    }
    assert!(saw_append);
    let later = store.take_effects();
    assert!(later.is_empty());
}

#[test]
fn open_rejects_unsorted_segments() {
    let segs = vec![
        Segment { num: 2, data: String::new() },
        Segment { num: 1, data: String::new() },
    ];
    assert!(KvStore::open(segs).is_err());
}

#[test]
fn open_rejects_corrupt_segment() {
    let segs = vec![Segment { num: 1, data: "garbage".to_string() }];
    assert!(KvStore::open(segs).is_err());
}

#[test]
fn walfile_names_round_trip() {
    assert_eq!(kvs::store::log_path(7), "wal_7.log");
    assert_eq!(kvs::store::parse_wal_filename("wal_7.log"), Some(7));
    assert_eq!(kvs::store::parse_wal_filename("wal_123.log"), Some(123));
    assert_eq!(kvs::store::parse_wal_filename("wal_.log"), None);
    assert_eq!(kvs::store::parse_wal_filename("other.txt"), None);
    assert_eq!(kvs::store::parse_wal_filename("wal_12x.log"), None);
}

#[test]
fn walfile_scan_sorts() {
    let names = vec![
        "wal_30.log".to_string(),
        "notes.txt".to_string(),
        "wal_2.log".to_string(),
        "wal_10.log".to_string(),
    ];
    let nums = kvs::store::sorted_walfile_nums(&names);
    assert_eq!(nums, vec![2, 10, 30]);
}

fn apply_ops_to_files(files: &mut Vec<(u64, String)>, ops: Vec<DiskOp>) {
    for op in ops {
        match op {
            DiskOp::Create { walfile_num } => {
                if !files.iter().any(|(n, _)| *n == walfile_num) {
                    files.push((walfile_num, String::new()));
                }
            }
            DiskOp::Append { walfile_num, data } => {
                match files.iter_mut().find(|(n, _)| *n == walfile_num) {
                    Some((_, contents)) => contents.push_str(&data),
                    None => files.push((walfile_num, data)),
                }
            }
            DiskOp::Delete { walfile_num } => {
                files.retain(|(n, _)| *n != walfile_num);
            }
        }
    }
}

#[test]
fn mirrored_files_rebuild_the_same_state() {
    // play the role of the caller: mirror every recorded change into a
    // map of file contents, then open a second store from those files
    let mut files: Vec<(u64, String)> = Vec::new();
    let mut store = fresh();
    apply_ops_to_files(&mut files, store.take_effects());
    for i in 0..40 {
        store.set(format!("k{}", i % 5), format!("v{}", i)).unwrap();
        apply_ops_to_files(&mut files, store.take_effects());
        if i % 7 == 0 {
            let _ = store.remove(format!("k{}", (i + 1) % 5));
            apply_ops_to_files(&mut files, store.take_effects());
        }
    }
    store.run_compaction().unwrap();
    apply_ops_to_files(&mut files, store.take_effects());
    files.sort_by_key(|(n, _)| *n);
    let segments: Vec<Segment> = files
        .iter()
        .map(|(n, data)| Segment { num: *n, data: data.clone() })
        .collect();
    let again = KvStore::open(segments).unwrap();
    for j in 0..5 {
        assert_eq!(
            again.get(format!("k{}", j)).unwrap(),
            store.get(format!("k{}", j)).unwrap()
        );
    }
}

#[test]
fn opens_hand_written_segments() {
    let put = kvs::codec::Command::Put { key: "a".to_string(), value: "1".to_string() };
    let overwrite = kvs::codec::Command::Put { key: "a".to_string(), value: "2".to_string() };
    let rm_b = kvs::codec::Command::Rm { key: "b".to_string() };
    let put_b = kvs::codec::Command::Put { key: "b".to_string(), value: "x".to_string() };
    let mut seg1 = kvs::codec::encode_record(&put);
    seg1.push_str(&kvs::codec::encode_record(&put_b));
    let mut seg2 = kvs::codec::encode_record(&overwrite);
    seg2.push_str(&kvs::codec::encode_record(&rm_b));
    let store = KvStore::open(vec![
        Segment { num: 1, data: seg1 },
        Segment { num: 2, data: seg2 },
    ])
    .unwrap();
    assert_eq!(store.get("a".to_string()).unwrap(), Some("2".to_string()));
    assert_eq!(store.get("b".to_string()).unwrap(), None);
}
