use ensodb::engine::{Engine, MAX_SEGMENTS};
use ensodb::error::DbError;
use ensodb::record::Record;
use ensodb::storage::{SegmentFile, Storage};
use ensodb::types::Manifest;

fn small_engine(max_file_size: u64, max_segments: usize) -> Engine {
    Engine::open(Storage::with_max_file_size(max_file_size), max_segments)
}

fn names(engine: &Engine) -> Vec<String> {
    engine.storage.manifest.segments.clone()
}

#[test]
fn fresh_database_put_then_get() {
    let mut db = Engine::new();
    assert_eq!(db.put_at("a".to_string(), b"1".to_vec(), 10), Ok(false));
    assert_eq!(db.get_raw("a"), Some(b"1".to_vec()));
    assert_eq!(db.get_raw("b"), None);
}

#[test]
fn overwrite_within_one_segment() {
    let mut db = Engine::new();
    db.put_at("a".to_string(), b"1".to_vec(), 10).unwrap();
    db.put_at("a".to_string(), b"2".to_vec(), 11).unwrap();
    assert_eq!(db.storage.segment_count(), 1);
    assert_eq!(db.get_raw("a"), Some(b"2".to_vec()));
}

#[test]
fn delete_then_put_again() {
    let mut db = Engine::new();
    db.put_at("a".to_string(), b"1".to_vec(), 10).unwrap();
    db.delete_at("a".to_string(), 11).unwrap();
    assert_eq!(db.get_raw("a"), None);
    db.put_at("a".to_string(), b"3".to_vec(), 12).unwrap();
    assert_eq!(db.get_raw("a"), Some(b"3".to_vec()));
}

#[test]
fn each_record_forces_rotation() {
    // An entry with a two-byte key and a two-byte value takes 21 bytes.
    let mut db = small_engine(30, MAX_SEGMENTS);
    db.put_at("k1".to_string(), b"v1".to_vec(), 1).unwrap();
    db.put_at("k2".to_string(), b"v2".to_vec(), 2).unwrap();
    db.put_at("k3".to_string(), b"v3".to_vec(), 3).unwrap();
    assert_eq!(db.storage.segment_count(), 3);
    assert_eq!(
        names(&db),
        vec!["enso-0001.log".to_string(), "enso-0002.log".to_string(), "enso-0003.log".to_string()]
    );
    assert_eq!(db.storage.manifest.active_segment, "enso-0003.log");
    assert_eq!(db.get_raw("k1"), Some(b"v1".to_vec()));
    assert_eq!(db.get_raw("k2"), Some(b"v2".to_vec()));
    assert_eq!(db.get_raw("k3"), Some(b"v3".to_vec()));
}

#[test]
fn four_segments_are_compacted_to_two() {
    let mut db = small_engine(30, 3);
    assert_eq!(db.put_at("k1".to_string(), b"v1".to_vec(), 1), Ok(false));
    assert_eq!(db.put_at("k2".to_string(), b"v2".to_vec(), 2), Ok(false));
    assert_eq!(db.put_at("k3".to_string(), b"v3".to_vec(), 3), Ok(false));
    assert_eq!(db.put_at("k4".to_string(), b"v4".to_vec(), 4), Ok(true));
    assert_eq!(db.storage.segment_count(), 4);
    assert!(db.compaction_running);
    let (removed, new_name) = db.compact_at("2025-01-02T03:04:05+00:00".to_string()).unwrap();
    assert!(!db.compaction_running);
    assert_eq!(
        removed,
        vec!["enso-0001.log".to_string(), "enso-0002.log".to_string(), "enso-0003.log".to_string()]
    );
    assert_eq!(new_name, "enso-0005.log");
    assert_eq!(db.storage.segment_count(), 2);
    assert_eq!(names(&db), vec!["enso-0004.log".to_string(), "enso-0005.log".to_string()]);
    assert_eq!(db.storage.manifest.active_segment, "enso-0004.log");
    assert_eq!(
        db.storage.manifest.last_compaction,
        Some("2025-01-02T03:04:05+00:00".to_string())
    );
    assert_eq!(db.get_raw("k1"), Some(b"v1".to_vec()));
    assert_eq!(db.get_raw("k2"), Some(b"v2".to_vec()));
    assert_eq!(db.get_raw("k3"), Some(b"v3".to_vec()));
    assert_eq!(db.get_raw("k4"), Some(b"v4".to_vec()));
}

#[test]
fn compaction_now_stamps_the_manifest() {
    let mut db = small_engine(30, 3);
    for (i, k) in ["k1", "k2", "k3", "k4"].iter().enumerate() {
        db.put_at(k.to_string(), b"vv".to_vec(), i as u64).unwrap();
    }
    let (removed, _) = db.storage.compact_segments().unwrap();
    assert_eq!(removed.len(), 3);
    let stamp = db.storage.manifest.last_compaction.clone().unwrap();
    assert!(stamp.len() >= 20);
    assert_eq!(&stamp[4..5], "-");
    assert_eq!(&stamp[10..11], "T");
}

#[test]
fn compaction_keeps_latest_and_drops_tombstones() {
    let mut db = small_engine(30, 3);
    db.put_at("k1".to_string(), b"v1".to_vec(), 1).unwrap();
    db.put_at("k2".to_string(), b"v2".to_vec(), 2).unwrap();
    db.put_at("k1".to_string(), b"w1".to_vec(), 3).unwrap();
    db.delete_at("k2".to_string(), 4).unwrap();
    db.put_at("k5".to_string(), b"v5".to_vec(), 5).unwrap();
    assert_eq!(db.storage.segment_count(), 5);
    assert_eq!(db.get_raw("k1"), Some(b"w1".to_vec()));
    assert_eq!(db.get_raw("k2"), None);
    db.compact_at("now".to_string()).unwrap();
    assert_eq!(db.storage.segment_count(), 2);
    assert_eq!(db.get_raw("k1"), Some(b"w1".to_vec()));
    assert_eq!(db.get_raw("k2"), None);
    assert_eq!(db.get_raw("k5"), Some(b"v5".to_vec()));
    // The new segment holds k1 only, as one whole entry.
    let merged = &db.storage.files[1];
    let only = Record::new("k1".to_string(), b"w1".to_vec(), 3, false);
    assert_eq!(merged.log, only.serialize());
    let index = Storage::load_idx(&merged.idx).unwrap();
    assert_eq!(index.get("k1"), Some(0));
    assert_eq!(index.get("k2"), None);
}

#[test]
fn compacted_segment_is_sorted_by_key() {
    let mut db = small_engine(30, 3);
    db.put_at("zz".to_string(), b"v1".to_vec(), 1).unwrap();
    db.put_at("aa".to_string(), b"v2".to_vec(), 2).unwrap();
    db.put_at("mm".to_string(), b"v3".to_vec(), 3).unwrap();
    db.put_at("k4".to_string(), b"v4".to_vec(), 4).unwrap();
    db.compact_at("now".to_string()).unwrap();
    let merged = Storage::scan_segment(&db.storage.files[1].log).unwrap();
    let keys: Vec<String> = merged.records.iter().map(|r| r.key.clone()).collect();
    assert_eq!(keys, vec!["aa".to_string(), "mm".to_string(), "zz".to_string()]);
    let mut expected = Vec::new();
    expected.extend(Record::new("aa".to_string(), b"v2".to_vec(), 2, false).serialize());
    expected.extend(Record::new("mm".to_string(), b"v3".to_vec(), 3, false).serialize());
    expected.extend(Record::new("zz".to_string(), b"v1".to_vec(), 1, false).serialize());
    assert_eq!(db.storage.files[1].log, expected);
    let index = Storage::load_idx(&db.storage.files[1].idx).unwrap();
    assert_eq!(index.get("aa"), Some(0));
    assert_eq!(index.get("mm"), Some(21));
    assert_eq!(index.get("zz"), Some(42));
}

#[test]
fn nothing_to_compact_with_fewer_than_two_candidates() {
    let mut db = small_engine(30, 3);
    db.put_at("k1".to_string(), b"v1".to_vec(), 1).unwrap();
    db.put_at("k2".to_string(), b"v2".to_vec(), 2).unwrap();
    let before = db.storage.clone();
    let (removed, name) = db.compact_at("now".to_string()).unwrap();
    assert!(removed.is_empty());
    assert_eq!(name, "");
    assert_eq!(db.storage, before);
    assert_eq!(db.storage.manifest.last_compaction, None);
}

#[test]
fn rotation_after_compaction_numbers_onwards() {
    let mut db = small_engine(30, 3);
    for (i, k) in ["k1", "k2", "k3", "k4"].iter().enumerate() {
        db.put_at(k.to_string(), b"vv".to_vec(), i as u64).unwrap();
    }
    db.compact_at("now".to_string()).unwrap();
    db.put_at("k6".to_string(), b"vv".to_vec(), 9).unwrap();
    assert_eq!(
        names(&db),
        vec!["enso-0004.log".to_string(), "enso-0005.log".to_string(), "enso-0006.log".to_string()]
    );
    assert_eq!(db.storage.manifest.active_segment, "enso-0006.log");
    assert_eq!(db.get_raw("k6"), Some(b"vv".to_vec()));
    assert_eq!(db.get_raw("k1"), Some(b"vv".to_vec()));
}

#[test]
fn maybe_compact_is_single_flight() {
    let mut db = small_engine(30, 3);
    for (i, k) in ["k1", "k2", "k3"].iter().enumerate() {
        assert_eq!(db.put_at(k.to_string(), b"vv".to_vec(), i as u64), Ok(false));
    }
    assert!(!db.maybe_compact());
    assert_eq!(db.put_at("k4".to_string(), b"vv".to_vec(), 4), Ok(true));
    assert!(!db.maybe_compact());
    assert_eq!(db.put_at("k5".to_string(), b"vv".to_vec(), 5), Ok(false));
    db.compact_at("now".to_string()).unwrap();
    assert!(!db.compaction_running);
}

#[test]
fn crash_before_the_sidecar_append() {
    let mut db = small_engine(1000, 3);
    db.put_at("a".to_string(), b"1".to_vec(), 1).unwrap();
    let manifest = db.storage.manifest.clone();
    let mut log = db.storage.files[0].log.clone();
    let idx = db.storage.files[0].idx.clone();
    let torn = Record::new("b".to_string(), b"2".to_vec(), 2, false).serialize();
    log.extend_from_slice(&torn[..torn.len() - 1]);
    let files = vec![SegmentFile { log, idx }];
    let storage = Storage::open(manifest, files, 1000).unwrap();
    let mut db = Engine::open(storage, 3);
    assert_eq!(db.get_raw("b"), None);
    assert_eq!(Storage::load_idx(&db.storage.files[0].idx).unwrap().get("b"), None);
    assert_eq!(db.get_raw("a"), Some(b"1".to_vec()));
    db.put_at("b".to_string(), b"3".to_vec(), 3).unwrap();
    assert_eq!(db.get_raw("b"), Some(b"3".to_vec()));
    assert_eq!(db.get_raw("a"), Some(b"1".to_vec()));
}

#[test]
fn set_raw_and_delete_use_the_clock() {
    let mut db = Engine::new();
    db.set_raw("a".to_string(), b"1".to_vec()).unwrap();
    assert_eq!(db.get_raw("a"), Some(b"1".to_vec()));
    let stored = db.storage.read_at(0).unwrap();
    assert_eq!(stored.key, "a");
    assert!(stored.timestamp > 1_600_000_000);
    db.delete("a".to_string()).unwrap();
    assert_eq!(db.get_raw("a"), None);
}

#[test]
fn cache_holds_at_most_four_indexes() {
    let mut db = small_engine(30, 100);
    for i in 0..8u64 {
        db.put_at(format!("k{}", i), b"vv".to_vec(), i).unwrap();
    }
    assert_eq!(db.storage.segment_count(), 8);
    assert!(db.index.len() <= 4);
    for i in 0..8u64 {
        assert_eq!(db.get_raw(&format!("k{}", i)), Some(b"vv".to_vec()));
        assert!(db.index.len() <= 4);
    }
    // The segment read last is the most recently used.
    assert_eq!(db.index.iter().next().map(|(k, _)| k.clone()), Some("enso-0008.log".to_string()));
}

#[test]
fn storage_append_returns_offsets() {
    let mut s = Storage::with_max_file_size(100);
    let r1 = Record::new("k1".to_string(), b"v1".to_vec(), 1, false);
    let r2 = Record::new("k2".to_string(), b"v2".to_vec(), 2, false);
    assert_eq!(s.append(&r1), Ok(0));
    assert_eq!(s.append(&r2), Ok(21));
    assert_eq!(s.read_at(21).unwrap(), r2);
    assert_eq!(s.read_from_segment("enso-0001.log", 0).unwrap(), r1);
    assert!(matches!(s.read_from_segment("enso-0009.log", 0), Err(DbError::SegmentNotFound)));
    assert!(matches!(s.read_at(5), Err(DbError::Corrupt(_))));
    assert!(matches!(s.read_at(4000), Err(DbError::Corrupt(_))));
    assert_eq!(s.active_idx_path(), "data/index/enso-0001.idx");
    // A third entry would pass 100 bytes: a new segment begins.
    let r3 = Record::new("k3".to_string(), vec![0; 60], 3, false);
    assert_eq!(s.append(&r3), Ok(0));
    assert_eq!(s.manifest.active_segment, "enso-0002.log");
    assert_eq!(s.active_idx_path(), "data/index/enso-0002.idx");
    assert_eq!(s.next_segment_name().unwrap(), "enso-0003.log");
}

#[test]
fn open_rejects_bad_images() {
    let good = Manifest {
        active_segment: "enso-0001.log".to_string(),
        segments: vec!["enso-0001.log".to_string()],
        last_compaction: None,
    };
    let empty = || SegmentFile { log: vec![], idx: vec![] };
    assert!(Storage::open(good.clone(), vec![empty()], 10).is_ok());
    assert!(matches!(Storage::open(good.clone(), vec![], 10), Err(DbError::Corrupt(_))));
    assert!(matches!(
        Storage::open(good.clone(), vec![SegmentFile { log: vec![], idx: vec![1, 2] }], 10),
        Err(DbError::Corrupt(_))
    ));
    let unnamed = Manifest {
        active_segment: "one.log".to_string(),
        segments: vec!["one.log".to_string()],
        last_compaction: None,
    };
    assert!(matches!(Storage::open(unnamed, vec![empty()], 10), Err(DbError::Corrupt(_))));
    let unordered = Manifest {
        active_segment: "enso-0001.log".to_string(),
        segments: vec!["enso-0002.log".to_string(), "enso-0001.log".to_string()],
        last_compaction: None,
    };
    assert!(matches!(
        Storage::open(unordered, vec![empty(), empty()], 10),
        Err(DbError::Corrupt(_))
    ));
    let misplaced = Manifest {
        active_segment: "enso-0001.log".to_string(),
        segments: vec![
            "enso-0001.log".to_string(),
            "enso-0002.log".to_string(),
            "enso-0003.log".to_string(),
        ],
        last_compaction: None,
    };
    assert!(matches!(
        Storage::open(misplaced, vec![empty(), empty(), empty()], 10),
        Err(DbError::Corrupt(_))
    ));
}

#[test]
fn load_idx_last_entry_wins() {
    let mut idx = Vec::new();
    Storage::append_idx_entry(&mut idx, "k", 7);
    Storage::append_idx_entry(&mut idx, "j", 9);
    Storage::append_idx_entry(&mut idx, "k", 40);
    assert_eq!(idx[..13], [0, 0, 0, 1, b'k', 0, 0, 0, 0, 0, 0, 0, 7]);
    let index = Storage::load_idx(&idx).unwrap();
    assert_eq!(index.get("k"), Some(40));
    assert_eq!(index.get("j"), Some(9));
    assert_eq!(index.get("x"), None);
    assert_eq!(index.len(), 2);
    assert!(Storage::load_idx(&[]).unwrap().len() == 0);
    assert!(matches!(Storage::load_idx(&idx[..idx.len() - 1]), Err(DbError::Corrupt(_))));
    assert!(matches!(Storage::load_idx(&[0, 0]), Err(DbError::Corrupt(_))));
    assert!(matches!(
        Storage::load_idx(&[0, 0, 0, 1, 0xff, 0, 0, 0, 0, 0, 0, 0, 7]),
        Err(DbError::Corrupt(_))
    ));
}

#[test]
fn oversized_segment_numbers_are_refused() {
    let manifest = Manifest {
        active_segment: "enso-4294967295.log".to_string(),
        segments: vec!["enso-4294967295.log".to_string()],
        last_compaction: None,
    };
    let files = vec![SegmentFile { log: vec![], idx: vec![] }];
    let mut s = Storage::open(manifest, files, 10).unwrap();
    assert!(matches!(s.next_segment_name(), Err(DbError::OutOfSegments)));
    assert!(matches!(s.rotate_segment(), Err(DbError::OutOfSegments)));
    let r = Record::new("k".to_string(), vec![], 1, false);
    assert!(matches!(s.append(&r), Err(DbError::OutOfSegments)));
    assert_eq!(s.segment_count(), 1);
}

#[test]
fn after_compaction_the_new_segment_is_read_before_the_active_one() {
    // Two entries fill a segment; the seventh put begins the fourth segment.
    let mut db = small_engine(50, 3);
    for (i, k) in ["k1", "k2", "k3", "k4", "k5", "k6", "k7"].iter().enumerate() {
        db.put_at(k.to_string(), b"v1".to_vec(), i as u64).unwrap();
    }
    assert_eq!(db.storage.segment_count(), 4);
    db.compact_at("now".to_string()).unwrap();
    assert_eq!(names(&db), vec!["enso-0004.log".to_string(), "enso-0005.log".to_string()]);
    // The active segment has room for one more entry and stands first.
    db.put_at("k1".to_string(), b"v2".to_vec(), 9).unwrap();
    assert_eq!(db.storage.segment_count(), 2);
    assert_eq!(db.storage.read_at(21).unwrap().value, b"v2".to_vec());
    assert_eq!(db.get_raw("k1"), Some(b"v1".to_vec()));
    // The next segment is read before both.
    db.put_at("k1".to_string(), b"v3".to_vec(), 10).unwrap();
    assert_eq!(db.storage.manifest.active_segment, "enso-0006.log");
    assert_eq!(db.get_raw("k1"), Some(b"v3".to_vec()));
}

fn cached(db: &Engine) -> Vec<String> {
    db.index.iter().map(|(name, _)| name.clone()).collect()
}

#[test]
fn cache_order_follows_use() {
    let mut db = small_engine(30, 100);
    assert_eq!(cached(&db), vec!["enso-0001.log".to_string()]);
    for i in 0..6u64 {
        db.put_at(format!("k{}", i), b"vv".to_vec(), i).unwrap();
    }
    assert_eq!(
        cached(&db),
        vec![
            "enso-0006.log".to_string(),
            "enso-0005.log".to_string(),
            "enso-0004.log".to_string(),
            "enso-0003.log".to_string(),
        ]
    );
    // A read of a key in the fifth segment uses the sixth and the fifth.
    assert_eq!(db.get_raw("k4"), Some(b"vv".to_vec()));
    assert_eq!(
        cached(&db),
        vec![
            "enso-0005.log".to_string(),
            "enso-0006.log".to_string(),
            "enso-0004.log".to_string(),
            "enso-0003.log".to_string(),
        ]
    );
    // A read of a key in the first segment uses all six, the last first.
    assert_eq!(db.get_raw("k0"), Some(b"vv".to_vec()));
    assert_eq!(
        cached(&db),
        vec![
            "enso-0001.log".to_string(),
            "enso-0002.log".to_string(),
            "enso-0003.log".to_string(),
            "enso-0004.log".to_string(),
        ]
    );
    db.ensure_seg_index_loaded("enso-0003.log");
    db.ensure_seg_index_loaded("enso-0042.log");
    assert_eq!(cached(&db).len(), 4);
    assert_eq!(cached(&db)[0], "enso-0001.log");
    db.ensure_seg_index_loaded("enso-0006.log");
    assert_eq!(
        cached(&db),
        vec![
            "enso-0006.log".to_string(),
            "enso-0001.log".to_string(),
            "enso-0002.log".to_string(),
            "enso-0003.log".to_string(),
        ]
    );
    // Compaction takes the merged segments out and puts the new one in.
    db.compact_at("now".to_string()).unwrap();
    assert_eq!(cached(&db), vec!["enso-0007.log".to_string(), "enso-0006.log".to_string()]);
    assert_eq!(db.segment_index(0).map(|ix| ix.get("k5")), Some(Some(0)));
    assert_eq!(cached(&db), vec!["enso-0006.log".to_string(), "enso-0007.log".to_string()]);
}
