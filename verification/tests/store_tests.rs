use std::collections::HashMap;

use ensodb::engine::Engine;
use ensodb::error::DbError;
use ensodb::keys::{byte_order, bytes_eq, key_eq, key_order, starts_with, str_eq, KeyOrder};
use ensodb::record::Record;
use ensodb::seg_index::SegIndex;
use ensodb::decimal::{char_to_digit, digit_to_char, format_i64, format_u64};
use ensodb::segment_name::{make_segment_name, make_sidecar_name, parse_segment_number};
use ensodb::storage::Storage;
use ensodb::str_map::StrMap;
use ensodb::table::RecordTable;
use ensodb::text::{string_of, to_chars};

fn sorted(mut pairs: Vec<(String, Vec<u8>)>) -> Vec<(String, Vec<u8>)> {
    pairs.sort();
    pairs
}

#[test]
fn scan_prefix_gives_live_keys_once() {
    let mut db = Engine::open(Storage::with_max_file_size(45), 100);
    db.put_at("a:1".to_string(), b"x".to_vec(), 1).unwrap();
    db.put_at("a:2".to_string(), b"y".to_vec(), 2).unwrap();
    db.put_at("b:1".to_string(), b"z".to_vec(), 3).unwrap();
    db.put_at("a:1".to_string(), b"w".to_vec(), 4).unwrap();
    db.delete_at("a:2".to_string(), 5).unwrap();
    db.put_at("a:3".to_string(), b"v".to_vec(), 6).unwrap();
    assert!(db.storage.segment_count() >= 3);
    assert_eq!(
        sorted(db.scan_prefix("a:")),
        vec![("a:1".to_string(), b"w".to_vec()), ("a:3".to_string(), b"v".to_vec())]
    );
    assert_eq!(sorted(db.scan_prefix("b")), vec![("b:1".to_string(), b"z".to_vec())]);
    assert_eq!(db.scan_prefix("c"), vec![]);
    assert_eq!(db.scan_prefix("").len(), 3);
    let latest = db.gather("a:");
    assert_eq!(latest.entries.len(), 3);
}

#[test]
fn reads_agree_before_and_after_compaction() {
    let mut db = Engine::open(Storage::with_max_file_size(30), 3);
    db.put_at("k1".to_string(), b"v1".to_vec(), 1).unwrap();
    db.put_at("k2".to_string(), b"v2".to_vec(), 2).unwrap();
    db.delete_at("k1".to_string(), 3).unwrap();
    db.put_at("k3".to_string(), b"v3".to_vec(), 4).unwrap();
    db.put_at("k4".to_string(), b"v4".to_vec(), 5).unwrap();
    let keys = ["k1", "k2", "k3", "k4", "k5"];
    let before: Vec<Option<Vec<u8>>> = keys.iter().map(|k| db.get_raw(k)).collect();
    let count = db.storage.segment_count();
    let (removed, _) = db.run_compaction().unwrap();
    assert_eq!(db.storage.segment_count(), 1 + (count - removed.len()));
    assert!(db.storage.segment_count() < db.max_segments + 1);
    let after: Vec<Option<Vec<u8>>> = keys.iter().map(|k| db.get_raw(k)).collect();
    assert_eq!(before, after);
    assert_eq!(before, vec![None, Some(b"v2".to_vec()), Some(b"v3".to_vec()), Some(b"v4".to_vec()), None]);
    assert!(db.storage.manifest.last_compaction.is_some());
}

#[test]
fn compaction_fails_on_a_malformed_entry_and_changes_nothing() {
    let mut db = Engine::open(Storage::with_max_file_size(30), 3);
    for (i, k) in ["k1", "k2", "k3", "k4"].iter().enumerate() {
        db.put_at(k.to_string(), b"vv".to_vec(), i as u64).unwrap();
    }
    db.storage.files[1].log[16] = 9;
    let before = db.storage.clone();
    assert!(matches!(db.compact_at("now".to_string()), Err(DbError::Corrupt(_))));
    assert_eq!(db.storage, before);
    assert!(!db.compaction_running);
}

#[test]
fn sidecar_can_be_rebuilt_from_the_log() {
    let mut s = Storage::with_max_file_size(1000);
    for (i, k) in ["k1", "k2", "k1"].iter().enumerate() {
        s.append(&Record::new(k.to_string(), b"vv".to_vec(), i as u64, false)).unwrap();
    }
    assert_eq!(Storage::rebuild_sidecar(&s.files[0].log), Ok(s.files[0].idx.clone()));
    // A torn entry at the end is left out.
    let mut torn = s.files[0].log.clone();
    torn.extend_from_slice(&[0, 0, 0, 1, 0, 0]);
    assert_eq!(Storage::rebuild_sidecar(&torn), Ok(s.files[0].idx.clone()));
    torn[16] = 7;
    assert!(matches!(Storage::rebuild_sidecar(&torn), Err(DbError::Corrupt(_))));
    let table = Storage::scan_segment(&s.files[0].log).unwrap();
    assert_eq!(table.len(), 2);
    assert_eq!(table.records[0].timestamp, 2);
}

#[test]
fn read_seg_into_map_prefers_newer_entries() {
    let mut newer = RecordTable::new();
    newer.insert(Record::new("b".to_string(), b"new".to_vec(), 9, false));
    let mut log = Vec::new();
    log.extend(Record::new("b".to_string(), b"old".to_vec(), 1, false).serialize());
    log.extend(Record::new("a".to_string(), b"one".to_vec(), 2, false).serialize());
    log.extend(Record::new("a".to_string(), b"two".to_vec(), 3, true).serialize());
    let merged = Storage::read_seg_into_map(&log, newer).unwrap();
    let keys: Vec<(&str, u64)> =
        merged.records.iter().map(|r| (r.key.as_str(), r.timestamp)).collect();
    assert_eq!(keys, vec![("a", 3), ("b", 9)]);
    assert!(merged.contains_key("a"));
    assert!(!merged.contains_key("c"));
    let live = merged.drop_tombstones();
    assert_eq!(live.len(), 1);
    assert_eq!(live.records[0].key, "b");
    let file = Storage::write_compacted_records(&live);
    assert_eq!(file.log, Record::new("b".to_string(), b"new".to_vec(), 9, false).serialize());
    assert_eq!(Storage::load_idx(&file.idx).unwrap().get("b"), Some(0));
}

#[test]
fn keys_are_ordered_by_their_bytes() {
    assert_eq!(byte_order(b"a", b"b"), KeyOrder::Before);
    assert_eq!(byte_order(b"b", b"a"), KeyOrder::After);
    assert_eq!(byte_order(b"ab", b"ab"), KeyOrder::Same);
    assert_eq!(byte_order(b"a", b"ab"), KeyOrder::Before);
    assert_eq!(byte_order(b"", b""), KeyOrder::Same);
    assert_eq!(key_order("Z", "a"), KeyOrder::Before);
    assert_eq!(key_order("\u{00e9}", "z"), KeyOrder::After);
    assert!(bytes_eq(b"xy", b"xy"));
    assert!(!bytes_eq(b"xy", b"xz"));
    assert!(!bytes_eq(b"xy", b"x"));
    assert!(key_eq("k", "k"));
    assert!(!str_eq("k", "K"));
    assert!(starts_with(b"abc", b"ab"));
    assert!(starts_with(b"abc", b""));
    assert!(!starts_with(b"ab", b"abc"));
    assert!(!starts_with(b"abc", b"ac"));
}

#[test]
fn segment_names() {
    assert_eq!(make_segment_name(1), "enso-0001.log");
    assert_eq!(make_segment_name(9999), "enso-9999.log");
    assert_eq!(make_segment_name(10000), "enso-10000.log");
    assert_eq!(make_segment_name(u32::MAX), "enso-4294967295.log");
    assert_eq!(parse_segment_number("enso-0001.log"), Some(1));
    assert_eq!(parse_segment_number("enso-12.log"), Some(12));
    assert_eq!(parse_segment_number("enso-4294967295.log"), Some(u32::MAX));
    assert_eq!(parse_segment_number("enso-4294967296.log"), None);
    assert_eq!(parse_segment_number("enso-.log"), None);
    assert_eq!(parse_segment_number("enso-00a1.log"), None);
    assert_eq!(parse_segment_number("anso-0001.log"), None);
    assert_eq!(parse_segment_number("enso-0001.idx"), None);
    assert_eq!(parse_segment_number(""), None);
    for n in [0u32, 7, 42, 1234, 99999, u32::MAX] {
        assert_eq!(parse_segment_number(&make_segment_name(n)), Some(n));
    }
    assert_eq!(make_sidecar_name("enso-0042.log"), "enso-0042.idx");
    assert_eq!(format_u64(0), "0");
    assert_eq!(format_u64(u64::MAX), "18446744073709551615");
    assert_eq!(format_i64(-1), "-1");
    assert_eq!(format_i64(i64::MAX), "9223372036854775807");
}

#[test]
fn characters_and_digits() {
    assert_eq!(to_chars("a\u{00e9}z"), vec!['a', '\u{00e9}', 'z']);
    assert_eq!(string_of(&vec!['a', 'b', 'c', 'd'], 1, 3), "bc");
    assert_eq!(digit_to_char(7), '7');
    assert_eq!(char_to_digit('7'), Some(7));
    assert_eq!(char_to_digit('a'), None);
    assert_eq!(char_to_digit('\u{0663}'), None);
}

#[test]
fn maps_by_string() {
    let mut m: StrMap<u32> = StrMap::new();
    assert_eq!(m.get("a"), None);
    m.insert("a".to_string(), 1);
    m.insert("b".to_string(), 2);
    m.insert("a".to_string(), 3);
    assert_eq!(m.get("a"), Some(&3));
    assert_eq!(m.get("b"), Some(&2));
    assert_eq!(m.position("b"), Some(1));
    assert!(m.contains_key("a"));
    assert!(!m.contains_key("c"));
    assert_eq!(m.entries.len(), 2);
    let mut ix = SegIndex::new();
    ix.insert("k".to_string(), 5);
    ix.insert("k".to_string(), 6);
    assert_eq!(ix.get("k"), Some(6));
    assert!(ix.contains_key("k"));
    assert_eq!(ix.len(), 1);
}

#[test]
fn records_fit_and_copy() {
    let r = Record::new("k".to_string(), vec![0; 10], 1, false);
    assert!(r.fits());
    assert_eq!(r.copy(), r);
}

#[test]
fn reads_follow_the_last_write() {
    let mut db = Engine::open(Storage::with_max_file_size(70), 1000);
    let mut model: HashMap<String, Vec<u8>> = HashMap::new();
    let mut seed: u64 = 12345;
    for step in 0..400u64 {
        seed = seed.wrapping_mul(6364136223846793005).wrapping_add(1442695040888963407);
        let key = format!("k{}", (seed >> 33) % 17);
        if (seed >> 20) % 4 == 0 {
            db.delete_at(key.clone(), step).unwrap();
            model.remove(&key);
        } else {
            let value = format!("v{}", step).into_bytes();
            db.put_at(key.clone(), value.clone(), step).unwrap();
            model.insert(key.clone(), value);
        }
        assert_eq!(db.get_raw(&key), model.get(&key).cloned());
    }
    assert!(db.storage.segment_count() > 10);
    for i in 0..17 {
        let key = format!("k{}", i);
        assert_eq!(db.get_raw(&key), model.get(&key).cloned());
    }
    let mut all = db.scan_prefix("k");
    all.sort();
    let mut expected: Vec<(String, Vec<u8>)> = model.into_iter().collect();
    expected.sort();
    assert_eq!(all, expected);
}

#[test]
fn every_index_entry_addresses_its_entry() {
    let mut db = Engine::open(Storage::with_max_file_size(64), 3);
    for step in 0..40u64 {
        let key = format!("key{}", step % 7);
        if step % 5 == 0 {
            db.delete_at(key, step).unwrap();
        } else {
            db.put_at(key, vec![step as u8; (step % 9) as usize], step).unwrap();
        }
        if step % 11 == 10 {
            db.compact_at("now".to_string()).unwrap();
        }
    }
    let storage = &db.storage;
    for (name, file) in storage.manifest.segments.iter().zip(storage.files.iter()) {
        let index = Storage::load_idx(&file.idx).unwrap();
        for entry in &index.entries {
            let record = storage.read_from_segment(name, entry.offset).unwrap();
            assert_eq!(record.key, entry.key);
            assert_eq!(Storage::read_record(&file.log, entry.offset).unwrap(), record);
        }
        assert_eq!(Storage::rebuild_sidecar(&file.log).unwrap(), file.idx);
    }
}

#[test]
fn rotation_numbers_grow() {
    let mut s = Storage::with_max_file_size(30);
    let mut last = parse_segment_number(&s.manifest.active_segment).unwrap();
    assert_eq!(last, 1);
    for _ in 0..12 {
        s.rotate_segment().unwrap();
        let now = parse_segment_number(&s.manifest.active_segment).unwrap();
        assert!(now > last);
        assert_eq!(s.manifest.segments.last(), Some(&s.manifest.active_segment));
        last = now;
    }
    assert_eq!(s.segment_count(), 13);
    assert_eq!(s.manifest.active_segment, "enso-0013.log");
}

#[test]
fn segment_count_after_compaction() {
    for extra in 0..4usize {
        let mut db = Engine::open(Storage::with_max_file_size(30), 3);
        for i in 0..(4 + extra) {
            db.put_at(format!("k{}", i), b"vv".to_vec(), i as u64).unwrap();
        }
        let before = db.storage.segment_count();
        assert_eq!(before, 4 + extra);
        let (removed, _) = db.compact_at("now".to_string()).unwrap();
        assert_eq!(removed.len(), before - 1);
        assert_eq!(db.storage.segment_count(), 1 + (before - removed.len()));
        assert_eq!(db.storage.segment_count(), 2);
        assert!(db.storage.segment_count() < 3 + 1);
    }
}
