use ensodb::error::DbError;
use ensodb::record::Record;
use ensodb::utils::{decode_u32, decode_u64, encode_u32, encode_u64};

#[test]
fn encode_u32_is_big_endian() {
    assert_eq!(encode_u32(0x0102_0304), [1, 2, 3, 4]);
    assert_eq!(encode_u32(0), [0, 0, 0, 0]);
    assert_eq!(encode_u32(u32::MAX), [255, 255, 255, 255]);
}

#[test]
fn decode_u32_reads_big_endian() {
    assert_eq!(decode_u32(&[1, 2, 3, 4]), 0x0102_0304);
    assert_eq!(decode_u32(&[255, 255, 255, 255]), u32::MAX);
}

#[test]
fn u64_round_trip() {
    assert_eq!(encode_u64(0x0102_0304_0506_0708), [1, 2, 3, 4, 5, 6, 7, 8]);
    assert_eq!(decode_u64(&[1, 2, 3, 4, 5, 6, 7, 8]), 0x0102_0304_0506_0708);
    assert_eq!(decode_u64(&encode_u64(u64::MAX)), u64::MAX);
}

#[test]
fn serialize_lays_out_header_key_value() {
    let r = Record::new("ab".to_string(), vec![9, 8, 7], 0x0102, true);
    let bytes = r.serialize();
    assert_eq!(
        bytes,
        vec![0, 0, 0, 2, 0, 0, 0, 3, 0, 0, 0, 0, 0, 0, 1, 2, 1, b'a', b'b', 9, 8, 7]
    );
    assert_eq!(bytes.len(), 17 + 2 + 3);
}

#[test]
fn record_round_trip() {
    let r = Record::new("key-\u{00e9}".to_string(), vec![0, 1, 2, 255], 1_700_000_000, false);
    let back = Record::deserialize(&r.serialize()).unwrap();
    assert_eq!(back, r);
    let t = Record::new("gone".to_string(), vec![], 5, true);
    assert_eq!(Record::deserialize(&t.serialize()).unwrap(), t);
}

#[test]
fn deserialize_ignores_bytes_after_the_entry() {
    let r = Record::new("k".to_string(), vec![1], 1, false);
    let mut bytes = r.serialize();
    bytes.extend_from_slice(&[7, 7, 7]);
    assert_eq!(Record::deserialize(&bytes).unwrap(), r);
}

#[test]
fn deserialize_rejects_short_buffers() {
    let r = Record::new("key".to_string(), vec![1, 2, 3], 1, false);
    let bytes = r.serialize();
    assert!(matches!(Record::deserialize(&bytes[..bytes.len() - 1]), Err(DbError::Corrupt(_))));
    assert!(matches!(Record::deserialize(&bytes[..16]), Err(DbError::Corrupt(_))));
    assert!(matches!(Record::deserialize(&[]), Err(DbError::Corrupt(_))));
}

#[test]
fn deserialize_rejects_bad_flag() {
    let r = Record::new("key".to_string(), vec![1, 2, 3], 1, false);
    let mut bytes = r.serialize();
    bytes[16] = 2;
    assert!(matches!(Record::deserialize(&bytes), Err(DbError::Corrupt(_))));
}

#[test]
fn deserialize_rejects_key_that_is_not_utf8() {
    let r = Record::new("ab".to_string(), vec![], 1, false);
    let mut bytes = r.serialize();
    bytes[17] = 0xff;
    assert!(matches!(Record::deserialize(&bytes), Err(DbError::Corrupt(_))));
}
