use hyperon_kv::codec::decode;
use hyperon_kv::codec::encode;
use hyperon_kv::LogError;

#[test]
fn round_trip_record() {
    let rec = encode(b"key", b"value");
    let d = decode(rec.as_slice(), 0).unwrap();
    assert_eq!(d.key, b"key".to_vec());
    assert_eq!(d.value, b"value".to_vec());
    assert_eq!(d.next, rec.len());
}

#[test]
fn record_layout_exact_bytes() {
    let rec = encode(b"A", b"B");
    assert_eq!(rec.len(), 14);
    assert_eq!(&rec[0..4], &crc32fast::hash(b"AB").to_le_bytes()[..]);
    assert_eq!(&rec[4..8], &[1, 0, 0, 0]);
    assert_eq!(&rec[8..12], &[1, 0, 0, 0]);
    assert_eq!(&rec[12..], b"AB");
}

#[test]
fn empty_value_round_trip() {
    let rec = encode(b"k", b"");
    assert_eq!(rec.len(), 13);
    assert_eq!(&rec[0..4], &crc32fast::hash(b"k").to_le_bytes()[..]);
    let d = decode(rec.as_slice(), 0).unwrap();
    assert_eq!(d.key, b"k".to_vec());
    assert_eq!(d.value, Vec::<u8>::new());
    assert_eq!(d.next, rec.len());
}

#[test]
fn empty_key_and_value_round_trip() {
    let rec = encode(b"", b"");
    assert_eq!(rec.len(), 12);
    let d = decode(rec.as_slice(), 0).unwrap();
    assert!(d.key.is_empty());
    assert!(d.value.is_empty());
}

#[test]
fn checksum_detects_any_single_bit_flip_in_payload() {
    let rec = encode(b"abc", b"xyz");
    for i in 12..rec.len() {
        for bit in 0..8u8 {
            let mut bad = rec.clone();
            bad[i] ^= 1 << bit;
            match decode(bad.as_slice(), 0) {
                Err(LogError::DataCorruption { stored, computed }) => {
                    assert_ne!(stored, computed);
                }
                other => panic!("flip at byte {} bit {} gave {:?}", i, bit, other),
            }
        }
    }
}

#[test]
fn checksum_detects_flip_in_stored_checksum() {
    let rec = encode(b"abc", b"xyz");
    for i in 0..4 {
        let mut bad = rec.clone();
        bad[i] ^= 0x01;
        assert!(matches!(
            decode(bad.as_slice(), 0),
            Err(LogError::DataCorruption { .. })
        ));
    }
}

#[test]
fn decode_at_end_is_end_of_log() {
    assert!(matches!(decode(&[], 0), Err(LogError::EndOfLog)));
    let rec = encode(b"k", b"v");
    assert!(matches!(
        decode(rec.as_slice(), rec.len()),
        Err(LogError::EndOfLog)
    ));
}

#[test]
fn decode_of_partial_record_is_truncated() {
    let rec = encode(b"key", b"value");
    // Cut inside the header.
    assert!(matches!(
        decode(&rec[..7], 0),
        Err(LogError::TruncatedRecord)
    ));
    // Cut inside the payload.
    assert!(matches!(
        decode(&rec[..rec.len() - 1], 0),
        Err(LogError::TruncatedRecord)
    ));
}
