//! The log codec: the bidirectional mapping between a record and its wire
//! bytes.
//!
//! A record is laid out as `checksum (4 bytes LE) | key_length (4 bytes LE)
//! | value_length (4 bytes LE) | key bytes | value bytes`, where the checksum
//! is the CRC-32 of the key and value bytes concatenated in that order.

use vstd::prelude::*;
use vstd::bytes::lemma_auto_spec_u32_to_from_le_bytes;
use vstd::bytes::spec_u32_from_le_bytes;
use vstd::bytes::spec_u32_to_le_bytes;
use vstd::bytes::u32_from_le_bytes;
use vstd::bytes::u32_to_le_bytes;
use vstd::slice::slice_subrange;
use vstd::slice::slice_to_vec;

verus! {

/// The CRC-32 (IEEE) checksum of a byte sequence, as `crc32fast` computes it.
/// The result is a function of the bytes alone; nothing more is assumed of it.
pub uninterp spec fn crc32_of(data: Seq<u8>) -> u32;

/// Relies on `crc32fast::hash`: the CRC-32 (IEEE) checksum of the bytes,
/// computed from the bytes alone.
#[verifier::external_body]
fn crc32(data: &[u8]) -> (r: u32)
    ensures
        r == crc32_of(data@),
{
    crc32fast::hash(data)
}

/// How a record is classified when it cannot be decoded.
#[derive(Clone, Copy, Debug, PartialEq, Eq, Structural)]
pub enum LogError {
    /// The stream ends exactly at a record boundary: the normal termination
    /// of a scan, never a fault of the data.
    EndOfLog,
    /// The stream ends inside a record's declared extent.
    TruncatedRecord,
    /// The stored checksum does not match the checksum of the payload.
    DataCorruption { stored: u32, computed: u32 },
}

/// The number of bytes in a record header: checksum, key length, value length.
pub const HEADER_SIZE: usize = 12;

/// The checksum field of the record starting at `pos`.
pub open spec fn crc_at(log: Seq<u8>, pos: int) -> u32 {
    spec_u32_from_le_bytes(log.subrange(pos, pos + 4))
}

/// The key-length field of the record starting at `pos`.
pub open spec fn key_len_at(log: Seq<u8>, pos: int) -> u32 {
    spec_u32_from_le_bytes(log.subrange(pos + 4, pos + 8))
}

/// The value-length field of the record starting at `pos`.
pub open spec fn value_len_at(log: Seq<u8>, pos: int) -> u32 {
    spec_u32_from_le_bytes(log.subrange(pos + 8, pos + 12))
}

/// The total size in bytes of the record starting at `pos`.
pub open spec fn rec_size(log: Seq<u8>, pos: int) -> int {
    HEADER_SIZE + key_len_at(log, pos) + value_len_at(log, pos)
}

/// Whether the header of a record starting at `pos` lies inside the log.
pub open spec fn header_fits(log: Seq<u8>, pos: int) -> bool {
    0 <= pos && pos + HEADER_SIZE <= log.len()
}

/// Whether the whole record starting at `pos` lies inside the log.
pub open spec fn payload_fits(log: Seq<u8>, pos: int) -> bool {
    header_fits(log, pos) && pos + rec_size(log, pos) <= log.len()
}

/// The payload (key and value bytes) of the record starting at `pos`.
pub open spec fn payload_at(log: Seq<u8>, pos: int) -> Seq<u8> {
    log.subrange(pos + HEADER_SIZE, pos + rec_size(log, pos))
}

/// The key bytes of the record starting at `pos`.
pub open spec fn key_at(log: Seq<u8>, pos: int) -> Seq<u8> {
    log.subrange(pos + HEADER_SIZE, pos + HEADER_SIZE + key_len_at(log, pos))
}

/// The value bytes of the record starting at `pos`.
pub open spec fn value_at(log: Seq<u8>, pos: int) -> Seq<u8> {
    log.subrange(pos + HEADER_SIZE + key_len_at(log, pos), pos + rec_size(log, pos))
}

/// Whether a record starting at `pos` lies inside the log and its stored
/// checksum matches its payload.
pub open spec fn valid_record_at(log: Seq<u8>, pos: int) -> bool {
    payload_fits(log, pos) && crc_at(log, pos) == crc32_of(payload_at(log, pos))
}

/// The wire bytes of the record for `(key, value)`.
pub open spec fn record_bytes(key: Seq<u8>, value: Seq<u8>) -> Seq<u8> {
    spec_u32_to_le_bytes(crc32_of(key + value)) + spec_u32_to_le_bytes(key.len() as u32)
        + spec_u32_to_le_bytes(value.len() as u32) + key + value
}

/// One record read back from the log, together with the position of the
/// byte that follows it.
#[derive(Debug)]
pub struct DecodedRecord {
    pub key: Vec<u8>,
    pub value: Vec<u8>,
    pub next: usize,
}

/// Encodes `(key, value)` as wire bytes: checksum, lengths, then the payload.
pub fn encode(key: &[u8], value: &[u8]) -> (r: Vec<u8>)
    requires
        key@.len() <= u32::MAX,
        value@.len() <= u32::MAX,
    ensures
        r@ == record_bytes(key@, value@),
{
    let mut payload: Vec<u8> = Vec::new();
    payload.extend_from_slice(key);
    payload.extend_from_slice(value);
    proof {
        assert(payload@ =~= key@ + value@);
    }
    let checksum = crc32(payload.as_slice());
    let mut r = u32_to_le_bytes(checksum);
    let mut key_len_bytes = u32_to_le_bytes(key.len() as u32);
    let mut value_len_bytes = u32_to_le_bytes(value.len() as u32);
    r.append(&mut key_len_bytes);
    r.append(&mut value_len_bytes);
    r.append(&mut payload);
    proof {
        assert(r@ =~= record_bytes(key@, value@));
    }
    r
}

/// Decodes the record starting at `pos`, checking its checksum.
///
/// Succeeds exactly on a valid record; otherwise reports `EndOfLog` when
/// `pos` is exactly the end of the log, `TruncatedRecord` when the log ends
/// inside the record's declared extent, and `DataCorruption` (carrying the
/// stored and the recomputed checksum) when the checksum does not match.
pub fn decode(log: &[u8], pos: usize) -> (r: Result<DecodedRecord, LogError>)
    requires
        pos <= log@.len(),
    ensures
        match r {
            Ok(d) => {
                &&& valid_record_at(log@, pos as int)
                &&& d.key@ == key_at(log@, pos as int)
                &&& d.value@ == value_at(log@, pos as int)
                &&& d.next == pos + rec_size(log@, pos as int)
            },
            Err(LogError::EndOfLog) => pos == log@.len(),
            Err(LogError::TruncatedRecord) => pos < log@.len() && !payload_fits(
                log@,
                pos as int,
            ),
            Err(LogError::DataCorruption { stored, computed }) => {
                &&& payload_fits(log@, pos as int)
                &&& stored == crc_at(log@, pos as int)
                &&& computed == crc32_of(payload_at(log@, pos as int))
                &&& stored != computed
            },
        },
{
    if pos == log.len() {
        return Err(LogError::EndOfLog);
    }
    if log.len() - pos < HEADER_SIZE {
        return Err(LogError::TruncatedRecord);
    }
    let stored = u32_from_le_bytes(slice_subrange(log, pos, pos + 4));
    let key_len = u32_from_le_bytes(slice_subrange(log, pos + 4, pos + 8));
    let value_len = u32_from_le_bytes(slice_subrange(log, pos + 8, pos + 12));
    let avail = log.len() - (pos + HEADER_SIZE);
    if (key_len as u64) + (value_len as u64) > (avail as u64) {
        return Err(LogError::TruncatedRecord);
    }
    let kl = key_len as usize;
    let vl = value_len as usize;
    let payload_end = pos + HEADER_SIZE + kl + vl;
    let payload = slice_to_vec(slice_subrange(log, pos + HEADER_SIZE, payload_end));
    let computed = crc32(payload.as_slice());
    if stored != computed {
        return Err(LogError::DataCorruption { stored, computed });
    }
    let key = slice_to_vec(slice_subrange(log, pos + HEADER_SIZE, pos + HEADER_SIZE + kl));
    let value = slice_to_vec(slice_subrange(log, pos + HEADER_SIZE + kl, payload_end));
    Ok(DecodedRecord { key, value, next: payload_end })
}

/// Appending a record to a log places a valid record at the old end of the
/// log, whose fields read back exactly as they were written.
pub proof fn lemma_appended_record_valid(log: Seq<u8>, key: Seq<u8>, value: Seq<u8>)
    requires
        key.len() <= u32::MAX,
        value.len() <= u32::MAX,
    ensures
        ({
            let l2 = log + record_bytes(key, value);
            let pos = log.len() as int;
            &&& valid_record_at(l2, pos)
            &&& crc_at(l2, pos) == crc32_of(key + value)
            &&& key_len_at(l2, pos) == key.len()
            &&& value_len_at(l2, pos) == value.len()
            &&& rec_size(l2, pos) == HEADER_SIZE + key.len() + value.len()
            &&& payload_at(l2, pos) == key + value
            &&& key_at(l2, pos) == key
            &&& value_at(l2, pos) == value
            &&& l2.len() == log.len() + HEADER_SIZE + key.len() + value.len()
        }),
{
    lemma_auto_spec_u32_to_from_le_bytes();
    let c = spec_u32_to_le_bytes(crc32_of(key + value));
    let kl = spec_u32_to_le_bytes(key.len() as u32);
    let vl = spec_u32_to_le_bytes(value.len() as u32);
    let l2 = log + record_bytes(key, value);
    let pos = log.len() as int;
    assert(l2.subrange(pos, pos + 4) =~= c);
    assert(l2.subrange(pos + 4, pos + 8) =~= kl);
    assert(l2.subrange(pos + 8, pos + 12) =~= vl);
    assert(key_len_at(l2, pos) == key.len());
    assert(value_len_at(l2, pos) == value.len());
    assert(payload_at(l2, pos) =~= key + value);
    assert(key_at(l2, pos) =~= key);
    assert(value_at(l2, pos) =~= value);
}

/// A record that lies inside a log reads back unchanged after any bytes are
/// appended behind it.
pub proof fn lemma_record_extend(log: Seq<u8>, ext: Seq<u8>, pos: int)
    requires
        payload_fits(log, pos),
    ensures
        ({
            let l2 = log + ext;
            &&& payload_fits(l2, pos)
            &&& crc_at(l2, pos) == crc_at(log, pos)
            &&& key_len_at(l2, pos) == key_len_at(log, pos)
            &&& value_len_at(l2, pos) == value_len_at(log, pos)
            &&& rec_size(l2, pos) == rec_size(log, pos)
            &&& payload_at(l2, pos) == payload_at(log, pos)
            &&& key_at(l2, pos) == key_at(log, pos)
            &&& value_at(l2, pos) == value_at(log, pos)
            &&& (valid_record_at(l2, pos) <==> valid_record_at(log, pos))
        }),
{
    let l2 = log + ext;
    assert(l2.subrange(pos, pos + 4) =~= log.subrange(pos, pos + 4));
    assert(l2.subrange(pos + 4, pos + 8) =~= log.subrange(pos + 4, pos + 8));
    assert(l2.subrange(pos + 8, pos + 12) =~= log.subrange(pos + 8, pos + 12));
    assert(payload_at(l2, pos) =~= payload_at(log, pos));
    assert(key_at(l2, pos) =~= key_at(log, pos));
    assert(value_at(l2, pos) =~= value_at(log, pos));
}

/// Law: encode then decode yields the original pair back. The bytes of a
/// record for `(key, value)` form a valid record at their start, whose key
/// bytes are `key` and whose value bytes are `value`, and which spans the
/// whole encoding; `decode` therefore succeeds on them and returns the pair.
pub proof fn lemma_encode_decode_round_trip(key: Seq<u8>, value: Seq<u8>)
    requires
        key.len() <= u32::MAX,
        value.len() <= u32::MAX,
    ensures
        valid_record_at(record_bytes(key, value), 0),
        key_at(record_bytes(key, value), 0) == key,
        value_at(record_bytes(key, value), 0) == value,
        rec_size(record_bytes(key, value), 0) == record_bytes(key, value).len(),
{
    lemma_appended_record_valid(Seq::empty(), key, value);
    assert(Seq::<u8>::empty() + record_bytes(key, value) =~= record_bytes(key, value));
}

/// Law: a record with an empty value round-trips like any other: it is a
/// valid record whose checksum covers the key alone, and it decodes to an
/// empty value.
pub proof fn lemma_empty_value_round_trip(key: Seq<u8>)
    requires
        key.len() <= u32::MAX,
    ensures
        valid_record_at(record_bytes(key, Seq::empty()), 0),
        key_at(record_bytes(key, Seq::empty()), 0) == key,
        value_at(record_bytes(key, Seq::empty()), 0) == Seq::<u8>::empty(),
        crc_at(record_bytes(key, Seq::empty()), 0) == crc32_of(key),
{
    lemma_encode_decode_round_trip(key, Seq::empty());
    assert(key + Seq::<u8>::empty() =~= key);
}

/// Law: a checksum mismatch is never accepted. Where the stored checksum of
/// a record differs from the checksum of its payload bytes, the record is
/// not valid, so `decode` reports `DataCorruption` there instead of
/// returning data.
pub proof fn lemma_checksum_mismatch_detected(log: Seq<u8>, pos: int)
    requires
        payload_fits(log, pos),
        crc_at(log, pos) != crc32_of(payload_at(log, pos)),
    ensures
        !valid_record_at(log, pos),
{
}

} // verus!
