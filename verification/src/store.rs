//! The store engine: an append-only log of records and the in-memory index
//! that maps each live key to the offset of its most recent record.
//!
//! The index is derived state. `replay_from` says what a scan of the log
//! builds: walking the records from the front, it keeps for every key the
//! offset of its last record, and drops a key again when a tombstone (a
//! record with an empty value) follows. A store is well formed exactly when
//! its index agrees with the replay of its log bytes, so reopening a store
//! from those bytes rebuilds the same index.

use vstd::prelude::*;
use vstd::slice::slice_to_vec;
use crate::codec::{
    crc_at,
    crc32_of,
    decode,
    encode,
    key_at,
    payload_at,
    payload_fits,
    rec_size,
    record_bytes,
    valid_record_at,
    value_at,
    value_len_at,
    lemma_appended_record_valid,
    lemma_record_extend,
    LogError,
};

verus! {

/// The index that a scan of `log` starting at `pos` with the entries `acc`
/// already collected arrives at: for each live key, the offset of its most
/// recent record. `None` when the scan runs into a record that is truncated
/// or fails its checksum.
pub open spec fn replay_from(log: Seq<u8>, pos: int, acc: Map<Seq<u8>, int>) -> Option<
    Map<Seq<u8>, int>,
>
    decreases log.len() - pos,
    when 0 <= pos <= log.len()
{
    if pos == log.len() {
        Some(acc)
    } else if valid_record_at(log, pos) {
        let acc2 = if value_len_at(log, pos) == 0 {
            acc.remove(key_at(log, pos))
        } else {
            acc.insert(key_at(log, pos), pos)
        };
        replay_from(log, pos + rec_size(log, pos), acc2)
    } else {
        None
    }
}

/// The index that a full scan of `log` rebuilds.
pub open spec fn replay(log: Seq<u8>) -> Option<Map<Seq<u8>, int>> {
    replay_from(log, 0, Map::empty())
}

/// The error on which a full scan of `log` gives up: the classification of
/// the first record that is not valid. Meaningful only when `replay` is
/// `None`; on a log that replays completely it falls through to `EndOfLog`.
pub open spec fn scan_fail_from(log: Seq<u8>, pos: int) -> LogError
    decreases log.len() - pos,
    when 0 <= pos <= log.len()
{
    if pos == log.len() {
        LogError::EndOfLog
    } else if valid_record_at(log, pos) {
        scan_fail_from(log, pos + rec_size(log, pos))
    } else if !payload_fits(log, pos) {
        LogError::TruncatedRecord
    } else {
        LogError::DataCorruption {
            stored: crc_at(log, pos),
            computed: crc32_of(payload_at(log, pos)),
        }
    }
}

/// The logical contents of a log: each live key mapped to the value bytes of
/// its most recent record. `None` when the log cannot be fully replayed.
pub open spec fn log_contents(log: Seq<u8>) -> Option<Map<Seq<u8>, Seq<u8>>> {
    match replay(log) {
        Some(rm) => Some(
            Map::new(|k: Seq<u8>| rm.contains_key(k), |k: Seq<u8>| value_at(log, rm[k])),
        ),
        None => None,
    }
}

/// Every offset in `acc` points at a valid record of `log` whose key is the
/// key it is filed under.
pub open spec fn acc_entries_ok(log: Seq<u8>, acc: Map<Seq<u8>, int>) -> bool {
    forall|k: Seq<u8>| #[trigger]
        acc.contains_key(k) ==> valid_record_at(log, acc[k]) && key_at(log, acc[k]) == k
}

/// A replay only files keys under offsets of valid records that carry that
/// key, so every index entry it builds can be decoded back.
pub proof fn lemma_replay_entries_ok(log: Seq<u8>, pos: int, acc: Map<Seq<u8>, int>, m: Map<
    Seq<u8>,
    int,
>)
    requires
        0 <= pos <= log.len(),
        acc_entries_ok(log, acc),
        replay_from(log, pos, acc) == Some(m),
    ensures
        acc_entries_ok(log, m),
    decreases log.len() - pos,
{
    if pos == log.len() {
    } else if valid_record_at(log, pos) {
        let acc2 = if value_len_at(log, pos) == 0 {
            acc.remove(key_at(log, pos))
        } else {
            acc.insert(key_at(log, pos), pos)
        };
        assert(acc_entries_ok(log, acc2));
        lemma_replay_entries_ok(log, pos + rec_size(log, pos), acc2, m);
    }
}

/// Appending one record shifts the replay of the whole log by exactly the
/// record's effect on the index: a tombstone drops its key, any other record
/// files its key under the offset of the old end of the log.
pub proof fn lemma_replay_append(
    log: Seq<u8>,
    rkey: Seq<u8>,
    rvalue: Seq<u8>,
    pos: int,
    acc: Map<Seq<u8>, int>,
)
    requires
        0 <= pos <= log.len(),
        rkey.len() <= u32::MAX,
        rvalue.len() <= u32::MAX,
        replay_from(log, pos, acc) is Some,
    ensures
        ({
            let l2 = log + record_bytes(rkey, rvalue);
            let m = replay_from(log, pos, acc)->Some_0;
            replay_from(l2, pos, acc) == Some(
                if rvalue.len() == 0 {
                    m.remove(rkey)
                } else {
                    m.insert(rkey, log.len() as int)
                },
            )
        }),
    decreases log.len() - pos,
{
    let l2 = log + record_bytes(rkey, rvalue);
    lemma_appended_record_valid(log, rkey, rvalue);
    if pos == log.len() {
        let acc2 = if rvalue.len() == 0 {
            acc.remove(rkey)
        } else {
            acc.insert(rkey, log.len() as int)
        };
        assert(replay_from(l2, pos + rec_size(l2, pos), acc2) == Some(acc2));
        assert(replay_from(l2, pos, acc) == Some(acc2));
    } else if valid_record_at(log, pos) {
        lemma_record_extend(log, record_bytes(rkey, rvalue), pos);
        let acc2 = if value_len_at(log, pos) == 0 {
            acc.remove(key_at(log, pos))
        } else {
            acc.insert(key_at(log, pos), pos)
        };
        lemma_replay_append(log, rkey, rvalue, pos + rec_size(log, pos), acc2);
    }
}

/// Law: the last write wins. Appending a record for `(key, a)` and then one
/// for `(key, b)` — both values non-empty — to a log that replays completely
/// yields a log whose contents map `key` to `b`, while both records remain
/// physically in the log. A store that appends the two records, or one
/// reopened from the extended log, therefore answers a lookup of `key` with
/// `b`.
pub proof fn lemma_last_write_wins(log: Seq<u8>, key: Seq<u8>, a: Seq<u8>, b: Seq<u8>)
    requires
        log_contents(log) is Some,
        key.len() <= u32::MAX,
        0 < a.len() <= u32::MAX,
        0 < b.len() <= u32::MAX,
    ensures
        ({
            let l1 = log + record_bytes(key, a);
            let l2 = l1 + record_bytes(key, b);
            &&& log_contents(l2) is Some
            &&& log_contents(l2)->Some_0.contains_key(key)
            &&& log_contents(l2)->Some_0[key] == b
            &&& valid_record_at(l2, log.len() as int)
            &&& key_at(l2, log.len() as int) == key
            &&& value_at(l2, log.len() as int) == a
            &&& valid_record_at(l2, l1.len() as int)
            &&& key_at(l2, l1.len() as int) == key
            &&& value_at(l2, l1.len() as int) == b
        }),
{
    let l1 = log + record_bytes(key, a);
    let l2 = l1 + record_bytes(key, b);
    lemma_replay_append(log, key, a, 0, Map::empty());
    lemma_replay_append(l1, key, b, 0, Map::empty());
    lemma_appended_record_valid(log, key, a);
    lemma_record_extend(l1, record_bytes(key, b), log.len() as int);
    lemma_appended_record_valid(l1, key, b);
}

/// Law: delete then get finds nothing. Appending a tombstone for `key` to a
/// log that replays completely removes `key` from the contents — a lookup of
/// `key` afterwards, or after reopening from the extended log, returns "not
/// found" — while the tombstone and every byte that was in the log before
/// remain physically there.
pub proof fn lemma_delete_then_get(log: Seq<u8>, key: Seq<u8>)
    requires
        log_contents(log) is Some,
        key.len() <= u32::MAX,
    ensures
        ({
            let l2 = log + record_bytes(key, Seq::empty());
            &&& log_contents(l2) is Some
            &&& !log_contents(l2)->Some_0.contains_key(key)
            &&& log_contents(l2)->Some_0 == log_contents(log)->Some_0.remove(key)
            &&& l2.subrange(0, log.len() as int) == log
            &&& valid_record_at(l2, log.len() as int)
            &&& key_at(l2, log.len() as int) == key
        }),
{
    let rb = record_bytes(key, Seq::<u8>::empty());
    let l2 = log + rb;
    let rm0 = replay(log)->Some_0;
    lemma_replay_append(log, key, Seq::empty(), 0, Map::empty());
    lemma_replay_entries_ok(log, 0, Map::empty(), rm0);
    lemma_appended_record_valid(log, key, Seq::empty());
    assert forall|k: Seq<u8>| rm0.contains_key(k) && k != key implies value_at(l2, rm0[k])
        == value_at(log, rm0[k]) by {
        lemma_record_extend(log, rb, rm0[k]);
    }
    assert(log_contents(l2)->Some_0 =~= log_contents(log)->Some_0.remove(key));
    assert(l2.subrange(0, log.len() as int) =~= log);
}

/// Law: rebuild is idempotent. The log bytes of a well-formed store replay
/// completely and their contents are exactly the store's contents, so
/// `open` on those bytes succeeds and yields a store whose every lookup
/// answers as the store it came from.
pub proof fn lemma_rebuild_idempotent(s: HyperonStore)
    requires
        s.wf(),
    ensures
        log_contents(s.log_seq()) == Some(s.contents()),
{
}

/// One entry of the in-memory index: a key and the offset of its most
/// recent record in the log.
struct IndexEntry {
    key: Vec<u8>,
    off: usize,
}

/// The keys of the entries are pairwise distinct.
spec fn entries_distinct(entries: Seq<IndexEntry>) -> bool {
    forall|i: int, j: int|
        0 <= i < j < entries.len() ==> (#[trigger] entries[i]).key@ != (#[trigger] entries[j]).key@
}

/// The entries hold exactly the pairs of `m`.
spec fn entries_match(entries: Seq<IndexEntry>, m: Map<Seq<u8>, int>) -> bool {
    &&& forall|i: int|
        0 <= i < entries.len() ==> m.contains_key((#[trigger] entries[i]).key@) && m[entries[i].key@]
            == entries[i].off as int
    &&& forall|k: Seq<u8>| #[trigger]
        m.contains_key(k) ==> exists|i: int|
            0 <= i < entries.len() && (#[trigger] entries[i]).key@ == k
}

/// Compares two byte strings.
fn bytes_eq(a: &[u8], b: &[u8]) -> (r: bool)
    ensures
        r <==> a@ == b@,
{
    if a.len() != b.len() {
        return false;
    }
    let mut i: usize = 0;
    while i < a.len()
        invariant
            i <= a@.len(),
            a@.len() == b@.len(),
            forall|j: int| 0 <= j < i ==> a@[j] == b@[j],
        decreases a@.len() - i,
    {
        if a[i] != b[i] {
            return false;
        }
        i = i + 1;
    }
    proof {
        assert(a@ =~= b@);
    }
    true
}

/// Finds the position of the entry for `key`, if the index holds one.
fn index_find(index: &Vec<IndexEntry>, key: &[u8]) -> (r: Option<usize>)
    ensures
        match r {
            Some(i) => i < index@.len() && index@[i as int].key@ == key@,
            None => forall|i: int| 0 <= i < index@.len() ==> (#[trigger] index@[i]).key@ != key@,
        },
{
    let mut i: usize = 0;
    while i < index.len()
        invariant
            i <= index@.len(),
            forall|j: int| 0 <= j < i ==> (#[trigger] index@[j]).key@ != key@,
        decreases index@.len() - i,
    {
        if bytes_eq(index[i].key.as_slice(), key) {
            return Some(i);
        }
        i = i + 1;
    }
    None
}

/// Files `key` under `off`, replacing the entry for `key` if one is there.
fn index_put(index: &mut Vec<IndexEntry>, key: Vec<u8>, off: usize, Ghost(m): Ghost<
    Map<Seq<u8>, int>,
>)
    requires
        entries_distinct(old(index)@),
        entries_match(old(index)@, m),
    ensures
        entries_distinct(final(index)@),
        entries_match(final(index)@, m.insert(key@, off as int)),
{
    let ghost m2 = m.insert(key@, off as int);
    match index_find(index, key.as_slice()) {
        Some(i) => {
            index[i].off = off;
            proof {
                let es0 = old(index)@;
                let es = index@;
                assert(forall|p: int| 0 <= p < es.len() ==> (#[trigger] es[p]).key@ == es0[p].key@);
                assert forall|p: int| 0 <= p < es.len() implies m2.contains_key(
                    (#[trigger] es[p]).key@,
                ) && m2[es[p].key@] == es[p].off as int by {
                    if p != i {
                        assert(es0[p].key@ != key@);
                    }
                }
                assert forall|k: Seq<u8>| #[trigger] m2.contains_key(k) implies exists|p: int|
                    0 <= p < es.len() && (#[trigger] es[p]).key@ == k by {
                    if k == key@ {
                        assert(es[i as int].key@ == k);
                    } else {
                        let j = choose|j: int| 0 <= j < es0.len() && (#[trigger] es0[j]).key@ == k;
                        assert(es[j].key@ == k);
                    }
                }
            }
        },
        None => {
            proof {
                if m.contains_key(key@) {
                    let j = choose|j: int|
                        0 <= j < old(index)@.len() && (#[trigger] old(index)@[j]).key@ == key@;
                    assert(false);
                }
            }
            index.push(IndexEntry { key, off });
            proof {
                let es0 = old(index)@;
                let es = index@;
                assert forall|k: Seq<u8>| #[trigger] m2.contains_key(k) implies exists|p: int|
                    0 <= p < es.len() && (#[trigger] es[p]).key@ == k by {
                    if k == key@ {
                        assert(es[es0.len() as int].key@ == k);
                    } else {
                        let j = choose|j: int| 0 <= j < es0.len() && (#[trigger] es0[j]).key@ == k;
                        assert(es[j].key@ == k);
                    }
                }
            }
        },
    }
}

/// Drops the entry for `key`, if the index holds one.
fn index_remove(index: &mut Vec<IndexEntry>, key: &[u8], Ghost(m): Ghost<Map<Seq<u8>, int>>)
    requires
        entries_distinct(old(index)@),
        entries_match(old(index)@, m),
    ensures
        entries_distinct(final(index)@),
        entries_match(final(index)@, m.remove(key@)),
{
    let ghost m2 = m.remove(key@);
    match index_find(index, key) {
        Some(i) => {
            index.swap_remove(i);
            proof {
                let es0 = old(index)@;
                let es = index@;
                let n = es0.len() as int;
                assert(es.len() == n - 1);
                assert forall|p: int| 0 <= p < es.len() implies m2.contains_key(
                    (#[trigger] es[p]).key@,
                ) && m2[es[p].key@] == es[p].off as int by {
                    if p == i {
                        assert(es[p] == es0[n - 1]);
                        assert(es0[n - 1].key@ != key@);
                    } else {
                        assert(es[p] == es0[p]);
                        assert(es0[p].key@ != key@);
                    }
                }
                assert forall|k: Seq<u8>| #[trigger] m2.contains_key(k) implies exists|p: int|
                    0 <= p < es.len() && (#[trigger] es[p]).key@ == k by {
                    let j = choose|j: int| 0 <= j < es0.len() && (#[trigger] es0[j]).key@ == k;
                    assert(j != i);
                    if j < n - 1 {
                        assert(es[j].key@ == k);
                    } else {
                        assert(es[i as int].key@ == k);
                    }
                }
                assert forall|p: int, q: int| 0 <= p < q < es.len() implies (
                #[trigger] es[p]).key@ != (#[trigger] es[q]).key@ by {
                    if p == i {
                        assert(es[p] == es0[n - 1] && es[q] == es0[q]);
                    } else if q == i {
                        assert(es[q] == es0[n - 1] && es[p] == es0[p]);
                    } else {
                        assert(es[p] == es0[p] && es[q] == es0[q]);
                    }
                }
            }
        },
        None => {
            proof {
                let es = index@;
                assert forall|k: Seq<u8>| #[trigger] m2.contains_key(k) implies exists|p: int|
                    0 <= p < es.len() && (#[trigger] es[p]).key@ == k by {
                    assert(m.contains_key(k));
                }
            }
        },
    }
}

/// A key-value store over an append-only log of checksummed records, with an
/// in-memory index from each live key to the offset of its most recent
/// record.
pub struct HyperonStore {
    log: Vec<u8>,
    index: Vec<IndexEntry>,
}

impl HyperonStore {
    /// The raw bytes of the log.
    pub closed spec fn log_seq(self) -> Seq<u8> {
        self.log@
    }

    /// The logical contents: each live key mapped to its current value.
    pub closed spec fn contents(self) -> Map<Seq<u8>, Seq<u8>> {
        log_contents(self.log@)->Some_0
    }

    /// Well-formedness: the log replays completely, and the in-memory index
    /// holds exactly the entries of that replay, each key once.
    pub closed spec fn wf(self) -> bool {
        &&& replay(self.log@) is Some
        &&& entries_distinct(self.index@)
        &&& entries_match(self.index@, replay(self.log@)->Some_0)
    }

    /// The full log bytes, as they stand in the backing file.
    pub fn log_bytes(&self) -> (r: &Vec<u8>)
        ensures
            r@ == self.log_seq(),
    {
        &self.log
    }

    /// Opens a store over the bytes of a log: replays the whole log from
    /// offset zero to rebuild the index. Fails on the first record that is
    /// truncated or fails its checksum, and then returns no store at all.
    pub fn open(log: Vec<u8>) -> (r: Result<HyperonStore, LogError>)
        ensures
            match r {
                Ok(s) => {
                    &&& s.wf()
                    &&& s.log_seq() == log@
                    &&& log_contents(log@) == Some(s.contents())
                },
                Err(e) => {
                    &&& log_contents(log@) is None
                    &&& e == scan_fail_from(log@, 0)
                    &&& !(e is EndOfLog)
                },
            },
    {
        let mut index: Vec<IndexEntry> = Vec::new();
        let mut pos: usize = 0;
        let ghost mut acc: Map<Seq<u8>, int> = Map::empty();
        loop
            invariant
                pos <= log@.len(),
                replay_from(log@, pos as int, acc) == replay(log@),
                scan_fail_from(log@, pos as int) == scan_fail_from(log@, 0),
                acc_entries_ok(log@, acc),
                entries_distinct(index@),
                entries_match(index@, acc),
            decreases log@.len() - pos,
        {
            match decode(log.as_slice(), pos) {
                Ok(d) => {
                    let ghost acc2 = if value_len_at(log@, pos as int) == 0 {
                        acc.remove(key_at(log@, pos as int))
                    } else {
                        acc.insert(key_at(log@, pos as int), pos as int)
                    };
                    proof {
                        assert(replay_from(log@, pos as int, acc) == replay_from(
                            log@,
                            pos + rec_size(log@, pos as int),
                            acc2,
                        ));
                        assert(scan_fail_from(log@, pos as int) == scan_fail_from(
                            log@,
                            pos + rec_size(log@, pos as int),
                        ));
                    }
                    let next = d.next;
                    if d.value.len() == 0 {
                        index_remove(&mut index, d.key.as_slice(), Ghost(acc));
                    } else {
                        index_put(&mut index, d.key, pos, Ghost(acc));
                    }
                    proof {
                        acc = acc2;
                    }
                    pos = next;
                },
                Err(LogError::EndOfLog) => {
                    return Ok(HyperonStore { log, index });
                },
                Err(e) => {
                    return Err(e);
                },
            }
        }
    }

    /// Looks `key` up: seeks to the indexed offset and decodes one record.
    /// Returns the value of the most recent record for `key`, or nothing
    /// when `key` is absent or deleted; absence is a normal result, not an
    /// error. On a well-formed store the indexed record always validates,
    /// so no error is ever returned.
    pub fn get(&self, key: &[u8]) -> (r: Result<Option<Vec<u8>>, LogError>)
        requires
            self.wf(),
        ensures
            match r {
                Ok(Some(v)) => self.contents().contains_key(key@) && v@ == self.contents()[key@],
                Ok(None) => !self.contents().contains_key(key@),
                Err(_) => false,
            },
    {
        let pos = match index_find(&self.index, key) {
            Some(i) => self.index[i].off,
            None => {
                return Ok(None);
            },
        };
        proof {
            lemma_replay_entries_ok(self.log@, 0, Map::empty(), replay(self.log@)->Some_0);
        }
        match decode(self.log.as_slice(), pos) {
            Ok(d) => Ok(Some(d.value)),
            Err(e) => Err(e),
        }
    }

    /// Appends the record for `(key, value)` to the end of the log, leaving
    /// the index alone; returns the offset the record was written at.
    fn insert_ignore_index(&mut self, key: &[u8], value: &[u8]) -> (off: usize)
        requires
            key@.len() <= u32::MAX,
            value@.len() <= u32::MAX,
        ensures
            final(self).log@ == old(self).log@ + record_bytes(key@, value@),
            final(self).index == old(self).index,
            off == old(self).log@.len(),
    {
        let off = self.log.len();
        let mut rec = encode(key, value);
        self.log.append(&mut rec);
        off
    }

    /// Appends a record for `(key, value)` to the log — old records for
    /// `key` become dead space — and points the index entry for `key` at it.
    /// An empty value is the log format's tombstone, so inserting one
    /// deletes `key` instead.
    pub fn insert(&mut self, key: &[u8], value: &[u8])
        requires
            old(self).wf(),
            key@.len() <= u32::MAX,
            value@.len() <= u32::MAX,
        ensures
            final(self).wf(),
            final(self).log_seq() == old(self).log_seq() + record_bytes(key@, value@),
            final(self).contents() == if value@.len() == 0 {
                old(self).contents().remove(key@)
            } else {
                old(self).contents().insert(key@, value@)
            },
    {
        let ghost old_log = self.log@;
        let ghost rm0 = replay(old_log)->Some_0;
        let off = self.insert_ignore_index(key, value);
        proof {
            lemma_replay_append(old_log, key@, value@, 0, Map::empty());
            lemma_replay_entries_ok(old_log, 0, Map::empty(), rm0);
            lemma_appended_record_valid(old_log, key@, value@);
            assert forall|k: Seq<u8>|
                rm0.contains_key(k) && k != key@ implies value_at(self.log@, rm0[k]) == value_at(
                old_log,
                rm0[k],
            ) by {
                lemma_record_extend(old_log, record_bytes(key@, value@), rm0[k]);
            }
        }
        if value.len() == 0 {
            index_remove(&mut self.index, key, Ghost(rm0));
            proof {
                assert(self.contents() =~= old(self).contents().remove(key@));
            }
        } else {
            index_put(&mut self.index, slice_to_vec(key), off, Ghost(rm0));
            proof {
                assert(self.contents() =~= old(self).contents().insert(key@, value@));
            }
        }
    }

    /// Identical mechanics to `insert`: appends a record and repoints the
    /// index entry. `key` need not already be present.
    pub fn update(&mut self, key: &[u8], value: &[u8])
        requires
            old(self).wf(),
            key@.len() <= u32::MAX,
            value@.len() <= u32::MAX,
        ensures
            final(self).wf(),
            final(self).log_seq() == old(self).log_seq() + record_bytes(key@, value@),
            final(self).contents() == if value@.len() == 0 {
                old(self).contents().remove(key@)
            } else {
                old(self).contents().insert(key@, value@)
            },
    {
        self.insert(key, value);
    }

    /// Appends a tombstone (a record with an empty value) for `key` and
    /// drops `key` from the index, whether or not it was present. The
    /// tombstone's bytes stay in the log as dead space.
    pub fn delete(&mut self, key: &[u8])
        requires
            old(self).wf(),
            key@.len() <= u32::MAX,
        ensures
            final(self).wf(),
            final(self).log_seq() == old(self).log_seq() + record_bytes(key@, Seq::empty()),
            final(self).contents() == old(self).contents().remove(key@),
    {
        let none: Vec<u8> = Vec::new();
        self.insert(key, none.as_slice());
    }
}

} // verus!
