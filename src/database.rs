use std::collections::HashMap;
use vstd::prelude::*;
use vstd::slice::slice_subrange;

verus! {

broadcast use vstd::std_specs::hash::group_hash_axioms;

/// Why the store could not do what was asked.
#[derive(Clone, Copy, PartialEq, Eq, Structural, Debug)]
pub enum DbError {
    /// The log's length is not a whole number of entries.
    MalformedLog,
    /// The log points at an offset beyond the end of the data.
    UnreachableOffset,
    /// A record could not be encoded.
    Serialize,
    /// Stored bytes could not be decoded into a record.
    Deserialize,
    /// Reading or writing the backing files failed.
    Io,
}

/// A store of records keyed by numeric id.
pub trait Database<T> {
    fn add(&mut self, id: u64, obj: &T) -> Result<(), DbError>;

    fn get(&self, id: u64) -> Result<Option<T>, DbError>;
}

/// Bytes in one log entry: the id, then the record's offset, each a
/// little-endian `u64`.
pub const ENTRY_LEN: usize = 16;

/// The little-endian number held by eight bytes.
pub open spec fn le_u64(b: Seq<u8>) -> int {
    b[0] as int + b[1] as int * 0x100 + b[2] as int * 0x1_0000 + b[3] as int * 0x100_0000
        + b[4] as int * 0x1_0000_0000 + b[5] as int * 0x100_0000_0000 + b[6] as int
        * 0x1_0000_0000_0000 + b[7] as int * 0x100_0000_0000_0000
}

/// The id of log entry `i`.
pub open spec fn entry_id(log: Seq<u8>, i: int) -> u64 {
    le_u64(log.subrange(16 * i, 16 * i + 8)) as u64
}

/// The record offset of log entry `i`.
pub open spec fn entry_offset(log: Seq<u8>, i: int) -> u64 {
    le_u64(log.subrange(16 * i + 8, 16 * i + 16)) as u64
}

/// The index after replaying the first `n` log entries: a later entry for
/// an id replaces an earlier one.
pub open spec fn log_index(log: Seq<u8>, n: nat) -> Map<u64, u64>
    decreases n,
{
    if n == 0 {
        Map::empty()
    } else {
        log_index(log, (n - 1) as nat).insert(entry_id(log, n - 1), entry_offset(log, n - 1))
    }
}

/// The offset of the last log entry, or 0 for an empty log. Offsets only
/// grow, so this is the largest.
pub open spec fn last_offset(log: Seq<u8>) -> u64 {
    if log.len() < 16 {
        0
    } else {
        entry_offset(log, log.len() / 16 - 1)
    }
}

/// Relies on byteorder's `LittleEndian::read_u64`: the number whose
/// little-endian bytes are the first eight of `buf`.
#[verifier::external_body]
fn read_u64_le(buf: &[u8]) -> (r: u64)
    requires
        buf@.len() == 8,
    ensures
        r as int == le_u64(buf@),
{
    <byteorder::LittleEndian as byteorder::ByteOrder>::read_u64(buf)
}

/// Relies on byteorder's `LittleEndian::write_u64`: the eight
/// little-endian bytes of `n`.
#[verifier::external_body]
fn write_u64_le(n: u64) -> (r: Vec<u8>)
    ensures
        r@.len() == 8,
        le_u64(r@) == n as int,
{
    let mut buf = vec![0u8; 8];
    <byteorder::LittleEndian as byteorder::ByteOrder>::write_u64(&mut buf, n);
    buf
}

/// The log entry that records `id` at `offset`: the id, then the offset.
pub fn log_entry(id: u64, offset: u64) -> (r: Vec<u8>)
    ensures
        r@.len() == 16,
        entry_id(r@, 0) == id,
        entry_offset(r@, 0) == offset,
{
    let mut entry = write_u64_le(id);
    let mut tail = write_u64_le(offset);
    let ghost head = entry@;
    let ghost low = tail@;
    entry.append(&mut tail);
    assert(entry@.subrange(0, 8) =~= head);
    assert(entry@.subrange(8, 16) =~= low);
    entry
}

/// The in-memory index of an append-only record store: where in the data
/// each id's latest record starts, and how long the data is.
///
/// The store itself is two append-only byte sequences: the data, records
/// one after the other, and the log, one entry per record added.
pub struct BincodeDatabase {
    index: HashMap<u64, u64>,
    data_len: u64,
}

impl BincodeDatabase {
    pub closed spec fn spec_index(&self) -> Map<u64, u64> {
        self.index@
    }

    pub closed spec fn spec_data_len(&self) -> u64 {
        self.data_len
    }

    /// Rebuilds the index by replaying `log`, for data of `data_len` bytes.
    pub fn new(log: &[u8], data_len: u64) -> (r: Result<BincodeDatabase, DbError>)
        ensures
            log@.len() % 16 != 0 <==> r == Err::<BincodeDatabase, DbError>(DbError::MalformedLog),
            (log@.len() % 16 == 0 && last_offset(log@) > 0 && last_offset(log@) >= data_len) <==> r
                == Err::<BincodeDatabase, DbError>(DbError::UnreachableOffset),
            (log@.len() % 16 == 0 && !(last_offset(log@) > 0 && last_offset(log@) >= data_len))
                ==> r is Ok,
            r matches Ok(db) ==> db.spec_index() == log_index(log@, log@.len() / 16)
                && db.spec_data_len() == data_len,
    {
        if log.len() % ENTRY_LEN != 0 {
            return Err(DbError::MalformedLog);
        }
        let len: usize = log.len();
        let n = len / ENTRY_LEN;
        let mut index: HashMap<u64, u64> = HashMap::new();
        let mut max_offset: u64 = 0;
        let mut i: usize = 0;
        let mut at: usize = 0;
        assert(log@.len() == 16 * n) by (nonlinear_arith)
            requires
                log@.len() % 16 == 0,
                n == log@.len() / 16,
        ;
        while i < n
            invariant
                n == log@.len() / 16,
                log@.len() == 16 * n,
                len == log@.len(),
                at == 16 * i,
                log@.len() % 16 == 0,
                i <= n,
                index@ == log_index(log@, i as nat),
                i == 0 ==> max_offset == 0,
                i > 0 ==> max_offset == entry_offset(log@, i - 1),
            decreases n - i,
        {
            assert(at + 16 <= 16 * n) by (nonlinear_arith)
                requires
                    i < n,
                    at == 16 * i,
            ;
            let id = read_u64_le(slice_subrange(log, at, at + 8));
            max_offset = read_u64_le(slice_subrange(log, at + 8, at + 16));
            index.insert(id, max_offset);
            i = i + 1;
            at = at + 16;
        }
        if max_offset > 0 && max_offset >= data_len {
            Err(DbError::UnreachableOffset)
        } else {
            Ok(BincodeDatabase { index, data_len })
        }
    }

    /// Records that a record of `len` bytes was appended under `id`, at
    /// the current end of the data.
    pub fn add(&mut self, id: u64, len: u64)
        requires
            old(self).spec_data_len() + len <= u64::MAX,
        ensures
            final(self).spec_index() == old(self).spec_index().insert(id, old(self).spec_data_len()),
            final(self).spec_data_len() == old(self).spec_data_len() + len,
    {
        let offset = self.data_len;
        self.index.insert(id, offset);
        self.data_len = offset + len;
    }

    /// Where the latest record of `id` starts in the data, if any.
    pub fn get(&self, id: u64) -> (r: Option<u64>)
        ensures
            r == (if self.spec_index().contains_key(id) {
                Some(self.spec_index()[id])
            } else {
                None::<u64>
            }),
    {
        match self.index.get(&id) {
            Some(offset) => Some(*offset),
            None => None,
        }
    }

    /// The length of the data, where the next record goes.
    pub fn data_len(&self) -> (r: u64)
        ensures
            r == self.spec_data_len(),
    {
        self.data_len
    }
}

} // verus!
