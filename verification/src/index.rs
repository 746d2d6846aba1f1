//! The offset index of one segment: a flat list of fixed-width records, each
//! giving the byte range of one record of the log.

use vstd::prelude::*;
use vstd::slice::slice_subrange;
use crate::encoding::{le_u32, u32_le, lemma_u32_round_trip};

verus! {

/// The error type of `bincode`, carried from the codec to the caller that
/// maps it.
#[verifier::external_type_specification]
#[verifier::external_body]
pub struct ExCodecErrorKind(bincode::ErrorKind);

/// Why an index operation failed.
#[derive(Clone, Copy, Debug, PartialEq, Eq)]
pub enum IndexError {
    /// The index file ends in a record that is shorter than the fixed width.
    CorruptIndex,
    /// The offset does not name an entry of the index.
    OffsetOutOfRange,
    /// The index holds more entries than a 16-bit count can state.
    TooManyEntries,
}

/// One record of the index: where a record of the log starts and how many
/// bytes it has.
#[derive(Clone, Copy, Debug, PartialEq, Eq)]
pub struct Entry {
    pub start: u32,
    pub total: u32,
}

/// The width in bytes of one encoded entry.
pub const ENTRY_WIDTH: usize = 8;

/// The eight bytes of an encoded entry: `start`, then `total`, each as a
/// little-endian 32-bit integer.
pub open spec fn entry_bytes(e: Entry) -> Seq<u8> {
    u32_le(e.start) + u32_le(e.total)
}

/// The entry that the first eight bytes of `b` encode.
pub open spec fn entry_of(b: Seq<u8>) -> Entry
    recommends
        b.len() >= 8,
{
    Entry { start: le_u32(b.subrange(0, 4)) as u32, total: le_u32(b.subrange(4, 8)) as u32 }
}

/// The entries that the complete records of an index file encode. A trailing
/// partial record encodes none.
pub open spec fn entries_of(bytes: Seq<u8>) -> Seq<Entry> {
    Seq::new((bytes.len() / 8) as nat, |i: int| entry_of(bytes.subrange(8 * i, 8 * i + 8)))
}

/// The content of the index file that holds `entries`.
pub open spec fn entries_bytes(entries: Seq<Entry>) -> Seq<u8>
    decreases entries.len(),
{
    if entries.len() == 0 {
        Seq::empty()
    } else {
        entries_bytes(entries.drop_last()) + entry_bytes(entries.last())
    }
}

/// Decoding an encoded entry gives the entry.
pub proof fn lemma_entry_round_trip(e: Entry)
    ensures
        entry_bytes(e).len() == 8,
        entry_of(entry_bytes(e)) == e,
{
    lemma_u32_round_trip(e.start);
    lemma_u32_round_trip(e.total);
    assert(entry_bytes(e).subrange(0, 4) =~= u32_le(e.start));
    assert(entry_bytes(e).subrange(4, 8) =~= u32_le(e.total));
}

/// An index file has eight bytes for each entry.
pub proof fn lemma_entries_bytes_len(entries: Seq<Entry>)
    ensures
        entries_bytes(entries).len() == 8 * entries.len(),
    decreases entries.len(),
{
    if entries.len() > 0 {
        lemma_entries_bytes_len(entries.drop_last());
        lemma_entry_round_trip(entries.last());
    }
}

/// Loading the file that holds a list of entries gives that list.
pub proof fn lemma_index_file_round_trip(entries: Seq<Entry>)
    ensures
        entries_of(entries_bytes(entries)) == entries,
    decreases entries.len(),
{
    let bytes = entries_bytes(entries);
    lemma_entries_bytes_len(entries);
    if entries.len() > 0 {
        let front = entries.drop_last();
        let front_bytes = entries_bytes(front);
        lemma_entries_bytes_len(front);
        lemma_index_file_round_trip(front);
        lemma_entry_round_trip(entries.last());
        assert forall|i: int| 0 <= i < entries.len() implies entries_of(bytes)[i] == entries[i] by {
            if i < front.len() {
                assert(bytes.subrange(8 * i, 8 * i + 8) =~= front_bytes.subrange(8 * i, 8 * i + 8));
                assert(entries_of(front_bytes)[i] == front[i]);
            } else {
                assert(bytes.subrange(8 * i, 8 * i + 8) =~= entry_bytes(entries.last()));
            }
        }
    }
    assert(entries_of(bytes) =~= entries);
}

/// Calls `bincode::deserialize` at the type `(u32, u32)`. With the settings of
/// that function (fixed-width integers, little-endian, trailing bytes
/// allowed) a pair is read as four bytes for each half, in order, and the call
/// fails where fewer than eight bytes are there.
#[verifier::external_body]
fn deserialize_pair(bytes: &[u8]) -> (r: Result<(u32, u32), Box<bincode::ErrorKind>>)
    ensures
        bytes@.len() >= 8 ==> r is Ok && r->Ok_0.0 == le_u32(bytes@.subrange(0, 4))
            && r->Ok_0.1 == le_u32(bytes@.subrange(4, 8)),
        bytes@.len() < 8 ==> r is Err,
{
    bincode::deserialize::<(u32, u32)>(bytes)
}

/// Calls `bincode::serialize` on the pair `(start, total)`. With the settings
/// of that function a pair is written as four little-endian bytes for each
/// half, in order; with no byte limit and a vector as the sink no step of it
/// fails.
#[verifier::external_body]
fn serialize_pair(start: u32, total: u32) -> (r: Result<Vec<u8>, Box<bincode::ErrorKind>>)
    ensures
        r is Ok,
        r->Ok_0@ == u32_le(start) + u32_le(total),
{
    bincode::serialize(&(start, total))
}

impl Entry {
    /// The fixed-width record that stores this entry in an index file.
    pub fn to_bytes(&self) -> (out: Vec<u8>)
        ensures
            out@ == entry_bytes(*self),
            out@.len() == ENTRY_WIDTH,
    {
        proof {
            lemma_entry_round_trip(*self);
        }
        match serialize_pair(self.start, self.total) {
            Ok(bytes) => bytes,
            Err(_) => Vec::new(),
        }
    }

    /// Reads an entry from the first record of `bytes`; `None` where `bytes`
    /// is shorter than one record.
    pub fn from_bytes(bytes: &[u8]) -> (out: Option<Entry>)
        ensures
            out == if bytes@.len() >= 8 {
                Some(entry_of(bytes@))
            } else {
                None
            },
    {
        match deserialize_pair(bytes) {
            Ok(pair) => Some(Entry { start: pair.0, total: pair.1 }),
            Err(_) => None,
        }
    }
}

/// The in-memory side of an index file.
pub struct Index {
    pub file_name: String,
    pub entries: Vec<Entry>,
}

impl View for Index {
    type V = Seq<Entry>;

    open spec fn view(&self) -> Seq<Entry> {
        self.entries@
    }
}

impl Index {
    /// An index for the file at `index_path`, with no entry loaded yet.
    pub fn new(index_path: String) -> (r: Result<Index, IndexError>)
        ensures
            r is Ok,
            r->Ok_0.file_name == index_path,
            r->Ok_0@ == Seq::<Entry>::empty(),
    {
        Ok(Index { file_name: index_path, entries: Vec::new() })
    }

    /// The number of entries.
    pub fn len(&self) -> (n: usize)
        ensures
            n == self@.len(),
    {
        self.entries.len()
    }

    /// Appends to the entries those that `file_bytes`, the content of the
    /// index file, encodes, and returns how many entries the index then holds.
    /// The complete records are loaded in any case; the result is
    /// `CorruptIndex` where a partial record follows them, and
    /// `TooManyEntries` where the count does not fit in 16 bits.
    pub fn load_index(&mut self, file_bytes: &[u8]) -> (r: Result<u16, IndexError>)
        ensures
            final(self).file_name == old(self).file_name,
            final(self)@ == old(self)@ + entries_of(file_bytes@),
            r == if file_bytes@.len() % 8 != 0 {
                Err::<u16, IndexError>(IndexError::CorruptIndex)
            } else if final(self)@.len() > u16::MAX {
                Err(IndexError::TooManyEntries)
            } else {
                Ok(final(self)@.len() as u16)
            },
    {
        let total: usize = file_bytes.len();
        let mut at: usize = 0;
        while total - at >= ENTRY_WIDTH
            invariant
                at <= total,
                total == file_bytes@.len(),
                at % 8 == 0,
                self.file_name == old(self).file_name,
                self@ == old(self)@ + entries_of(file_bytes@).take(at as int / 8),
            decreases total - at,
        {
            let record = slice_subrange(file_bytes, at, at + ENTRY_WIDTH);
            match Entry::from_bytes(record) {
                Some(entry) => {
                    self.entries.push(entry);
                },
                None => {
                    return Err(IndexError::CorruptIndex);
                },
            }
            proof {
                let k = at as int / 8;
                let all = entries_of(file_bytes@);
                assert(all.take(k + 1) =~= all.take(k).push(all[k]));
                assert(file_bytes@.subrange(8 * k, 8 * k + 8) == record@);
            }
            at = at + ENTRY_WIDTH;
        }
        proof {
            let all = entries_of(file_bytes@);
            assert(all.take(at as int / 8) =~= all);
        }
        if at != total {
            return Err(IndexError::CorruptIndex);
        }
        if self.entries.len() > 65535 {
            return Err(IndexError::TooManyEntries);
        }
        Ok(self.entries.len() as u16)
    }

    /// Appends the entry `(start, total)` and returns the record to write at
    /// the end of the index file.
    pub fn add_entry(&mut self, start: u32, total: u32) -> (record: Vec<u8>)
        ensures
            final(self).file_name == old(self).file_name,
            final(self)@ == old(self)@.push(Entry { start, total }),
            record@ == entry_bytes(Entry { start, total }),
    {
        let entry = Entry { start, total };
        self.entries.push(entry);
        entry.to_bytes()
    }

    /// The entry at `offset`.
    pub fn entry(&self, offset: usize) -> (e: Entry)
        requires
            offset < self@.len(),
        ensures
            e == self@[offset as int],
    {
        self.entries[offset]
    }

    /// Where the record at `offset` starts in the log and how many bytes it
    /// has; `OffsetOutOfRange` where the index has no such entry.
    pub fn return_entry_details_by_offset(&self, offset: usize) -> (r: Result<
        (u64, usize),
        IndexError,
    >)
        ensures
            r == if offset < self@.len() {
                Ok::<(u64, usize), IndexError>(
                    (self@[offset as int].start as u64, self@[offset as int].total as usize),
                )
            } else {
                Err(IndexError::OffsetOutOfRange)
            },
    {
        if offset >= self.entries.len() {
            return Err(IndexError::OffsetOutOfRange);
        }
        let entry = self.entries[offset];
        Ok((entry.start as u64, entry.total as usize))
    }
}

} // verus!
