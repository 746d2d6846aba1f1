//! One bounded span of a topic's log: the bytes of its log file and the index
//! that cuts them into records.

use vstd::prelude::*;
use vstd::slice::slice_subrange;
use vstd::slice::slice_to_vec;
use crate::index::{entries_of, Entry, Index, IndexError};
use crate::utils::{
    index_file_name, index_suffix, log_file_name, log_suffix, parse_label, parse_offset_label,
    segment_file_name,
};

verus! {

/// Why a segment operation failed.
#[derive(Clone, Copy, Debug, PartialEq, Eq)]
pub enum SegmentError {
    /// The offset label does not state a 16-bit offset.
    InvalidLabel,
    /// The log file is longer than a 32-bit position can state.
    LogTooLarge,
    /// The index file ends in a partial record, or an entry reaches beyond
    /// the end of the log file.
    CorruptIndex,
    /// The entries of the index do not fit in the 16-bit offset space.
    TooManyEntries,
    /// The offset names no record of the segment.
    OffsetOutOfRange,
    /// The record does not fit in what is left of the segment's byte budget.
    SegmentFull,
    /// Every 16-bit offset has been given out.
    OffsetsExhausted,
    /// A file of the segment could not be removed.
    IoFailure,
}

/// A segment as a mathematical value: where it starts, the bytes of its log
/// and the entries of its index.
pub struct SegmentView {
    pub starting_offset: int,
    pub log: Seq<u8>,
    pub entries: Seq<Entry>,
}

impl SegmentView {
    /// The empty segment that starts at `offset`.
    pub open spec fn fresh(offset: int) -> SegmentView {
        SegmentView { starting_offset: offset, log: Seq::empty(), entries: Seq::empty() }
    }

    /// One past the last offset of the segment.
    pub open spec fn next_offset(self) -> int {
        self.starting_offset + self.entries.len()
    }

    /// Whether the segment holds the record with the global offset `offset`.
    pub open spec fn holds(self, offset: int) -> bool {
        self.starting_offset <= offset < self.next_offset()
    }

    /// The bytes of the record at the local offset `local`.
    pub open spec fn record(self, local: int) -> Seq<u8>
        recommends
            0 <= local < self.entries.len(),
    {
        let entry = self.entries[local];
        self.log.subrange(entry.start as int, entry.start + entry.total)
    }

    /// The segment with `data` written at its end.
    pub open spec fn append(self, data: Seq<u8>) -> SegmentView {
        SegmentView {
            starting_offset: self.starting_offset,
            log: self.log + data,
            entries: self.entries.push(
                Entry { start: self.log.len() as u32, total: data.len() as u32 },
            ),
        }
    }

    /// The bytes that the two files of the segment take on disk: the log, and
    /// eight bytes of index for each record.
    pub open spec fn stored_bytes(self) -> int {
        self.log.len() as int + 8 * self.entries.len() as int
    }

    /// Whether a record of `len` bytes fits under a budget of `max_bytes`.
    pub open spec fn fits(self, len: int, max_bytes: u64) -> bool {
        self.log.len() + len <= max_bytes && self.log.len() + len <= u32::MAX
    }

    /// The invariant of a segment, on its value: offsets and positions fit
    /// their machine types and every entry lies within the log.
    pub open spec fn wf(self) -> bool {
        &&& 0 <= self.starting_offset
        &&& self.next_offset() <= u16::MAX
        &&& self.log.len() <= u32::MAX
        &&& entries_within(self.entries, self.log.len() as int)
    }
}

/// Whether every entry names a byte range that lies within a log of `len`
/// bytes.
pub open spec fn entries_within(entries: Seq<Entry>, len: int) -> bool {
    forall|i: int|
        0 <= i < entries.len() ==> (#[trigger] entries[i]).start + entries[i].total <= len
}

/// The error with which loading a segment from the given label and file
/// contents fails, if it fails.
pub open spec fn load_error(label: Seq<char>, log: Seq<u8>, index: Seq<u8>) -> Option<
    SegmentError,
> {
    if parse_label(label) is None {
        Some(SegmentError::InvalidLabel)
    } else if log.len() > u32::MAX {
        Some(SegmentError::LogTooLarge)
    } else if index.len() % 8 != 0 {
        Some(SegmentError::CorruptIndex)
    } else if parse_label(label)->Some_0 + index.len() / 8 > u16::MAX {
        Some(SegmentError::TooManyEntries)
    } else if !entries_within(entries_of(index), log.len() as int) {
        Some(SegmentError::CorruptIndex)
    } else {
        None
    }
}

/// The error with which a segment at `position` bytes and `next_offset`
/// refuses a record of `len` bytes under a budget of `max_bytes`, if it does.
pub open spec fn append_error(next_offset: u16, position: u32, max_bytes: u64, len: int) -> Option<
    SegmentError,
> {
    if next_offset == u16::MAX {
        Some(SegmentError::OffsetsExhausted)
    } else if position + len > max_bytes || position + len > u32::MAX {
        Some(SegmentError::SegmentFull)
    } else {
        None
    }
}

/// A log file and its index, covering the offsets from `starting_offset` up
/// to, not including, `next_offset`.
pub struct Segment {
    /// The path of the log file.
    pub file_name: String,
    /// The length of the log file, where the next record will start.
    pub position: u32,
    /// The first offset of the segment.
    pub starting_offset: u16,
    /// The offset that the next record will get.
    pub next_offset: u16,
    /// The directory of the commit log that owns the segment.
    pub directory: String,
    /// The most bytes that the log file may hold.
    pub max_bytes: u64,
    /// The content of the log file.
    pub log_file: Vec<u8>,
    /// The index of the log file.
    pub index: Index,
}

impl View for Segment {
    type V = SegmentView;

    open spec fn view(&self) -> SegmentView {
        SegmentView {
            starting_offset: self.starting_offset as int,
            log: self.log_file@,
            entries: self.index@,
        }
    }
}

impl Segment {
    /// The invariant of a segment: the index has one entry for each offset,
    /// `position` is the length of the log, and every entry lies within the
    /// log.
    pub open spec fn wf(&self) -> bool {
        &&& self.next_offset == self.starting_offset + self.index@.len()
        &&& self.position == self.log_file@.len()
        &&& entries_within(self.index@, self.log_file@.len() as int)
    }

    /// Whether the paths of the segment follow the naming convention for its
    /// directory and starting offset.
    pub open spec fn named_by_convention(&self) -> bool {
        &&& self.file_name@ == segment_file_name(
            self.directory@,
            self.starting_offset,
            log_suffix(),
        )
        &&& self.index.file_name@ == segment_file_name(
            self.directory@,
            self.starting_offset,
            index_suffix(),
        )
    }

    /// How many records the segment holds.
    pub open spec fn count(&self) -> int {
        self.index@.len() as int
    }

    /// The bytes of the record at the local offset `local`.
    pub open spec fn record(&self, local: int) -> Seq<u8>
        recommends
            0 <= local < self.count(),
    {
        let entry = self.index@[local];
        self.log_file@.subrange(entry.start as int, entry.start + entry.total)
    }

    /// Checks that every entry of `index` lies within a log of `len` bytes.
    fn check_entries(index: &Index, len: u32) -> (ok: bool)
        ensures
            ok == entries_within(index@, len as int),
    {
        let count: usize = index.len();
        let mut at: usize = 0;
        while at < count
            invariant
                at <= count,
                count == index@.len(),
                entries_within(index@.take(at as int), len as int),
            decreases count - at,
        {
            let entry = index.entry(at);
            if entry.start as u64 + entry.total as u64 > len as u64 {
                return false;
            }
            proof {
                assert forall|i: int| 0 <= i < at + 1 implies (#[trigger] index@.take(
                    at + 1,
                )[i]).start + index@.take(at + 1)[i].total <= len by {
                    if i < at {
                        assert(index@.take(at as int)[i] == index@[i]);
                    }
                }
            }
            at = at + 1;
        }
        assert(index@.take(at as int) =~= index@);
        true
    }

    /// A new, empty segment of `base_directory` that starts at `offset`.
    pub fn new(base_directory: String, max_segment_bytes: u64, offset: u16) -> (segment: Segment)
        ensures
            segment.wf(),
            segment.named_by_convention(),
            segment.directory == base_directory,
            segment.max_bytes == max_segment_bytes,
            segment@ == SegmentView::fresh(offset as int),
    {
        let log_file_name = log_file_name(base_directory.as_str(), offset);
        let index_name = index_file_name(base_directory.as_str(), offset);
        let segment = Segment {
            file_name: log_file_name,
            position: 0,
            starting_offset: offset,
            next_offset: offset,
            directory: base_directory,
            max_bytes: max_segment_bytes,
            log_file: Vec::new(),
            index: Index { file_name: index_name, entries: Vec::new() },
        };
        assert(segment@.log =~= Seq::<u8>::empty());
        assert(segment@.entries =~= Seq::<Entry>::empty());
        segment
    }

    /// Builds the segment that the pair of files named by `segment_base` in
    /// `base_directory` holds: `log_bytes` is the content of the log file,
    /// `index_bytes` that of the index file. The label gives the starting
    /// offset; the next offset follows from the number of index entries.
    pub fn load_segment(
        base_directory: String,
        segment_base: String,
        max_segment_bytes: u64,
        log_bytes: &[u8],
        index_bytes: &[u8],
    ) -> (r: Result<Segment, SegmentError>)
        ensures
            match r {
                Ok(segment) => {
                    &&& load_error(segment_base@, log_bytes@, index_bytes@) is None
                    &&& segment.wf()
                    &&& segment.named_by_convention()
                    &&& segment.directory == base_directory
                    &&& Some(segment.starting_offset) == parse_label(segment_base@)
                    &&& segment.max_bytes == max_segment_bytes
                    &&& segment.log_file@ == log_bytes@
                    &&& segment.index@ == entries_of(index_bytes@)
                },
                Err(e) => load_error(segment_base@, log_bytes@, index_bytes@) == Some(e),
            },
    {
        let segment_offset: u16 = match parse_offset_label(segment_base.as_str()) {
            Some(offset) => offset,
            None => {
                return Err(SegmentError::InvalidLabel);
            },
        };
        let log_file_name = log_file_name(base_directory.as_str(), segment_offset);
        if log_bytes.len() > 4294967295 {
            return Err(SegmentError::LogTooLarge);
        }
        let current_segment_position: u32 = log_bytes.len() as u32;
        let index_name = index_file_name(base_directory.as_str(), segment_offset);
        let mut loaded_index = match Index::new(index_name) {
            Ok(index) => index,
            Err(_) => {
                return Err(SegmentError::CorruptIndex);
            },
        };
        let total_entries: u16 = match loaded_index.load_index(index_bytes) {
            Ok(count) => count,
            Err(IndexError::TooManyEntries) => {
                return Err(SegmentError::TooManyEntries);
            },
            Err(_) => {
                return Err(SegmentError::CorruptIndex);
            },
        };
        assert(loaded_index@ =~= entries_of(index_bytes@));
        if total_entries > 65535 - segment_offset {
            return Err(SegmentError::TooManyEntries);
        }
        if !Self::check_entries(&loaded_index, current_segment_position) {
            return Err(SegmentError::CorruptIndex);
        }
        Ok(
            Segment {
                file_name: log_file_name,
                position: current_segment_position,
                starting_offset: segment_offset,
                next_offset: segment_offset + total_entries,
                directory: base_directory,
                max_bytes: max_segment_bytes,
                log_file: slice_to_vec(log_bytes),
                index: loaded_index,
            },
        )
    }

    /// Writes `data` at the end of the log, records its byte range in the
    /// index and returns the offset it got. Nothing changes where the record
    /// is refused.
    pub fn append(&mut self, data: &[u8]) -> (r: Result<u16, SegmentError>)
        requires
            old(self).wf(),
        ensures
            final(self).wf(),
            final(self).file_name == old(self).file_name,
            final(self).index.file_name == old(self).index.file_name,
            final(self).directory == old(self).directory,
            final(self).starting_offset == old(self).starting_offset,
            final(self).max_bytes == old(self).max_bytes,
            match r {
                Ok(offset) => {
                    &&& append_error(
                        old(self).next_offset,
                        old(self).position,
                        old(self).max_bytes,
                        data@.len() as int,
                    ) is None
                    &&& offset == old(self).next_offset
                    &&& final(self).next_offset == offset + 1
                    &&& final(self).position == old(self).position + data@.len()
                    &&& final(self).log_file@ == old(self).log_file@ + data@
                    &&& final(self).index@ == old(self).index@.push(
                        Entry { start: old(self).position, total: data@.len() as u32 },
                    )
                    &&& final(self).record(offset - old(self).starting_offset) == data@
                    &&& final(self)@ == old(self)@.append(data@)
                },
                Err(e) => {
                    &&& append_error(
                        old(self).next_offset,
                        old(self).position,
                        old(self).max_bytes,
                        data@.len() as int,
                    ) == Some(e)
                    &&& *final(self) == *old(self)
                },
            },
    {
        if self.next_offset == 65535 {
            return Err(SegmentError::OffsetsExhausted);
        }
        let len: usize = data.len();
        if len > 4294967295 || self.position as u64 + len as u64 > 4294967295
            || self.position as u64 + len as u64 > self.max_bytes {
            return Err(SegmentError::SegmentFull);
        }
        let written_bytes: u32 = len as u32;
        let mut at: usize = 0;
        while at < len
            invariant
                at <= len,
                len == data@.len(),
                self.log_file@ == old(self).log_file@ + data@.take(at as int),
                self.file_name == old(self).file_name,
                self.index == old(self).index,
                self.directory == old(self).directory,
                self.starting_offset == old(self).starting_offset,
                self.next_offset == old(self).next_offset,
                self.position == old(self).position,
                self.max_bytes == old(self).max_bytes,
            decreases len - at,
        {
            self.log_file.push(data[at]);
            assert(data@.take(at + 1) =~= data@.take(at as int).push(data@[at as int]));
            at = at + 1;
        }
        assert(data@.take(at as int) =~= data@);
        self.index.add_entry(self.position, written_bytes);
        self.position = self.position + written_bytes;
        let offset_written = self.next_offset;
        self.next_offset = self.next_offset + 1;
        proof {
            let local = offset_written - old(self).starting_offset;
            assert(self.index@[local] == Entry {
                start: old(self).position,
                total: written_bytes,
            });
            assert(self.record(local) =~= data@);
            assert forall|i: int| 0 <= i < self.index@.len() implies (
            #[trigger] self.index@[i]).start + self.index@[i].total <= self.log_file@.len() by {
                if i < old(self).index@.len() {
                    assert(self.index@[i] == old(self).index@[i]);
                }
            }
        }
        Ok(offset_written)
    }

    /// The bytes of the record at the local offset `offset`;
    /// `OffsetOutOfRange` where the segment holds no such record.
    pub fn read_at(&self, offset: usize) -> (r: Result<Vec<u8>, SegmentError>)
        requires
            self.wf(),
        ensures
            match r {
                Ok(bytes) => offset < self.count() && bytes@ == self.record(offset as int),
                Err(e) => offset >= self.count() && e == SegmentError::OffsetOutOfRange,
            },
    {
        if (self.starting_offset == 0 && offset >= self.next_offset as usize) || (offset >= (
        self.next_offset - self.starting_offset) as usize) {
            return Err(SegmentError::OffsetOutOfRange);
        }
        let (start, total) = match self.index.return_entry_details_by_offset(offset) {
            Ok(details) => details,
            Err(_) => {
                return Err(SegmentError::OffsetOutOfRange);
            },
        };
        let from: usize = start as usize;
        let buffer = slice_to_vec(slice_subrange(self.log_file.as_slice(), from, from + total));
        Ok(buffer)
    }

    /// The entry of the record that was written last, if there is one.
    pub fn last_entry(&self) -> (e: Option<Entry>)
        ensures
            e == if self.index@.len() > 0 {
                Some(self.index@.last())
            } else {
                None
            },
    {
        let count = self.index.len();
        if count == 0 {
            None
        } else {
            Some(self.index.entry(count - 1))
        }
    }

    /// Ends the life of the segment once the removal of both of its files has
    /// been tried: `log_removed` and `index_removed` say which removals
    /// succeeded. The result is `Ok(true)` where both did and `IoFailure`
    /// where either did not.
    pub fn delete(self, log_removed: bool, index_removed: bool) -> (r: Result<bool, SegmentError>)
        ensures
            r == if log_removed && index_removed {
                Ok::<bool, SegmentError>(true)
            } else {
                Err(SegmentError::IoFailure)
            },
    {
        if log_removed && index_removed {
            Ok(true)
        } else {
            Err(SegmentError::IoFailure)
        }
    }
}

} // verus!
