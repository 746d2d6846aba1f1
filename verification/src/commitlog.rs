//! The commit log of one topic: an ordered run of segments that together
//! cover the retained offsets, with rotation when the active segment is full
//! and eviction of the oldest segments when the log outgrows its budget.

use vstd::prelude::*;
use crate::index::entries_of;
use crate::segment::{load_error, Segment, SegmentError, SegmentView};
use crate::utils::parse_label;

verus! {

/// Why a commit log operation failed.
#[derive(Clone, Copy, Debug, PartialEq, Eq)]
pub enum CommitlogError {
    /// A pair of files could not be loaded as a segment.
    Segment(SegmentError),
    /// The segments, in the order of their starting offsets, do not cover
    /// one run of offsets without gap or overlap.
    NotContiguous,
    /// The record is larger than a whole segment may be.
    RecordTooLarge,
    /// Every 16-bit offset has been given out.
    OffsetsExhausted,
    /// The offset names no record that the log retains.
    OffsetOutOfRange,
}

/// The contents of the pair of files of one segment, as read from disk.
pub struct SegmentFiles {
    /// The part of the file names that states the starting offset.
    pub label: String,
    /// The content of the log file.
    pub log: Vec<u8>,
    /// The content of the index file.
    pub index: Vec<u8>,
}

/// The values of a run of segments.
pub open spec fn views(segments: Seq<Segment>) -> Seq<SegmentView> {
    Seq::new(segments.len(), |i: int| segments[i]@)
}

/// The value of the segment that a pair of files holds.
pub open spec fn loaded_view(files: SegmentFiles) -> SegmentView {
    SegmentView {
        starting_offset: parse_label(files.label@)->Some_0 as int,
        log: files.log@,
        entries: entries_of(files.index@),
    }
}

/// The values of the segments that a run of file pairs holds.
pub open spec fn loaded_views(files: Seq<SegmentFiles>) -> Seq<SegmentView> {
    Seq::new(files.len(), |i: int| loaded_view(files[i]))
}

/// Where a segment that starts at `start` goes among `segments`: behind the
/// last segment that starts no later.
pub open spec fn insertion_point(segments: Seq<SegmentView>, start: int) -> int
    decreases segments.len(),
{
    if segments.len() == 0 {
        0
    } else if segments.last().starting_offset <= start {
        segments.len() as int
    } else {
        insertion_point(segments.drop_last(), start)
    }
}

/// The segments in the order of their starting offsets: each segment in turn
/// goes behind the last of those before it that starts no later.
pub open spec fn ordered(segments: Seq<SegmentView>) -> Seq<SegmentView>
    decreases segments.len(),
{
    if segments.len() == 0 {
        Seq::empty()
    } else {
        let before = ordered(segments.drop_last());
        before.insert(
            insertion_point(before, segments.last().starting_offset),
            segments.last(),
        )
    }
}

/// Whether no segment starts before one that stands in front of it.
pub open spec fn ascending(segments: Seq<SegmentView>) -> bool {
    forall|i: int, j: int|
        0 <= i < j < segments.len() ==> (#[trigger] segments[i]).starting_offset <= (
        #[trigger] segments[j]).starting_offset
}

/// The insertion point lies within the segments; every segment from there on
/// starts later than `start`, and the one in front of it does not.
pub proof fn lemma_insertion_point(segments: Seq<SegmentView>, start: int)
    ensures
        0 <= insertion_point(segments, start) <= segments.len(),
        forall|k: int|
            insertion_point(segments, start) <= k < segments.len() ==> (
            #[trigger] segments[k]).starting_offset > start,
        insertion_point(segments, start) > 0 ==> segments[insertion_point(segments, start)
            - 1].starting_offset <= start,
    decreases segments.len(),
{
    if segments.len() > 0 && segments.last().starting_offset > start {
        let front = segments.drop_last();
        lemma_insertion_point(front, start);
        let p = insertion_point(front, start);
        assert forall|k: int| p <= k < segments.len() implies (
        #[trigger] segments[k]).starting_offset > start by {
            if k < front.len() {
                assert(segments[k] == front[k]);
            }
        }
        if p > 0 {
            assert(segments[p - 1] == front[p - 1]);
        }
    }
}

/// Ordering keeps every segment, each as often as it was there, and puts
/// them in ascending order of their starting offsets.
pub proof fn lemma_ordered(segments: Seq<SegmentView>)
    ensures
        ordered(segments).len() == segments.len(),
        ordered(segments).to_multiset() == segments.to_multiset(),
        ascending(ordered(segments)),
    decreases segments.len(),
{
    if segments.len() == 0 {
        assert(segments =~= Seq::<SegmentView>::empty());
    } else {
        let front = segments.drop_last();
        let last = segments.last();
        let before = ordered(front);
        let p = insertion_point(before, last.starting_offset);
        let after = ordered(segments);
        lemma_ordered(front);
        lemma_insertion_point(before, last.starting_offset);
        vstd::seq_lib::to_multiset_insert(before, p, last);
        vstd::seq_lib::to_multiset_build(front, last);
        assert(front.push(last) =~= segments);
        assert forall|i: int, j: int| 0 <= i < j < after.len() implies (
        #[trigger] after[i]).starting_offset <= (#[trigger] after[j]).starting_offset by {
            if j < p {
                assert(after[i] == before[i] && after[j] == before[j]);
            } else if j == p {
                assert(after[i] == before[i]);
                if i < p - 1 {
                    assert(before[i].starting_offset <= before[p - 1].starting_offset);
                }
            } else if i < p {
                assert(after[i] == before[i] && after[j] == before[j - 1]);
                if i < p - 1 {
                    assert(before[i].starting_offset <= before[p - 1].starting_offset);
                }
            } else if i == p {
                assert(after[j] == before[j - 1]);
            } else {
                assert(after[i] == before[i - 1] && after[j] == before[j - 1]);
            }
        }
    }
}

/// The error of the first pair of files that does not load, if there is one.
pub open spec fn first_load_error(files: Seq<SegmentFiles>) -> Option<SegmentError>
    decreases files.len(),
{
    if files.len() == 0 {
        None
    } else {
        match first_load_error(files.drop_last()) {
            Some(e) => Some(e),
            None => load_error(files.last().label@, files.last().log@, files.last().index@),
        }
    }
}

/// The segments of the commit log that opens on the given files: those that
/// the files hold, in the order of their starting offsets, and one empty
/// segment at offset 0 where there is no file.
pub open spec fn opened(files: Seq<SegmentFiles>) -> Seq<SegmentView> {
    if files.len() == 0 {
        seq![SegmentView::fresh(0)]
    } else {
        ordered(loaded_views(files))
    }
}

/// The invariant of the segments of a commit log: there is at least one; each
/// is well formed; each but the last holds a record and ends where the next
/// starts; and one without records has an empty log.
pub open spec fn chain(segments: Seq<SegmentView>) -> bool {
    &&& segments.len() >= 1
    &&& forall|i: int| 0 <= i < segments.len() ==> (#[trigger] segments[i]).wf()
    &&& forall|i: int|
        0 <= i < segments.len() ==> ((#[trigger] segments[i]).entries.len() == 0
            ==> segments[i].log.len() == 0)
    &&& forall|i: int|
        0 <= i < segments.len() - 1 ==> (#[trigger] segments[i]).entries.len() > 0
            && segments[i].next_offset() == segments[i + 1].starting_offset
}

/// The error with which opening a commit log on the given files fails, if it
/// fails.
pub open spec fn open_error(files: Seq<SegmentFiles>) -> Option<CommitlogError> {
    match first_load_error(files) {
        Some(e) => Some(CommitlogError::Segment(e)),
        None => if files.len() > 0 && !chain(ordered(loaded_views(files))) {
            Some(CommitlogError::NotContiguous)
        } else {
            None
        },
    }
}

/// The first offset that the segments retain.
pub open spec fn first_offset(segments: Seq<SegmentView>) -> int {
    segments[0].starting_offset
}

/// The offset that the next record will get.
pub open spec fn next_offset(segments: Seq<SegmentView>) -> int {
    segments.last().next_offset()
}

/// The position of the segment that holds `offset`.
pub open spec fn holder(segments: Seq<SegmentView>, offset: int) -> int {
    choose|k: int| 0 <= k < segments.len() && (#[trigger] segments[k]).holds(offset)
}

/// The bytes of the record with the global offset `offset`.
pub open spec fn record_at(segments: Seq<SegmentView>, offset: int) -> Seq<u8>
    recommends
        first_offset(segments) <= offset < next_offset(segments),
{
    let segment = segments[holder(segments, offset)];
    segment.record(offset - segment.starting_offset)
}

/// The error with which a log refuses a record of `len` bytes, if it does.
pub open spec fn append_refusal(segments: Seq<SegmentView>, len: int, max_segment_bytes: u64)
    -> Option<CommitlogError> {
    if len > max_segment_bytes || len > u32::MAX {
        Some(CommitlogError::RecordTooLarge)
    } else if next_offset(segments) >= u16::MAX {
        Some(CommitlogError::OffsetsExhausted)
    } else {
        None
    }
}

/// The segments after `data` has been written: at the end of the active
/// segment where it fits, else as the first record of a new segment that
/// starts where the active one ends.
pub open spec fn written(segments: Seq<SegmentView>, data: Seq<u8>, max_segment_bytes: u64) -> Seq<
    SegmentView,
> {
    let active = segments.last();
    if active.fits(data.len() as int, max_segment_bytes) {
        segments.drop_last().push(active.append(data))
    } else {
        segments.push(SegmentView::fresh(active.next_offset()).append(data))
    }
}

/// The bytes that the files of the segments take on disk together.
pub open spec fn total_bytes(segments: Seq<SegmentView>) -> int
    decreases segments.len(),
{
    if segments.len() == 0 {
        0
    } else {
        total_bytes(segments.drop_last()) + segments.last().stored_bytes()
    }
}

/// How many of the oldest segments leave under a budget of
/// `max_retention_bytes`: the fewest that bring the total within the budget,
/// and never the last segment.
pub open spec fn evicted_count(segments: Seq<SegmentView>, max_retention_bytes: u64) -> int
    decreases segments.len(),
{
    if segments.len() <= 1 || total_bytes(segments) <= max_retention_bytes {
        0
    } else {
        1 + evicted_count(segments.skip(1), max_retention_bytes)
    }
}

/// The segments that stay under a budget of `max_retention_bytes`.
pub open spec fn retained(segments: Seq<SegmentView>, max_retention_bytes: u64) -> Seq<
    SegmentView,
> {
    segments.skip(evicted_count(segments, max_retention_bytes))
}

/// Eviction takes segments from the front only, and leaves at least one.
pub proof fn lemma_evicted_count_bounds(segments: Seq<SegmentView>, max_retention_bytes: u64)
    requires
        segments.len() >= 1,
    ensures
        0 <= evicted_count(segments, max_retention_bytes) < segments.len(),
    decreases segments.len(),
{
    if !(segments.len() <= 1 || total_bytes(segments) <= max_retention_bytes) {
        lemma_evicted_count_bounds(segments.skip(1), max_retention_bytes);
    }
}

/// Every suffix of a chain that is not empty is a chain.
pub proof fn lemma_chain_suffix(segments: Seq<SegmentView>, k: int)
    requires
        chain(segments),
        0 <= k < segments.len(),
    ensures
        chain(segments.skip(k)),
        segments.skip(k).last() == segments.last(),
{
    let suffix = segments.skip(k);
    assert forall|i: int| 0 <= i < suffix.len() implies (#[trigger] suffix[i]).wf() by {
        assert(suffix[i] == segments[i + k]);
    }
    assert forall|i: int|
        0 <= i < suffix.len() && (#[trigger] suffix[i]).entries.len() == 0 implies suffix[i].log.len()
        == 0 by {
        assert(suffix[i] == segments[i + k]);
    }
    assert forall|i: int| 0 <= i < suffix.len() - 1 implies (#[trigger] suffix[i]).entries.len() > 0
        && suffix[i].next_offset() == suffix[i + 1].starting_offset by {
        assert(suffix[i] == segments[i + k]);
        assert(suffix[i + 1] == segments[i + k + 1]);
    }
}

/// In a chain a later segment starts where an earlier one ends, or after.
pub proof fn lemma_chain_ordered(segments: Seq<SegmentView>, i: int, j: int)
    requires
        chain(segments),
        0 <= i < j < segments.len(),
    ensures
        segments[i].next_offset() <= segments[j].starting_offset,
    decreases j - i,
{
    if i + 1 < j {
        lemma_chain_ordered(segments, i, j - 1);
        assert(segments[j - 1].next_offset() == segments[j].starting_offset);
        assert(segments[j - 1].entries.len() > 0);
    }
}

/// In a chain at most one segment holds a given offset.
pub proof fn lemma_holder_is(segments: Seq<SegmentView>, offset: int, k: int)
    requires
        chain(segments),
        0 <= k < segments.len(),
        segments[k].holds(offset),
    ensures
        holder(segments, offset) == k,
{
    let h = holder(segments, offset);
    if h < k {
        lemma_chain_ordered(segments, h, k);
    } else if k < h {
        lemma_chain_ordered(segments, k, h);
    }
}

/// In a chain every offset from the first to the last is held by a segment.
pub proof fn lemma_holder_exists(segments: Seq<SegmentView>, offset: int)
    requires
        chain(segments),
        first_offset(segments) <= offset < next_offset(segments),
    ensures
        0 <= holder(segments, offset) < segments.len(),
        segments[holder(segments, offset)].holds(offset),
    decreases segments.len(),
{
    if segments.last().holds(offset) {
        lemma_holder_is(segments, offset, segments.len() - 1);
    } else {
        let front = segments.drop_last();
        assert(segments[segments.len() - 2].next_offset() == segments.last().starting_offset);
        assert(front =~= segments.take(segments.len() - 1));
        assert(chain(front)) by {
            assert forall|i: int| 0 <= i < front.len() implies (#[trigger] front[i]).wf() by {
                assert(front[i] == segments[i]);
            }
            assert forall|i: int|
                0 <= i < front.len() && (#[trigger] front[i]).entries.len() == 0 implies front[i].log.len()
                == 0 by {
                assert(front[i] == segments[i]);
            }
            assert forall|i: int| 0 <= i < front.len() - 1 implies (
            #[trigger] front[i]).entries.len() > 0 && front[i].next_offset() == front[i
                + 1].starting_offset by {
                assert(front[i] == segments[i]);
                assert(front[i + 1] == segments[i + 1]);
            }
        }
        lemma_holder_exists(front, offset);
        let k = holder(front, offset);
        assert(segments[k] == front[k]);
        lemma_holder_is(segments, offset, k);
    }
}

/// Writing a record that the log does not refuse keeps the chain, gives the
/// record the next offset and moves the next offset up by exactly one.
pub proof fn lemma_written(segments: Seq<SegmentView>, data: Seq<u8>, max_segment_bytes: u64)
    requires
        chain(segments),
        append_refusal(segments, data.len() as int, max_segment_bytes) is None,
    ensures
        chain(written(segments, data, max_segment_bytes)),
        next_offset(written(segments, data, max_segment_bytes)) == next_offset(segments) + 1,
        first_offset(written(segments, data, max_segment_bytes)) == first_offset(segments),
        record_at(written(segments, data, max_segment_bytes), next_offset(segments)) == data,
        forall|offset: int|
            first_offset(segments) <= offset < next_offset(segments) ==> record_at(
                written(segments, data, max_segment_bytes),
                offset,
            ) == #[trigger] record_at(segments, offset),
{
    let after = written(segments, data, max_segment_bytes);
    let active = segments.last();
    let n = segments.len() as int;
    let len = data.len() as int;
    if active.fits(len, max_segment_bytes) {
        let grown = active.append(data);
        assert(after.len() == n);
        assert(after[n - 1] == grown);
        assert forall|i: int| 0 <= i < n - 1 implies after[i] == segments[i] by {}
        assert(grown.wf()) by {
            assert forall|i: int| 0 <= i < grown.entries.len() implies (
            #[trigger] grown.entries[i]).start + grown.entries[i].total <= grown.log.len() by {
                if i < active.entries.len() {
                    assert(grown.entries[i] == active.entries[i]);
                }
            }
        }
        assert(chain(after)) by {
            assert forall|i: int| 0 <= i < after.len() implies (#[trigger] after[i]).wf() by {
                if i < n - 1 {
                    assert(after[i] == segments[i]);
                }
            }
            assert forall|i: int|
                0 <= i < after.len() && (#[trigger] after[i]).entries.len() == 0 implies after[i].log.len()
                == 0 by {
                if i < n - 1 {
                    assert(after[i] == segments[i]);
                }
            }
            assert forall|i: int| 0 <= i < after.len() - 1 implies (#[trigger] after[i]).entries.len()
                > 0 && after[i].next_offset() == after[i + 1].starting_offset by {
                assert(after[i] == segments[i]);
                if i + 1 < n - 1 {
                    assert(after[i + 1] == segments[i + 1]);
                }
            }
        }
        assert(grown.holds(next_offset(segments)));
        lemma_holder_is(after, next_offset(segments), n - 1);
        assert(grown.record(active.entries.len() as int) =~= data);
        assert forall|offset: int|
            first_offset(segments) <= offset < next_offset(segments) implies record_at(
            after,
            offset,
        ) == #[trigger] record_at(segments, offset) by {
            lemma_holder_exists(segments, offset);
            let k = holder(segments, offset);
            if k < n - 1 {
                assert(after[k] == segments[k]);
                lemma_holder_is(after, offset, k);
            } else {
                assert(grown.holds(offset));
                lemma_holder_is(after, offset, n - 1);
                let local = offset - active.starting_offset;
                assert(grown.entries[local] == active.entries[local]);
                assert(grown.record(local) =~= active.record(local));
            }
        }
    } else {
        let fresh = SegmentView::fresh(active.next_offset()).append(data);
        assert(after.len() == n + 1);
        assert(after[n] == fresh);
        assert forall|i: int| 0 <= i < n implies after[i] == segments[i] by {}
        assert(active.log.len() > 0);
        assert(active.entries.len() > 0);
        assert(fresh.wf());
        assert(chain(after)) by {
            assert forall|i: int| 0 <= i < after.len() implies (#[trigger] after[i]).wf() by {
                if i < n {
                    assert(after[i] == segments[i]);
                }
            }
            assert forall|i: int|
                0 <= i < after.len() && (#[trigger] after[i]).entries.len() == 0 implies after[i].log.len()
                == 0 by {
                if i < n {
                    assert(after[i] == segments[i]);
                }
            }
            assert forall|i: int| 0 <= i < after.len() - 1 implies (#[trigger] after[i]).entries.len()
                > 0 && after[i].next_offset() == after[i + 1].starting_offset by {
                assert(after[i] == segments[i]);
                if i + 1 < n {
                    assert(after[i + 1] == segments[i + 1]);
                }
            }
        }
        assert(fresh.holds(next_offset(segments)));
        lemma_holder_is(after, next_offset(segments), n);
        assert(fresh.record(0) =~= data);
        assert forall|offset: int|
            first_offset(segments) <= offset < next_offset(segments) implies record_at(
            after,
            offset,
        ) == #[trigger] record_at(segments, offset) by {
            lemma_holder_exists(segments, offset);
            let k = holder(segments, offset);
            assert(after[k] == segments[k]);
            lemma_holder_is(after, offset, k);
        }
    }
}

/// Eviction keeps the chain and the active segment, and every record that it
/// retains reads as before.
pub proof fn lemma_retained(segments: Seq<SegmentView>, max_retention_bytes: u64)
    requires
        chain(segments),
    ensures
        chain(retained(segments, max_retention_bytes)),
        retained(segments, max_retention_bytes).last() == segments.last(),
        next_offset(retained(segments, max_retention_bytes)) == next_offset(segments),
        first_offset(segments) <= first_offset(retained(segments, max_retention_bytes)),
        forall|offset: int|
            first_offset(retained(segments, max_retention_bytes)) <= offset < next_offset(segments)
                ==> record_at(retained(segments, max_retention_bytes), offset)
                == #[trigger] record_at(segments, offset),
{
    let k = evicted_count(segments, max_retention_bytes);
    let kept = retained(segments, max_retention_bytes);
    lemma_evicted_count_bounds(segments, max_retention_bytes);
    lemma_chain_suffix(segments, k);
    assert(kept[0] == segments[k]);
    if k > 0 {
        lemma_chain_ordered(segments, 0, k);
    }
    assert forall|offset: int|
        first_offset(kept) <= offset < next_offset(segments) implies record_at(kept, offset)
        == #[trigger] record_at(segments, offset) by {
        lemma_holder_exists(kept, offset);
        let h = holder(kept, offset);
        assert(kept[h] == segments[h + k]);
        lemma_holder_is(segments, offset, h + k);
    }
}

/// A record that has just been appended reads back as it was written: after
/// the log has taken `data` and evicted what its budget asks for, the offset
/// that the record got holds `data`, and the next offset is one higher.
pub proof fn lemma_append_then_read(
    segments: Seq<SegmentView>,
    data: Seq<u8>,
    max_segment_bytes: u64,
    max_retention_bytes: u64,
)
    requires
        chain(segments),
        append_refusal(segments, data.len() as int, max_segment_bytes) is None,
    ensures
        ({
            let after = retained(written(segments, data, max_segment_bytes), max_retention_bytes);
            &&& chain(after)
            &&& next_offset(after) == next_offset(segments) + 1
            &&& first_offset(after) <= next_offset(segments)
            &&& record_at(after, next_offset(segments)) == data
        }),
{
    let mid = written(segments, data, max_segment_bytes);
    lemma_written(segments, data, max_segment_bytes);
    lemma_retained(mid, max_retention_bytes);
    let after = retained(mid, max_retention_bytes);
    assert(after.last() == mid.last());
    assert(after.last().holds(next_offset(segments)));
    lemma_holder_is(after, next_offset(segments), after.len() - 1);
    lemma_chain_ordered_first(after, after.len() - 1);
}

/// The segments after one append: unchanged where the record is refused,
/// else with the record written and the oldest segments evicted.
pub open spec fn appended(
    segments: Seq<SegmentView>,
    data: Seq<u8>,
    max_segment_bytes: u64,
    max_retention_bytes: u64,
) -> Seq<SegmentView> {
    if append_refusal(segments, data.len() as int, max_segment_bytes) is None {
        retained(written(segments, data, max_segment_bytes), max_retention_bytes)
    } else {
        segments
    }
}

/// The segments after the records have been appended, one after the other.
pub open spec fn appended_all(
    segments: Seq<SegmentView>,
    records: Seq<Seq<u8>>,
    max_segment_bytes: u64,
    max_retention_bytes: u64,
) -> Seq<SegmentView>
    decreases records.len(),
{
    if records.len() == 0 {
        segments
    } else {
        appended(
            appended_all(segments, records.drop_last(), max_segment_bytes, max_retention_bytes),
            records.last(),
            max_segment_bytes,
            max_retention_bytes,
        )
    }
}

/// How many of the records, appended one after the other, are accepted.
pub open spec fn accepted(
    segments: Seq<SegmentView>,
    records: Seq<Seq<u8>>,
    max_segment_bytes: u64,
    max_retention_bytes: u64,
) -> int
    decreases records.len(),
{
    if records.len() == 0 {
        0
    } else {
        let before = appended_all(
            segments,
            records.drop_last(),
            max_segment_bytes,
            max_retention_bytes,
        );
        let earlier = accepted(
            segments,
            records.drop_last(),
            max_segment_bytes,
            max_retention_bytes,
        );
        if append_refusal(before, records.last().len() as int, max_segment_bytes) is None {
            earlier + 1
        } else {
            earlier
        }
    }
}

/// Over any run of appends the next offset rises by exactly one for each
/// record that is accepted and stays for each that is refused: offsets are
/// given out in order and without gaps.
pub proof fn lemma_offsets_without_gaps(
    segments: Seq<SegmentView>,
    records: Seq<Seq<u8>>,
    max_segment_bytes: u64,
    max_retention_bytes: u64,
)
    requires
        chain(segments),
    ensures
        chain(appended_all(segments, records, max_segment_bytes, max_retention_bytes)),
        next_offset(appended_all(segments, records, max_segment_bytes, max_retention_bytes))
            == next_offset(segments) + accepted(
            segments,
            records,
            max_segment_bytes,
            max_retention_bytes,
        ),
    decreases records.len(),
{
    if records.len() > 0 {
        let before = appended_all(
            segments,
            records.drop_last(),
            max_segment_bytes,
            max_retention_bytes,
        );
        lemma_offsets_without_gaps(
            segments,
            records.drop_last(),
            max_segment_bytes,
            max_retention_bytes,
        );
        if append_refusal(before, records.last().len() as int, max_segment_bytes) is None {
            lemma_append_then_read(
                before,
                records.last(),
                max_segment_bytes,
                max_retention_bytes,
            );
        }
    }
}

/// In a chain no segment starts before the first.
pub proof fn lemma_chain_ordered_first(segments: Seq<SegmentView>, j: int)
    requires
        chain(segments),
        0 <= j < segments.len(),
    ensures
        segments[0].starting_offset <= segments[j].starting_offset,
{
    if 0 < j {
        lemma_chain_ordered(segments, 0, j);
    }
}

/// An ordered run of segments, the last of which is active, with the budgets
/// for one segment and for the whole log.
pub struct Commitlog {
    /// The directory that holds the files of the segments.
    pub directory: String,
    /// The most bytes that one segment may hold.
    pub max_segment_bytes: u64,
    /// The most bytes that the segments may hold together before the oldest
    /// are evicted.
    pub max_retention_bytes: u64,
    /// The segments, ordered by their starting offsets.
    pub segments: Vec<Segment>,
    /// The segments that eviction has taken out and whose files are still to
    /// be removed.
    pub evicted: Vec<Segment>,
}

impl View for Commitlog {
    type V = Seq<SegmentView>;

    open spec fn view(&self) -> Seq<SegmentView> {
        views(self.segments@)
    }
}

impl Commitlog {
    /// Whether every segment of `segments` is well formed and configured for
    /// a log in `directory` with the given budget for a segment.
    pub open spec fn segments_fit(
        segments: Seq<Segment>,
        directory: Seq<char>,
        max_segment_bytes: u64,
    ) -> bool {
        forall|i: int|
            0 <= i < segments.len() ==> {
                &&& (#[trigger] segments[i]).wf()
                &&& segments[i].named_by_convention()
                &&& segments[i].directory@ == directory
                &&& segments[i].max_bytes == max_segment_bytes
            }
    }

    /// The invariant of a commit log.
    pub open spec fn wf(&self) -> bool {
        &&& Self::segments_fit(self.segments@, self.directory@, self.max_segment_bytes)
        &&& chain(self@)
    }

    /// The first offset that the log retains.
    pub open spec fn spec_first_offset(&self) -> int {
        first_offset(self@)
    }

    /// The offset that the next record will get.
    pub open spec fn spec_next_offset(&self) -> int {
        next_offset(self@)
    }

    /// Checks the invariant of a run of segments that are each well formed.
    fn check_chain(segments: &Vec<Segment>) -> (ok: bool)
        requires
            forall|i: int| 0 <= i < segments@.len() ==> (#[trigger] segments@[i]).wf(),
        ensures
            ok == chain(views(segments@)),
    {
        let count: usize = segments.len();
        if count == 0 {
            return false;
        }
        let ghost all = views(segments@);
        assert forall|i: int| 0 <= i < all.len() implies (#[trigger] all[i]).wf() by {
            assert(segments@[i].wf());
        }
        let mut at: usize = 0;
        while at < count
            invariant
                at <= count,
                count == segments@.len(),
                all == views(segments@),
                forall|i: int| 0 <= i < all.len() ==> (#[trigger] all[i]).wf(),
                forall|i: int| 0 <= i < segments@.len() ==> (#[trigger] segments@[i]).wf(),
                forall|i: int|
                    0 <= i < at ==> ((#[trigger] all[i]).entries.len() == 0 ==> all[i].log.len()
                        == 0),
                forall|i: int|
                    0 <= i < at && i < count - 1 ==> (#[trigger] all[i]).entries.len() > 0
                        && all[i].next_offset() == all[i + 1].starting_offset,
            decreases count - at,
        {
            let segment = &segments[at];
            assert(segment.wf());
            assert(all[at as int] == segment@);
            let records: u16 = segment.next_offset - segment.starting_offset;
            if records == 0 && segment.position != 0 {
                return false;
            }
            if at + 1 < count {
                assert(all[at + 1] == segments@[at + 1]@);
                if records == 0 || segment.next_offset != segments[at + 1].starting_offset {
                    return false;
                }
            }
            at = at + 1;
        }
        true
    }

    /// A commit log of `directory` with one empty segment at offset 0.
    pub fn fresh(directory: String, max_segment_bytes: u64, max_retention_bytes: u64) -> (log:
        Commitlog)
        ensures
            log.wf(),
            log.directory == directory,
            log.max_segment_bytes == max_segment_bytes,
            log.max_retention_bytes == max_retention_bytes,
            log.evicted@.len() == 0,
            log@ == seq![SegmentView::fresh(0)],
    {
        let mut segments: Vec<Segment> = Vec::new();
        let first = Segment::new(directory.clone(), max_segment_bytes, 0);
        segments.push(first);
        let log = Commitlog {
            directory,
            max_segment_bytes,
            max_retention_bytes,
            segments,
            evicted: Vec::new(),
        };
        assert(log@ =~= seq![SegmentView::fresh(0)]);
        log
    }

    /// Opens the commit log of `directory` on the pairs of files found there,
    /// in whatever order they are given: the segments are put in the order of
    /// their starting offsets. Without any file the log starts with one empty
    /// segment at offset 0. A pair that does not load is an error, and so is a
    /// run of segments that leaves a gap, overlaps, or holds log bytes that no
    /// record accounts for in a segment without records.
    pub fn new(
        directory: String,
        max_segment_bytes: u64,
        max_retention_bytes: u64,
        files: &Vec<SegmentFiles>,
    ) -> (r: Result<Commitlog, CommitlogError>)
        ensures
            match r {
                Ok(log) => {
                    &&& open_error(files@) is None
                    &&& log.wf()
                    &&& log.directory == directory
                    &&& log.max_segment_bytes == max_segment_bytes
                    &&& log.max_retention_bytes == max_retention_bytes
                    &&& log.evicted@.len() == 0
                    &&& log@ == opened(files@)
                },
                Err(e) => open_error(files@) == Some(e),
            },
    {
        let count: usize = files.len();
        let mut segments: Vec<Segment> = Vec::new();
        if count == 0 {
            return Ok(Commitlog::fresh(directory, max_segment_bytes, max_retention_bytes));
        }
        let ghost all = loaded_views(files@);
        let mut at: usize = 0;
        assert(views(segments@) =~= ordered(all.take(0)));
        while at < count
            invariant
                at <= count,
                count == files@.len(),
                all == loaded_views(files@),
                segments@.len() == at,
                first_load_error(files@.take(at as int)) is None,
                Self::segments_fit(segments@, directory@, max_segment_bytes),
                views(segments@) == ordered(all.take(at as int)),
            decreases count - at,
        {
            let pair = &files[at];
            proof {
                assert(files@.take(at + 1).drop_last() =~= files@.take(at as int));
                assert(files@.take(at + 1).last() == files@[at as int]);
                assert(all.take(at + 1).drop_last() =~= all.take(at as int));
                assert(all.take(at + 1).last() == loaded_view(files@[at as int]));
            }
            let loaded = Segment::load_segment(
                directory.clone(),
                pair.label.clone(),
                max_segment_bytes,
                pair.log.as_slice(),
                pair.index.as_slice(),
            );
            match loaded {
                Ok(segment) => {
                    assert(segment@ == loaded_view(files@[at as int]));
                    Self::insert_in_order(&mut segments, segment);
                },
                Err(e) => {
                    proof {
                        Self::lemma_first_load_error_prefix(files@, at + 1);
                    }
                    return Err(CommitlogError::Segment(e));
                },
            }
            at = at + 1;
        }
        assert(files@.take(at as int) =~= files@);
        assert(all.take(at as int) =~= all);
        if !Self::check_chain(&segments) {
            return Err(CommitlogError::NotContiguous);
        }
        Ok(
            Commitlog {
                directory,
                max_segment_bytes,
                max_retention_bytes,
                segments,
                evicted: Vec::new(),
            },
        )
    }

    /// Puts `segment` among `segments` behind the last that starts no later.
    fn insert_in_order(segments: &mut Vec<Segment>, segment: Segment)
        ensures
            final(segments)@.len() == old(segments)@.len() + 1,
            views(final(segments)@) == views(old(segments)@).insert(
                insertion_point(views(old(segments)@), segment@.starting_offset),
                segment@,
            ),
            forall|directory: Seq<char>, max_segment_bytes: u64|
                #![trigger Self::segments_fit(final(segments)@, directory, max_segment_bytes)]
                Self::segments_fit(old(segments)@, directory, max_segment_bytes) && segment.wf()
                    && segment.named_by_convention() && segment.directory@ == directory
                    && segment.max_bytes == max_segment_bytes ==> Self::segments_fit(
                    final(segments)@,
                    directory,
                    max_segment_bytes,
                ),
    {
        let ghost before = segments@;
        let ghost all = views(segments@);
        let ghost start = segment@.starting_offset;
        let mut at: usize = segments.len();
        assert(all.take(at as int) =~= all);
        while at > 0 && segments[at - 1].starting_offset > segment.starting_offset
            invariant
                at <= segments@.len(),
                segments@ == before,
                all == views(before),
                start == segment@.starting_offset,
                insertion_point(all, start) == insertion_point(all.take(at as int), start),
            decreases at,
        {
            proof {
                assert(all.take(at as int).last() == before[at - 1]@);
                assert(all.take(at as int).drop_last() =~= all.take(at - 1));
            }
            at = at - 1;
        }
        proof {
            if at > 0 {
                assert(all.take(at as int).last() == before[at - 1]@);
            }
        }
        segments.insert(at, segment);
        proof {
            assert(views(segments@) =~= all.insert(at as int, segment@));
            assert forall|directory: Seq<char>, max_segment_bytes: u64|
                Self::segments_fit(before, directory, max_segment_bytes) && segment.wf()
                    && segment.named_by_convention() && segment.directory@ == directory
                    && segment.max_bytes == max_segment_bytes implies #[trigger] Self::segments_fit(
                segments@,
                directory,
                max_segment_bytes,
            ) by {
                assert forall|i: int| 0 <= i < segments@.len() implies {
                    &&& (#[trigger] segments@[i]).wf()
                    &&& segments@[i].named_by_convention()
                    &&& segments@[i].directory@ == directory
                    &&& segments@[i].max_bytes == max_segment_bytes
                } by {
                    if i < at {
                        assert(segments@[i] == before[i]);
                    } else if i > at {
                        assert(segments@[i] == before[i - 1]);
                    }
                }
            }
        }
    }

    /// A failure among the first `k` pairs of files is the failure of the
    /// whole run.
    proof fn lemma_first_load_error_prefix(files: Seq<SegmentFiles>, k: int)
        requires
            0 <= k <= files.len(),
            first_load_error(files.take(k)) is Some,
        ensures
            first_load_error(files) == first_load_error(files.take(k)),
        decreases files.len() - k,
    {
        if k == files.len() {
            assert(files.take(k) =~= files);
        } else {
            assert(files.take(k + 1).drop_last() =~= files.take(k));
            Self::lemma_first_load_error_prefix(files, k + 1);
        }
    }

    /// The first offset that the log retains.
    pub fn first_offset(&self) -> (offset: u16)
        requires
            self.wf(),
        ensures
            offset == self.spec_first_offset(),
    {
        assert(self@[0] == self.segments@[0]@);
        self.segments[0].starting_offset
    }

    /// The offset that the next record will get.
    pub fn next_offset(&self) -> (offset: u16)
        requires
            self.wf(),
        ensures
            offset == self.spec_next_offset(),
    {
        let last: usize = self.segments.len() - 1;
        assert(self@[last as int] == self.segments@[last as int]@);
        assert(self.segments@[last as int].wf());
        self.segments[last].next_offset
    }

    /// Whether the files of the segments together take more bytes than the
    /// retention budget allows.
    fn over_budget(&self) -> (over: bool)
        requires
            self.wf(),
        ensures
            over == (total_bytes(self@) > self.max_retention_bytes),
    {
        let count: usize = self.segments.len();
        let mut sum: u64 = 0;
        let mut at: usize = 0;
        while at < count
            invariant
                at <= count,
                count == self.segments@.len(),
                self.wf(),
                sum == total_bytes(self@.take(at as int)),
                sum <= self.max_retention_bytes,
            decreases count - at,
        {
            let segment = &self.segments[at];
            assert(segment.wf());
            let records: u64 = (segment.next_offset - segment.starting_offset) as u64;
            let size: u64 = segment.position as u64 + 8 * records;
            proof {
                assert(self@.take(at + 1).drop_last() =~= self@.take(at as int));
                assert(self@.take(at + 1).last() == self.segments@[at as int]@);
                assert(self.segments@[at as int].wf());
                Self::lemma_total_bytes_grows(self@, at + 1);
            }
            if size > self.max_retention_bytes - sum {
                return true;
            }
            sum = sum + size;
            at = at + 1;
        }
        assert(self@.take(at as int) =~= self@);
        false
    }

    /// The segments together take no fewer bytes than the first `k` of them.
    proof fn lemma_total_bytes_grows(segments: Seq<SegmentView>, k: int)
        requires
            0 <= k <= segments.len(),
        ensures
            total_bytes(segments.take(k)) <= total_bytes(segments),
        decreases segments.len() - k,
    {
        if k == segments.len() {
            assert(segments.take(k) =~= segments);
        } else {
            assert(segments.take(k + 1).drop_last() =~= segments.take(k));
            Self::lemma_total_bytes_grows(segments, k + 1);
        }
    }

    /// Evicts the oldest segments while the log is over its retention budget
    /// and has more than one segment. The evicted segments join `evicted`, in
    /// the order of their offsets. Eviction goes by the budget alone: where
    /// the consumer groups of the topic stand is not asked.
    pub fn clean(&mut self)
        requires
            old(self).wf(),
        ensures
            final(self).wf(),
            final(self).directory == old(self).directory,
            final(self).max_segment_bytes == old(self).max_segment_bytes,
            final(self).max_retention_bytes == old(self).max_retention_bytes,
            final(self)@ == retained(old(self)@, old(self).max_retention_bytes),
            views(final(self).evicted@) == views(old(self).evicted@) + old(self)@.take(
                evicted_count(old(self)@, old(self).max_retention_bytes),
            ),
    {
        let ghost budget = self.max_retention_bytes;
        let ghost before = self@;
        let ghost gone: int = 0;
        while self.segments.len() > 1 && self.over_budget()
            invariant
                self.wf(),
                self.directory == old(self).directory,
                self.max_segment_bytes == old(self).max_segment_bytes,
                self.max_retention_bytes == old(self).max_retention_bytes,
                budget == self.max_retention_bytes,
                before == old(self)@,
                0 <= gone < before.len(),
                self@ == before.skip(gone),
                evicted_count(before, budget) == gone + evicted_count(self@, budget),
                views(self.evicted@) == views(old(self).evicted@) + before.take(gone),
            decreases self.segments@.len(),
        {
            let ghost current = self@;
            let ghost current_segments = self.segments@;
            let ghost current_evicted = self.evicted@;
            let oldest = self.segments.remove(0);
            self.evicted.push(oldest);
            proof {
                assert(self.segments@ =~= current_segments.skip(1));
                assert(self@ =~= current.skip(1));
                lemma_chain_suffix(current, 1);
                assert(Self::segments_fit(
                    self.segments@,
                    self.directory@,
                    self.max_segment_bytes,
                )) by {
                    assert forall|i: int| 0 <= i < self.segments@.len() implies {
                        &&& (#[trigger] self.segments@[i]).wf()
                        &&& self.segments@[i].named_by_convention()
                        &&& self.segments@[i].directory@ == self.directory@
                        &&& self.segments@[i].max_bytes == self.max_segment_bytes
                    } by {
                        assert(self.segments@[i] == current_segments[i + 1]);
                    }
                }
                assert(current.skip(1) =~= before.skip(gone + 1));
                assert(oldest == current_segments[0]);
                assert(current[0] == current_segments[0]@);
                assert(current[0] == before[gone]);
                assert(views(self.evicted@) =~= views(current_evicted).push(oldest@));
                assert(before.take(gone + 1) =~= before.take(gone).push(before[gone]));
                gone = gone + 1;
            }
        }
        proof {
            assert(evicted_count(self@, budget) == 0);
        }
    }

    /// Hands over the segments that eviction has taken out of the log, so
    /// that their files can be removed.
    pub fn take_evicted(&mut self) -> (gone: Vec<Segment>)
        ensures
            gone == old(self).evicted,
            final(self).evicted@.len() == 0,
            final(self).directory == old(self).directory,
            final(self).max_segment_bytes == old(self).max_segment_bytes,
            final(self).max_retention_bytes == old(self).max_retention_bytes,
            final(self).segments == old(self).segments,
    {
        let mut gone: Vec<Segment> = Vec::new();
        std::mem::swap(&mut self.evicted, &mut gone);
        gone
    }

    /// Appends `data` as the next record and returns its offset. The record
    /// goes to the active segment; where that segment is full, a new segment
    /// that starts at the next offset becomes active and takes it. After the
    /// write the oldest segments are evicted as the retention budget asks.
    /// Nothing changes where the record is refused.
    pub fn append(&mut self, data: &[u8]) -> (r: Result<u16, CommitlogError>)
        requires
            old(self).wf(),
        ensures
            final(self).wf(),
            final(self).directory == old(self).directory,
            final(self).max_segment_bytes == old(self).max_segment_bytes,
            final(self).max_retention_bytes == old(self).max_retention_bytes,
            match r {
                Ok(offset) => {
                    let after = written(old(self)@, data@, old(self).max_segment_bytes);
                    &&& append_refusal(
                        old(self)@,
                        data@.len() as int,
                        old(self).max_segment_bytes,
                    ) is None
                    &&& offset == old(self).spec_next_offset()
                    &&& final(self).spec_next_offset() == offset + 1
                    &&& final(self)@ == retained(after, old(self).max_retention_bytes)
                    &&& views(final(self).evicted@) == views(old(self).evicted@) + after.take(
                        evicted_count(after, old(self).max_retention_bytes),
                    )
                    &&& final(self).spec_first_offset() <= offset
                    &&& record_at(final(self)@, offset as int) == data@
                },
                Err(e) => {
                    &&& append_refusal(
                        old(self)@,
                        data@.len() as int,
                        old(self).max_segment_bytes,
                    ) == Some(e)
                    &&& final(self)@ == old(self)@
                    &&& final(self).evicted == old(self).evicted
                },
            },
    {
        let len: usize = data.len();
        if len > 4294967295 || len as u64 > self.max_segment_bytes {
            return Err(CommitlogError::RecordTooLarge);
        }
        if self.next_offset() == 65535 {
            return Err(CommitlogError::OffsetsExhausted);
        }
        proof {
            lemma_append_then_read(
                self@,
                data@,
                self.max_segment_bytes,
                self.max_retention_bytes,
            );
        }
        let offset = self.write(data);
        self.clean();
        Ok(offset)
    }

    /// Writes a record that the log does not refuse: to the active segment,
    /// or to a new one where the active segment is full.
    fn write(&mut self, data: &[u8]) -> (offset: u16)
        requires
            old(self).wf(),
            append_refusal(old(self)@, data@.len() as int, old(self).max_segment_bytes) is None,
        ensures
            final(self).wf(),
            final(self).directory == old(self).directory,
            final(self).max_segment_bytes == old(self).max_segment_bytes,
            final(self).max_retention_bytes == old(self).max_retention_bytes,
            final(self).evicted == old(self).evicted,
            final(self)@ == written(old(self)@, data@, old(self).max_segment_bytes),
            offset == old(self).spec_next_offset(),
    {
        proof {
            lemma_written(self@, data@, self.max_segment_bytes);
        }
        let last: usize = self.segments.len() - 1;
        assert(self@[last as int] == self.segments@[last as int]@);
        assert(self.segments@[last as int].wf());
        let end: u64 = self.segments[last].position as u64 + data.len() as u64;
        if end > self.max_segment_bytes || end > 4294967295 {
            self.rotate(data)
        } else {
            self.extend(data)
        }
    }

    /// Writes a record at the end of the active segment, which has room for
    /// it.
    fn extend(&mut self, data: &[u8]) -> (offset: u16)
        requires
            old(self).wf(),
            old(self)@.last().next_offset() < u16::MAX,
            old(self)@.last().fits(data@.len() as int, old(self).max_segment_bytes),
            chain(old(self)@.drop_last().push(old(self)@.last().append(data@))),
        ensures
            final(self).wf(),
            final(self).directory == old(self).directory,
            final(self).max_segment_bytes == old(self).max_segment_bytes,
            final(self).max_retention_bytes == old(self).max_retention_bytes,
            final(self).evicted == old(self).evicted,
            final(self)@ == old(self)@.drop_last().push(old(self)@.last().append(data@)),
            offset == old(self).spec_next_offset(),
    {
        let ghost before = self@;
        let ghost before_segments = self.segments@;
        let last: usize = self.segments.len() - 1;
        assert(before[last as int] == before_segments[last as int]@);
        assert(before_segments[last as int].wf());
        let active = &mut self.segments[last];
        let offset = match active.append(data) {
            Ok(offset) => offset,
            Err(_) => 0,
        };
        proof {
            let now = self.segments@;
            let goal = before.drop_last().push(before.last().append(data@));
            assert(now.len() == before_segments.len());
            assert(now[last as int]@ == before.last().append(data@));
            assert forall|i: int| 0 <= i < goal.len() implies self@[i] == goal[i] by {
                if i < last {
                    assert(now[i] == before_segments[i]);
                    assert(before[i] == before_segments[i]@);
                }
            }
            assert(self@ =~= goal);
            assert forall|i: int| 0 <= i < now.len() implies {
                &&& (#[trigger] now[i]).wf()
                &&& now[i].named_by_convention()
                &&& now[i].directory@ == self.directory@
                &&& now[i].max_bytes == self.max_segment_bytes
            } by {
                if i < last {
                    assert(now[i] == before_segments[i]);
                } else {
                    assert(before_segments[i].named_by_convention());
                }
            }
        }
        offset
    }

    /// Starts a new active segment where the old one ends, and writes a
    /// record as its first.
    fn rotate(&mut self, data: &[u8]) -> (offset: u16)
        requires
            old(self).wf(),
            old(self)@.last().next_offset() < u16::MAX,
            data@.len() <= old(self).max_segment_bytes,
            data@.len() <= u32::MAX,
            chain(
                old(self)@.push(
                    SegmentView::fresh(old(self)@.last().next_offset()).append(data@),
                ),
            ),
        ensures
            final(self).wf(),
            final(self).directory == old(self).directory,
            final(self).max_segment_bytes == old(self).max_segment_bytes,
            final(self).max_retention_bytes == old(self).max_retention_bytes,
            final(self).evicted == old(self).evicted,
            final(self)@ == old(self)@.push(
                SegmentView::fresh(old(self)@.last().next_offset()).append(data@),
            ),
            offset == old(self).spec_next_offset(),
    {
        let ghost before = self@;
        let ghost before_segments = self.segments@;
        let last: usize = self.segments.len() - 1;
        assert(before[last as int] == before_segments[last as int]@);
        assert(before_segments[last as int].wf());
        let start: u16 = self.segments[last].next_offset;
        let mut fresh = Segment::new(self.directory.clone(), self.max_segment_bytes, start);
        let offset = match fresh.append(data) {
            Ok(offset) => offset,
            Err(_) => start,
        };
        self.segments.push(fresh);
        proof {
            let now = self.segments@;
            let goal = before.push(SegmentView::fresh(start as int).append(data@));
            assert(now == before_segments.push(fresh));
            assert forall|i: int| 0 <= i < goal.len() implies self@[i] == goal[i] by {
                if i <= last {
                    assert(now[i] == before_segments[i]);
                    assert(before[i] == before_segments[i]@);
                }
            }
            assert(self@ =~= goal);
            assert forall|i: int| 0 <= i < now.len() implies {
                &&& (#[trigger] now[i]).wf()
                &&& now[i].named_by_convention()
                &&& now[i].directory@ == self.directory@
                &&& now[i].max_bytes == self.max_segment_bytes
            } by {
                if i <= last {
                    assert(now[i] == before_segments[i]);
                }
            }
        }
        offset
    }

    /// The bytes of the record with the global offset `offset`;
    /// `OffsetOutOfRange` where the log retains no such record, be it that
    /// the offset has not been written yet or that its segment was evicted.
    pub fn read_at(&self, offset: usize) -> (r: Result<Vec<u8>, CommitlogError>)
        requires
            self.wf(),
        ensures
            match r {
                Ok(bytes) => {
                    &&& self.spec_first_offset() <= offset < self.spec_next_offset()
                    &&& bytes@ == record_at(self@, offset as int)
                },
                Err(e) => {
                    &&& e == CommitlogError::OffsetOutOfRange
                    &&& !(self.spec_first_offset() <= offset < self.spec_next_offset())
                },
            },
    {
        let count: usize = self.segments.len();
        assert(self@[0] == self.segments@[0]@);
        if offset < self.segments[0].starting_offset as usize {
            return Err(CommitlogError::OffsetOutOfRange);
        }
        let mut at: usize = 0;
        while at < count
            invariant
                at <= count,
                count == self.segments@.len(),
                self.wf(),
                at < count ==> self@[at as int].starting_offset <= offset,
                at == count ==> self.spec_next_offset() <= offset,
            decreases count - at,
        {
            let segment = &self.segments[at];
            assert(self@[at as int] == segment@);
            assert(segment.wf());
            if offset < segment.next_offset as usize {
                proof {
                    lemma_holder_is(self@, offset as int, at as int);
                    lemma_chain_ordered_first(self@, at as int);
                    if at < count - 1 {
                        lemma_chain_ordered(self@, at as int, count - 1);
                    }
                }
                return match segment.read_at(offset - segment.starting_offset as usize) {
                    Ok(bytes) => Ok(bytes),
                    Err(_) => Err(CommitlogError::OffsetOutOfRange),
                };
            }
            proof {
                if at + 1 < count {
                    assert(self@[at as int].next_offset() == self@[at + 1].starting_offset);
                }
            }
            at = at + 1;
        }
        Err(CommitlogError::OffsetOutOfRange)
    }
}

} // verus!
