use lucidmq::commitlog::{Commitlog, CommitlogError, SegmentFiles};
use lucidmq::index::Entry;
use lucidmq::segment::SegmentError;

fn files(label: &str, records: &[&[u8]]) -> SegmentFiles {
    let mut log = Vec::new();
    let mut index = Vec::new();
    for record in records {
        index.extend(Entry { start: log.len() as u32, total: record.len() as u32 }.to_bytes());
        log.extend_from_slice(record);
    }
    SegmentFiles { label: label.to_string(), log, index }
}

#[test]
fn a_fresh_log_has_one_empty_segment() {
    let log = Commitlog::new("topic".to_string(), 100, 1000, &Vec::new()).unwrap();
    assert_eq!(log.segments.len(), 1);
    assert_eq!(log.first_offset(), 0);
    assert_eq!(log.next_offset(), 0);
    assert_eq!(log.segments[0].file_name, "topic/00000.log");
    assert_eq!(log.read_at(0), Err(CommitlogError::OffsetOutOfRange));
}

#[test]
fn what_is_appended_reads_back() {
    let mut log = Commitlog::fresh("topic".to_string(), 100, 1000);
    let offset = log.append(b"hello").unwrap();
    assert_eq!(offset, 0);
    assert_eq!(log.read_at(offset as usize), Ok(b"hello".to_vec()));
    let offset = log.append(b"").unwrap();
    assert_eq!(offset, 1);
    assert_eq!(log.read_at(offset as usize), Ok(Vec::new()));
}

#[test]
fn offsets_rise_by_one_without_gaps() {
    let mut log = Commitlog::fresh("topic".to_string(), 16, 1000);
    for expected in 0u16..200 {
        assert_eq!(log.next_offset(), expected);
        let record = vec![expected as u8; (expected % 7) as usize];
        assert_eq!(log.append(&record), Ok(expected));
        assert_eq!(log.next_offset(), expected + 1);
        assert_eq!(log.read_at(expected as usize), Ok(record));
    }
}

#[test]
fn a_full_segment_rotates_at_the_next_offset() {
    let mut log = Commitlog::fresh("topic".to_string(), 10, 1000);
    assert_eq!(log.append(b"123456"), Ok(0));
    assert_eq!(log.segments.len(), 1);
    assert_eq!(log.append(b"abcdef"), Ok(1));
    assert_eq!(log.segments.len(), 2);
    assert_eq!(log.segments[0].starting_offset, 0);
    assert_eq!(log.segments[0].next_offset, 1);
    assert_eq!(log.segments[1].starting_offset, log.segments[0].next_offset);
    assert_eq!(log.segments[1].file_name, "topic/00001.log");
    assert_eq!(log.segments[1].index.file_name, "topic/00001.index");
    assert_eq!(log.read_at(1), Ok(b"abcdef".to_vec()));
    assert_eq!(log.read_at(0), Ok(b"123456".to_vec()));
    assert_eq!(log.read_at(2), Err(CommitlogError::OffsetOutOfRange));
}

#[test]
fn a_record_that_fills_the_segment_exactly_fits() {
    let mut log = Commitlog::fresh("topic".to_string(), 4, 1000);
    assert_eq!(log.append(b"ab"), Ok(0));
    assert_eq!(log.append(b"cd"), Ok(1));
    assert_eq!(log.segments.len(), 1);
    assert_eq!(log.append(b"e"), Ok(2));
    assert_eq!(log.segments.len(), 2);
}

#[test]
fn a_record_larger_than_a_segment_is_refused() {
    let mut log = Commitlog::fresh("topic".to_string(), 4, 1000);
    assert_eq!(log.append(b"abcde"), Err(CommitlogError::RecordTooLarge));
    assert_eq!(log.segments.len(), 1);
    assert_eq!(log.next_offset(), 0);
    assert_eq!(log.append(b"abcd"), Ok(0));
}

#[test]
fn the_last_offset_is_never_given_out() {
    let opened = Commitlog::new(
        "topic".to_string(),
        100,
        1000,
        &vec![files("65533", &[b"a"]), files("65534", &[b"b"])],
    );
    let mut log = opened.unwrap();
    assert_eq!(log.next_offset(), 65535);
    assert_eq!(log.append(b"c"), Err(CommitlogError::OffsetsExhausted));
    assert_eq!(log.read_at(65534), Ok(b"b".to_vec()));
    assert_eq!(log.read_at(65535), Err(CommitlogError::OffsetOutOfRange));
}

#[test]
fn the_oldest_segments_leave_when_over_budget() {
    // Each segment takes 12 bytes on disk: 4 of log and 8 of index.
    let mut log = Commitlog::fresh("topic".to_string(), 4, 24);
    assert_eq!(log.append(b"aaaa"), Ok(0));
    assert_eq!(log.append(b"bbbb"), Ok(1));
    assert_eq!(log.segments.len(), 2);
    assert!(log.evicted.is_empty());
    assert_eq!(log.append(b"cccc"), Ok(2));
    assert_eq!(log.segments.len(), 2);
    assert_eq!(log.first_offset(), 1);
    assert_eq!(log.read_at(0), Err(CommitlogError::OffsetOutOfRange));
    assert_eq!(log.read_at(1), Ok(b"bbbb".to_vec()));
    assert_eq!(log.read_at(2), Ok(b"cccc".to_vec()));
    let gone = log.take_evicted();
    assert_eq!(gone.len(), 1);
    assert_eq!(gone[0].file_name, "topic/00000.log");
    assert_eq!(gone[0].index.file_name, "topic/00000.index");
    assert!(log.evicted.is_empty());
}

#[test]
fn the_active_segment_is_never_evicted() {
    let mut log = Commitlog::fresh("topic".to_string(), 100, 2);
    assert_eq!(log.append(b"abcdef"), Ok(0));
    assert_eq!(log.segments.len(), 1);
    assert_eq!(log.read_at(0), Ok(b"abcdef".to_vec()));
    assert_eq!(log.append(b"ghi"), Ok(1));
    assert_eq!(log.segments.len(), 1);
    assert_eq!(log.read_at(0), Ok(b"abcdef".to_vec()));
    assert!(log.evicted.is_empty());
}

#[test]
fn eviction_may_take_several_segments_at_once() {
    // On disk the segments take 10, 10 and 9 bytes, and the new one 12.
    let mut log = Commitlog::new(
        "topic".to_string(),
        4,
        21,
        &vec![files("00000", &[b"aa"]), files("00001", &[b"bb"]), files("00002", &[b"c"])],
    )
    .unwrap();
    assert_eq!(log.segments.len(), 3);
    assert_eq!(log.append(b"dddd"), Ok(3));
    assert_eq!(log.first_offset(), 2);
    assert_eq!(log.segments.len(), 2);
    assert_eq!(log.take_evicted().len(), 2);
    assert_eq!(log.read_at(2), Ok(b"c".to_vec()));
    assert_eq!(log.read_at(3), Ok(b"dddd".to_vec()));
}

#[test]
fn opening_loads_the_segments_in_order() {
    let log = Commitlog::new(
        "topic".to_string(),
        100,
        1000,
        &vec![files("00003", &[b"a", b"bb"]), files("00005", &[b"ccc"])],
    )
    .unwrap();
    assert_eq!(log.first_offset(), 3);
    assert_eq!(log.next_offset(), 6);
    assert_eq!(log.read_at(2), Err(CommitlogError::OffsetOutOfRange));
    assert_eq!(log.read_at(3), Ok(b"a".to_vec()));
    assert_eq!(log.read_at(4), Ok(b"bb".to_vec()));
    assert_eq!(log.read_at(5), Ok(b"ccc".to_vec()));
    assert_eq!(log.read_at(6), Err(CommitlogError::OffsetOutOfRange));
}

#[test]
fn opening_orders_the_segments_by_starting_offset() {
    let log = Commitlog::new(
        "topic".to_string(),
        100,
        1000,
        &vec![
            files("00005", &[b"ccc"]),
            files("00006", &[]),
            files("00000", &[b"x", b"y", b"z"]),
            files("00003", &[b"a", b"bb"]),
        ],
    )
    .unwrap();
    let starts: Vec<u16> = log.segments.iter().map(|s| s.starting_offset).collect();
    assert_eq!(starts, vec![0, 3, 5, 6]);
    assert_eq!(log.first_offset(), 0);
    assert_eq!(log.next_offset(), 6);
    assert_eq!(log.read_at(1), Ok(b"y".to_vec()));
    assert_eq!(log.read_at(4), Ok(b"bb".to_vec()));
    assert_eq!(log.read_at(5), Ok(b"ccc".to_vec()));
}

#[test]
fn opening_reports_the_first_pair_that_does_not_load() {
    let r = Commitlog::new(
        "topic".to_string(),
        100,
        1000,
        &vec![
            files("00000", &[b"a"]),
            SegmentFiles { label: "oops".to_string(), log: Vec::new(), index: Vec::new() },
            SegmentFiles { label: "00002".to_string(), log: Vec::new(), index: vec![1] },
        ],
    );
    assert_eq!(r.err(), Some(CommitlogError::Segment(SegmentError::InvalidLabel)));
}

#[test]
fn opening_rejects_gaps_and_overlaps() {
    let gap = vec![files("00000", &[b"a"]), files("00002", &[b"b"])];
    let r = Commitlog::new("topic".to_string(), 100, 1000, &gap);
    assert_eq!(r.err(), Some(CommitlogError::NotContiguous));
    let overlap = vec![files("00000", &[b"a", b"b"]), files("00001", &[b"c"])];
    let r = Commitlog::new("topic".to_string(), 100, 1000, &overlap);
    assert_eq!(r.err(), Some(CommitlogError::NotContiguous));
    let twice = vec![files("00000", &[b"a"]), files("0", &[b"a"])];
    let r = Commitlog::new("topic".to_string(), 100, 1000, &twice);
    assert_eq!(r.err(), Some(CommitlogError::NotContiguous));
    let empty_inside = vec![files("00000", &[]), files("00000", &[b"a"])];
    let r = Commitlog::new("topic".to_string(), 100, 1000, &empty_inside);
    assert_eq!(r.err(), Some(CommitlogError::NotContiguous));
}

#[test]
fn opening_rejects_log_bytes_that_no_record_accounts_for() {
    let stray = vec![SegmentFiles { label: "00000".to_string(), log: b"zz".to_vec(), index: Vec::new() }];
    let r = Commitlog::new("topic".to_string(), 100, 1000, &stray);
    assert_eq!(r.err(), Some(CommitlogError::NotContiguous));
}

#[test]
fn the_budget_counts_log_and_index_bytes() {
    let mut log = Commitlog::fresh("topic".to_string(), 4, 23);
    log.append(b"aaaa").unwrap();
    log.append(b"bbbb").unwrap();
    assert_eq!(log.segments.len(), 1);
    assert_eq!(log.first_offset(), 1);
    let mut log = Commitlog::fresh("topic".to_string(), 4, 24);
    log.append(b"aaaa").unwrap();
    log.append(b"bbbb").unwrap();
    assert_eq!(log.segments.len(), 2);
    assert_eq!(log.first_offset(), 0);
}

#[test]
fn clean_does_nothing_within_budget() {
    let mut log = Commitlog::fresh("topic".to_string(), 4, 100);
    log.append(b"aaaa").unwrap();
    log.append(b"bbbb").unwrap();
    log.clean();
    assert_eq!(log.segments.len(), 2);
    assert!(log.evicted.is_empty());
}
