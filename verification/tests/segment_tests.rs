use lucidmq::index::Entry;
use lucidmq::segment::{Segment, SegmentError};
use lucidmq::utils::{
    index_file_name, log_file_label, log_file_name, parse_offset_label, segment_label,
};

fn segment_with(message: &[u8]) -> Segment {
    let index = Entry { start: 0, total: message.len() as u32 }.to_bytes();
    Segment::load_segment("/tmp/test".to_string(), "00000".to_string(), 100, message, &index)
        .expect("unable to load segment")
}

#[test]
fn test_load_segment() {
    let segment = segment_with("hello".as_bytes());
    assert!(segment.file_name == "/tmp/test/00000.log");
    assert!(segment.index.file_name == "/tmp/test/00000.index");
    assert_eq!(segment.starting_offset, 0);
    assert_eq!(segment.next_offset, 1);
    assert_eq!(segment.position, 5);
}

#[test]
fn test_read_at() {
    let message = "hello".as_bytes();
    let segment = segment_with(message);
    let result = segment.read_at(0).expect("Unable to read at offset");
    assert!(result.iter().eq(message.iter()));
}

#[test]
fn test_delete() {
    let message = "hello".as_bytes();
    let segment = segment_with(message);
    let delete_result = segment.delete(true, true).expect("Unable to delete segment");
    assert!(delete_result.eq(&true));
}

#[test]
fn delete_fails_where_either_removal_failed() {
    assert_eq!(segment_with(b"x").delete(false, true), Err(SegmentError::IoFailure));
    assert_eq!(segment_with(b"x").delete(true, false), Err(SegmentError::IoFailure));
    assert_eq!(segment_with(b"x").delete(false, false), Err(SegmentError::IoFailure));
}

#[test]
fn labels_are_five_digits() {
    assert_eq!(segment_label(0), "00000");
    assert_eq!(segment_label(7), "00007");
    assert_eq!(segment_label(1234), "01234");
    assert_eq!(segment_label(65535), "65535");
}

#[test]
fn file_names_follow_the_layout() {
    assert_eq!(log_file_name("base/aB3dE", 42), "base/aB3dE/00042.log");
    assert_eq!(index_file_name("base/aB3dE", 42), "base/aB3dE/00042.index");
}

#[test]
fn log_files_are_known_by_their_suffix() {
    assert_eq!(log_file_label("00042.log"), Some("00042".to_string()));
    assert_eq!(log_file_label(".log"), Some(String::new()));
    assert_eq!(log_file_label("naïve.log"), Some("naïve".to_string()));
    assert_eq!(log_file_label("00042.index"), None);
    assert_eq!(log_file_label("00042.log.bak"), None);
    assert_eq!(log_file_label("00042.LOG"), None);
    assert_eq!(log_file_label("log"), None);
    assert_eq!(log_file_label(""), None);
}

#[test]
fn labels_parse_as_sixteen_bit_numbers() {
    assert_eq!(parse_offset_label("00000"), Some(0));
    assert_eq!(parse_offset_label("00042"), Some(42));
    assert_eq!(parse_offset_label("7"), Some(7));
    assert_eq!(parse_offset_label("+7"), Some(7));
    assert_eq!(parse_offset_label("65535"), Some(65535));
    assert_eq!(parse_offset_label("0000000065535"), Some(65535));
    assert_eq!(parse_offset_label("65536"), None);
    assert_eq!(parse_offset_label("99999999999999999999"), None);
    assert_eq!(parse_offset_label(""), None);
    assert_eq!(parse_offset_label("+"), None);
    assert_eq!(parse_offset_label("-1"), None);
    assert_eq!(parse_offset_label("12a"), None);
    assert_eq!(parse_offset_label(" 12"), None);
    assert_eq!(parse_offset_label("١٢"), None);
}

#[test]
fn every_label_reads_back() {
    for offset in [0u16, 1, 9, 10, 99, 100, 999, 1000, 9999, 10000, 54321, 65535] {
        assert_eq!(parse_offset_label(&segment_label(offset)), Some(offset));
    }
}

#[test]
fn load_segment_rejects_a_bad_label() {
    let r = Segment::load_segment("d".to_string(), "abc".to_string(), 100, b"", &[]);
    assert_eq!(r.err(), Some(SegmentError::InvalidLabel));
    let r = Segment::load_segment("d".to_string(), "70000".to_string(), 100, b"", &[]);
    assert_eq!(r.err(), Some(SegmentError::InvalidLabel));
}

#[test]
fn load_segment_rejects_a_partial_index_record() {
    let r = Segment::load_segment("d".to_string(), "00000".to_string(), 100, b"hello", &[0, 0, 0]);
    assert_eq!(r.err(), Some(SegmentError::CorruptIndex));
}

#[test]
fn load_segment_rejects_an_entry_beyond_the_log() {
    let index = Entry { start: 3, total: 3 }.to_bytes();
    let r = Segment::load_segment("d".to_string(), "00000".to_string(), 100, b"hello", &index);
    assert_eq!(r.err(), Some(SegmentError::CorruptIndex));
    let index = Entry { start: u32::MAX, total: u32::MAX }.to_bytes();
    let r = Segment::load_segment("d".to_string(), "00000".to_string(), 100, b"hello", &index);
    assert_eq!(r.err(), Some(SegmentError::CorruptIndex));
}

#[test]
fn load_segment_rejects_offsets_beyond_sixteen_bits() {
    let mut index = Entry { start: 0, total: 1 }.to_bytes();
    index.extend(Entry { start: 1, total: 1 }.to_bytes());
    let r = Segment::load_segment("d".to_string(), "65534".to_string(), 100, b"ab", &index);
    assert_eq!(r.err(), Some(SegmentError::TooManyEntries));
    let r = Segment::load_segment("d".to_string(), "65533".to_string(), 100, b"ab", &index);
    assert_eq!(r.map(|s| s.next_offset).ok(), Some(65535));
}

#[test]
fn load_segment_sets_offsets_from_label_and_index() {
    let mut index = Entry { start: 0, total: 2 }.to_bytes();
    index.extend(Entry { start: 2, total: 3 }.to_bytes());
    let segment =
        Segment::load_segment("topic".to_string(), "00010".to_string(), 64, b"abcde", &index)
            .unwrap();
    assert_eq!(segment.starting_offset, 10);
    assert_eq!(segment.next_offset, 12);
    assert_eq!(segment.position, 5);
    assert_eq!(segment.max_bytes, 64);
    assert_eq!(segment.directory, "topic");
    assert_eq!(segment.file_name, "topic/00010.log");
    assert_eq!(segment.read_at(0), Ok(b"ab".to_vec()));
    assert_eq!(segment.read_at(1), Ok(b"cde".to_vec()));
    assert_eq!(segment.read_at(2), Err(SegmentError::OffsetOutOfRange));
    assert_eq!(segment.read_at(10), Err(SegmentError::OffsetOutOfRange));
}

#[test]
fn new_segment_is_empty() {
    let segment = Segment::new("topic".to_string(), 100, 3);
    assert_eq!(segment.starting_offset, 3);
    assert_eq!(segment.next_offset, 3);
    assert_eq!(segment.position, 0);
    assert_eq!(segment.file_name, "topic/00003.log");
    assert_eq!(segment.index.file_name, "topic/00003.index");
    assert_eq!(segment.read_at(0), Err(SegmentError::OffsetOutOfRange));
    assert_eq!(segment.last_entry(), None);
}

#[test]
fn append_returns_consecutive_offsets_and_reads_back() {
    let mut segment = Segment::new("topic".to_string(), 100, 5);
    assert_eq!(segment.append(b"a"), Ok(5));
    assert_eq!(segment.append(b"bb"), Ok(6));
    assert_eq!(segment.append(b""), Ok(7));
    assert_eq!(segment.append(b"ccc"), Ok(8));
    assert_eq!(segment.next_offset, 9);
    assert_eq!(segment.position, 6);
    assert_eq!(segment.log_file, b"abbccc");
    assert_eq!(segment.read_at(0), Ok(b"a".to_vec()));
    assert_eq!(segment.read_at(1), Ok(b"bb".to_vec()));
    assert_eq!(segment.read_at(2), Ok(Vec::new()));
    assert_eq!(segment.read_at(3), Ok(b"ccc".to_vec()));
    assert_eq!(segment.read_at(4), Err(SegmentError::OffsetOutOfRange));
    assert_eq!(segment.last_entry(), Some(Entry { start: 3, total: 3 }));
}

#[test]
fn append_refuses_what_exceeds_the_budget() {
    let mut segment = Segment::new("topic".to_string(), 4, 0);
    assert_eq!(segment.append(b"abc"), Ok(0));
    assert_eq!(segment.append(b"de"), Err(SegmentError::SegmentFull));
    assert_eq!(segment.next_offset, 1);
    assert_eq!(segment.position, 3);
    assert_eq!(segment.log_file, b"abc");
    assert_eq!(segment.append(b"d"), Ok(1));
    assert_eq!(segment.append(b""), Ok(2));
    assert_eq!(segment.append(b"e"), Err(SegmentError::SegmentFull));
}

#[test]
fn append_refuses_when_offsets_run_out() {
    let mut segment = Segment::new("topic".to_string(), 100, 65534);
    assert_eq!(segment.append(b"a"), Ok(65534));
    assert_eq!(segment.append(b"b"), Err(SegmentError::OffsetsExhausted));
    assert_eq!(segment.next_offset, 65535);
}

#[test]
fn first_segment_bounds_reads_by_next_offset() {
    let mut segment = Segment::new("topic".to_string(), 100, 0);
    segment.append(b"x").unwrap();
    assert_eq!(segment.read_at(0), Ok(b"x".to_vec()));
    assert_eq!(segment.read_at(1), Err(SegmentError::OffsetOutOfRange));
    assert_eq!(segment.read_at(usize::MAX), Err(SegmentError::OffsetOutOfRange));
}
