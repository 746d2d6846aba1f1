use lucidmq::encoding::{
    u16_from_le_bytes, u16_to_le_bytes, u32_from_le_bytes, u32_to_le_bytes, u64_from_le_bytes,
    u64_to_le_bytes,
};
use lucidmq::lucidmq::LucidMQ;
use lucidmq::snapshot::{decode_snapshot, write_header};

#[test]
fn integers_are_little_endian() {
    assert_eq!(u16_to_le_bytes(0x0102), vec![2, 1]);
    assert_eq!(u16_from_le_bytes(5, 0), 5);
    assert_eq!(u16_from_le_bytes(0xff, 0xff), 65535);
    assert_eq!(u32_to_le_bytes(0x0102_0304), vec![4, 3, 2, 1]);
    assert_eq!(u32_from_le_bytes(&[9, 4, 3, 2, 1], 1), 0x0102_0304);
    assert_eq!(u64_to_le_bytes(0x0102_0304_0506_0708), vec![8, 7, 6, 5, 4, 3, 2, 1]);
    assert_eq!(u64_from_le_bytes(&[8, 7, 6, 5, 4, 3, 2, 1], 0), 0x0102_0304_0506_0708);
    assert_eq!(u64_from_le_bytes(&u64_to_le_bytes(u64::MAX), 0), u64::MAX);
    assert_eq!(u32_from_le_bytes(&u32_to_le_bytes(u32::MAX), 0), u32::MAX);
}

#[test]
fn the_snapshot_of_an_empty_broker() {
    let broker = LucidMQ::new("ab".to_string(), None, &Vec::new()).unwrap();
    let expected: Vec<u8> = vec![
        76, 77, 81, 1, // mark and version
        2, 0, 0, 0, 0, 0, 0, 0, 97, 98, // "ab"
        0, 0, 0, 0, 0, 0, 0, 0, // no topic
    ];
    assert_eq!(broker.flush(), expected);
    assert_eq!(write_header("ab", 0), expected);
}

#[test]
fn the_snapshot_of_one_topic_with_one_group() {
    let mut broker = LucidMQ::new("b".to_string(), None, &Vec::new()).unwrap();
    broker.create_topic_with_group("t".to_string(), "d".to_string(), "g".to_string());
    broker.topics[0].consumer_groups[0].store(258);
    let expected: Vec<u8> = vec![
        76, 77, 81, 1, // mark and version
        1, 0, 0, 0, 0, 0, 0, 0, 98, // "b"
        1, 0, 0, 0, 0, 0, 0, 0, // one topic
        1, 0, 0, 0, 0, 0, 0, 0, 116, // "t"
        3, 0, 0, 0, 0, 0, 0, 0, 98, 47, 100, // "b/d"
        1, 0, 0, 0, 0, 0, 0, 0, // one group
        1, 0, 0, 0, 0, 0, 0, 0, 103, // "g"
        2, 1, 0, 0, // offset 258
    ];
    assert_eq!(broker.flush(), expected);
    let decoded = decode_snapshot(&expected).unwrap();
    assert_eq!(decoded.base_directory, "b");
    assert_eq!(decoded.topics.len(), 1);
    assert_eq!(decoded.topics[0].name, "t");
    assert_eq!(decoded.topics[0].directory, "b/d");
    assert_eq!(decoded.topics[0].consumer_groups.len(), 1);
    assert_eq!(decoded.topics[0].consumer_groups[0].name, "g");
    assert_eq!(decoded.topics[0].consumer_groups[0].offset, 258);
}

fn sample() -> Vec<u8> {
    let mut broker = LucidMQ::new("b".to_string(), None, &Vec::new()).unwrap();
    broker.create_topic_with_group("t".to_string(), "d".to_string(), "g".to_string());
    broker.flush()
}

#[test]
fn decoding_rejects_a_wrong_mark_or_version() {
    let good = sample();
    assert!(decode_snapshot(&good).is_some());
    for at in 0..4 {
        let mut bad = good.clone();
        bad[at] ^= 1;
        assert!(decode_snapshot(&bad).is_none());
    }
    assert!(decode_snapshot(&[]).is_none());
    assert!(decode_snapshot(&[76, 77, 81]).is_none());
}

#[test]
fn decoding_rejects_every_truncation() {
    let good = sample();
    for len in 0..good.len() {
        assert!(decode_snapshot(&good[..len]).is_none(), "a prefix of {} bytes decoded", len);
    }
}

#[test]
fn decoding_rejects_trailing_bytes() {
    let mut bytes = sample();
    bytes.push(0);
    assert!(decode_snapshot(&bytes).is_none());
}

#[test]
fn decoding_rejects_text_that_is_not_utf8() {
    let mut bytes = sample();
    // the one byte of the base directory
    assert_eq!(bytes[12], b'b');
    bytes[12] = 0xff;
    assert!(decode_snapshot(&bytes).is_none());
    bytes[12] = 0xc3;
    assert!(decode_snapshot(&bytes).is_none());
}

#[test]
fn decoding_rejects_counts_beyond_the_data() {
    let mut bytes = sample();
    // topic count
    assert_eq!(bytes[13], 1);
    bytes[13] = 2;
    assert!(decode_snapshot(&bytes).is_none());
    let mut bytes = sample();
    bytes[20] = 0xff;
    assert!(decode_snapshot(&bytes).is_none());
    let mut bytes = sample();
    // length of the base directory
    bytes[4] = 0xff;
    bytes[11] = 0xff;
    assert!(decode_snapshot(&bytes).is_none());
}

#[test]
fn text_round_trips_beyond_ascii() {
    let mut broker = LucidMQ::new("données/日本".to_string(), None, &Vec::new()).unwrap();
    broker.create_topic_with_group("tópico".to_string(), "d".to_string(), "группа🙂".to_string());
    let decoded = decode_snapshot(&broker.flush()).unwrap();
    assert_eq!(decoded.base_directory, "données/日本");
    assert_eq!(decoded.topics[0].name, "tópico");
    assert_eq!(decoded.topics[0].directory, "données/日本/d");
    assert_eq!(decoded.topics[0].consumer_groups[0].name, "группа🙂");
}
