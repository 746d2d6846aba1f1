use lucidmq::commitlog::{CommitlogError, SegmentFiles};
use lucidmq::index::Entry;
use lucidmq::topic::{ConsumerGroup, DeserTopic, Topic};

fn is_alphanumeric(text: &str) -> bool {
    text.chars().all(|c| c.is_ascii_alphanumeric())
}

#[test]
fn a_new_group_starts_at_zero() {
    let group = ConsumerGroup::new("g1");
    assert_eq!(group.name, "g1");
    assert_eq!(group.offset, 0);
    assert_eq!(group.load(), 0);
}

#[test]
fn new_cg_takes_the_offset_given() {
    let group = ConsumerGroup::new_cg("g2", 41);
    assert_eq!(group.name, "g2");
    assert_eq!(group.load(), 41);
}

#[test]
fn compare_exchange_swaps_only_the_expected_value() {
    let mut group = ConsumerGroup::new_cg("g", 5);
    assert_eq!(group.compare_exchange(4, 9), Err(5));
    assert_eq!(group.load(), 5);
    assert_eq!(group.compare_exchange(5, 9), Ok(5));
    assert_eq!(group.load(), 9);
    assert_eq!(group.compare_exchange(5, 1), Err(9));
    assert_eq!(group.compare_exchange(9, 9), Ok(9));
    assert_eq!(group.load(), 9);
}

#[test]
fn store_overwrites_whatever_is_there() {
    let mut group = ConsumerGroup::new_cg("g", 5);
    group.store(2);
    assert_eq!(group.load(), 2);
    group.store(u32::MAX);
    assert_eq!(group.load(), u32::MAX);
    assert_eq!(group.name, "g");
}

#[test]
fn advance_claims_each_offset_once() {
    let mut group = ConsumerGroup::new_cg("g", 7);
    let mut claims = Vec::new();
    for _ in 0..5 {
        claims.push(group.advance());
    }
    assert_eq!(claims, vec![Some(7), Some(8), Some(9), Some(10), Some(11)]);
    assert_eq!(group.load(), 12);
}

#[test]
fn advance_stops_at_the_highest_offset() {
    let mut group = ConsumerGroup::new_cg("g", u32::MAX - 1);
    assert_eq!(group.advance(), Some(u32::MAX - 1));
    assert_eq!(group.advance(), None);
    assert_eq!(group.load(), u32::MAX);
}

#[test]
fn interleaved_advances_claim_consecutive_offsets() {
    // Two tasks, each reading the cursor and then swapping, in every order of
    // their four steps: a swap on a stale read fails and is tried again.
    let orders: [[usize; 4]; 6] =
        [[0, 0, 1, 1], [0, 1, 0, 1], [0, 1, 1, 0], [1, 0, 0, 1], [1, 0, 1, 0], [1, 1, 0, 0]];
    for order in orders {
        let mut group = ConsumerGroup::new_cg("g", 3);
        let mut seen: [Option<u32>; 2] = [None, None];
        let mut done = [false, false];
        let mut claims = Vec::new();
        let mut schedule: Vec<usize> = order.to_vec();
        schedule.extend([0, 0, 1, 1]);
        for task in schedule {
            if done[task] {
                continue;
            }
            match seen[task] {
                None => seen[task] = Some(group.load()),
                Some(value) => match group.compare_exchange(value, value + 1) {
                    Ok(previous) => {
                        claims.push(previous);
                        done[task] = true;
                    }
                    Err(_) => seen[task] = None,
                },
            }
        }
        assert_eq!(done, [true, true]);
        assert_eq!(claims, vec![3, 4]);
        assert_eq!(group.load(), 5);
    }
}

#[test]
fn a_new_topic_gets_a_random_directory_of_five_characters() {
    let topic = Topic::new("orders".to_string(), "base".to_string());
    assert_eq!(topic.name, "orders");
    assert!(topic.directory.starts_with("base/"));
    let suffix = &topic.directory["base/".len()..];
    assert_eq!(suffix.chars().count(), 5);
    assert!(is_alphanumeric(suffix));
    assert!(topic.consumer_groups.is_empty());
    assert_eq!(topic.commitlog.directory, topic.directory);
    assert_eq!(topic.commitlog.segments.len(), 1);
    assert_eq!(topic.commitlog.max_segment_bytes, 100);
    assert_eq!(topic.commitlog.max_retention_bytes, 1000);
}

#[test]
fn two_new_topics_get_different_directories() {
    let mut directories = Vec::new();
    for _ in 0..20 {
        directories.push(Topic::new("t".to_string(), "base".to_string()).directory);
    }
    directories.sort();
    directories.dedup();
    assert!(directories.len() > 1);
}

#[test]
fn a_topic_with_a_given_directory_name() {
    let topic =
        Topic::with_directory_name("orders".to_string(), "base".to_string(), "aB3dE".to_string());
    assert_eq!(topic.directory, "base/aB3dE");
    assert_eq!(topic.commitlog.segments[0].file_name, "base/aB3dE/00000.log");
}

#[test]
fn load_consumer_group_is_idempotent() {
    let mut topic = Topic::with_directory_name("t".to_string(), "b".to_string(), "d".to_string());
    let first = topic.load_consumer_group("g1");
    assert_eq!(first, 0);
    assert_eq!(topic.consumer_groups.len(), 1);
    topic.consumer_groups[first].store(4);
    let second = topic.load_consumer_group("g1");
    assert_eq!(second, first);
    assert_eq!(topic.consumer_groups.len(), 1);
    assert_eq!(topic.consumer_groups[second].load(), 4);
}

#[test]
fn load_consumer_group_keeps_insertion_order_and_case() {
    let mut topic = Topic::with_directory_name("t".to_string(), "b".to_string(), "d".to_string());
    assert_eq!(topic.load_consumer_group("g1"), 0);
    assert_eq!(topic.load_consumer_group("G1"), 1);
    assert_eq!(topic.load_consumer_group("g2"), 2);
    assert_eq!(topic.load_consumer_group("G1"), 1);
    assert_eq!(topic.load_consumer_group(""), 3);
    let names: Vec<&str> = topic.consumer_groups.iter().map(|g| g.name.as_str()).collect();
    assert_eq!(names, vec!["g1", "G1", "g2", ""]);
    assert_eq!(topic.find_consumer_group(&"g2".to_string()), Some(2));
    assert_eq!(topic.find_consumer_group(&"g3".to_string()), None);
}

#[test]
fn produce_then_consume_in_order() {
    let mut topic = Topic::with_directory_name("t".to_string(), "b".to_string(), "d".to_string());
    assert_eq!(topic.produce(b"a"), Ok(0));
    assert_eq!(topic.produce(b"bb"), Ok(1));
    let group = topic.load_consumer_group("g1");
    assert_eq!(topic.consume(group), Ok(b"a".to_vec()));
    assert_eq!(topic.consume(group), Ok(b"bb".to_vec()));
    assert_eq!(topic.consume(group), Err(CommitlogError::OffsetOutOfRange));
    assert_eq!(topic.consumer_groups[group].load(), 2);
    assert_eq!(topic.produce(b"ccc"), Ok(2));
    assert_eq!(topic.consume(group), Ok(b"ccc".to_vec()));
    assert_eq!(topic.consumer_groups[group].load(), 3);
}

#[test]
fn groups_read_independently() {
    let mut topic = Topic::with_directory_name("t".to_string(), "b".to_string(), "d".to_string());
    topic.produce(b"a").unwrap();
    topic.produce(b"b").unwrap();
    let g1 = topic.load_consumer_group("g1");
    let g2 = topic.load_consumer_group("g2");
    assert_eq!(topic.consume(g1), Ok(b"a".to_vec()));
    assert_eq!(topic.consume(g1), Ok(b"b".to_vec()));
    assert_eq!(topic.consume(g2), Ok(b"a".to_vec()));
    assert_eq!(topic.consumer_groups[g1].load(), 2);
    assert_eq!(topic.consumer_groups[g2].load(), 1);
}

#[test]
fn a_topic_rotates_segments_under_its_budget() {
    // The second record does not fit beside the first in a segment of 100
    // bytes: it starts a new segment at the first segment's next offset, and
    // the read at that offset is served by the new segment.
    let mut topic = Topic::with_directory_name("t".to_string(), "b".to_string(), "d".to_string());
    let first = vec![1u8; 60];
    let second = vec![2u8; 60];
    assert_eq!(topic.produce(&first), Ok(0));
    assert_eq!(topic.produce(&second), Ok(1));
    let segments = &topic.commitlog.segments;
    assert_eq!(segments.len(), 2);
    assert_eq!(segments[1].starting_offset, segments[0].next_offset);
    assert_eq!(segments[1].starting_offset, 1);
    assert_eq!(topic.commitlog.read_at(1), Ok(second));
    assert_eq!(segments[1].read_at(0), Ok(vec![2u8; 60]));
    assert_eq!(topic.commitlog.read_at(0), Ok(first));
}

#[test]
fn a_topic_from_persisted_metadata_opens_its_log() {
    let mut index = Entry { start: 0, total: 2 }.to_bytes();
    index.extend(Entry { start: 2, total: 1 }.to_bytes());
    let files =
        vec![SegmentFiles { label: "00000".to_string(), log: b"abc".to_vec(), index }];
    let tmp = DeserTopic {
        name: "orders".to_string(),
        directory: "base/aB3dE".to_string(),
        consumer_groups: vec![ConsumerGroup::new_cg("g1", 1)],
    };
    let mut topic = Topic::from(tmp, &files).unwrap();
    assert_eq!(topic.name, "orders");
    assert_eq!(topic.directory, "base/aB3dE");
    assert_eq!(topic.commitlog.directory, "base/aB3dE");
    assert_eq!(topic.commitlog.next_offset(), 2);
    let group = topic.load_consumer_group("g1");
    assert_eq!(topic.consume(group), Ok(b"c".to_vec()));
}

#[test]
fn a_topic_whose_log_does_not_open_is_an_error() {
    let files =
        vec![SegmentFiles { label: "00000".to_string(), log: Vec::new(), index: vec![0; 7] }];
    let tmp = DeserTopic {
        name: "orders".to_string(),
        directory: "base/aB3dE".to_string(),
        consumer_groups: Vec::new(),
    };
    let r = Topic::from(tmp, &files);
    assert!(r.is_err());
}

#[test]
fn new_topic_from_ref_copies_the_metadata() {
    let mut topic = Topic::with_directory_name("t".to_string(), "b".to_string(), "d".to_string());
    topic.load_consumer_group("g1");
    topic.load_consumer_group("g2");
    topic.consumer_groups[1].store(9);
    let copy = Topic::new_topic_from_ref(&topic, &Vec::new()).unwrap();
    assert_eq!(copy.name, "t");
    assert_eq!(copy.directory, "b/d");
    assert_eq!(copy.consumer_groups.len(), 2);
    assert_eq!(copy.consumer_groups[0].name, "g1");
    assert_eq!(copy.consumer_groups[0].load(), 0);
    assert_eq!(copy.consumer_groups[1].name, "g2");
    assert_eq!(copy.consumer_groups[1].load(), 9);
    assert_eq!(copy.commitlog.next_offset(), 0);
}

#[test]
fn merging_groups_follows_the_persisted_offsets_but_for_the_group_in_use() {
    let mut topic = Topic::with_directory_name("t".to_string(), "b".to_string(), "d".to_string());
    topic.load_consumer_group("g1");
    topic.load_consumer_group("g2");
    topic.consumer_groups[0].store(5);
    topic.consumer_groups[1].store(6);
    let persisted = vec![
        ConsumerGroup::new_cg("g2", 2),
        ConsumerGroup::new_cg("g3", 3),
        ConsumerGroup::new_cg("g1", 1),
    ];
    topic.merge_groups(&persisted, &"g1".to_string());
    let got: Vec<(String, u32)> =
        topic.consumer_groups.iter().map(|g| (g.name.clone(), g.load())).collect();
    assert_eq!(
        got,
        vec![("g1".to_string(), 5), ("g2".to_string(), 2), ("g3".to_string(), 3)]
    );
}
