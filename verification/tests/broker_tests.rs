use lucidmq::commitlog::{CommitlogError, SegmentFiles};
use lucidmq::index::Entry;
use lucidmq::lucidmq::{BrokerError, Consumer, LucidMQ, Producer, TopicFiles};
use lucidmq::snapshot::decode_snapshot;

fn empty_broker(directory: &str) -> LucidMQ {
    LucidMQ::new(directory.to_string(), None, &Vec::new()).unwrap()
}

fn groups_of(broker: &LucidMQ, topic: usize) -> Vec<(String, u32)> {
    broker.topics[topic].consumer_groups.iter().map(|g| (g.name.clone(), g.load())).collect()
}

#[test]
fn a_broker_without_metadata_starts_empty() {
    let broker = empty_broker("base");
    assert_eq!(broker.base_directory, "base");
    assert!(broker.topics.is_empty());
    let broker = LucidMQ::new("base".to_string(), Some(b"garbage".to_vec()), &Vec::new()).unwrap();
    assert_eq!(broker.base_directory, "base");
    assert!(broker.topics.is_empty());
}

#[test]
fn the_metadata_file_lives_in_the_base_directory() {
    assert_eq!(empty_broker("base").metadata_path(), "base/lucidmq.meta");
}

#[test]
fn orders_scenario() {
    let mut broker = empty_broker("base");
    let (producer, snapshot) = broker.new_producer("orders".to_string());
    assert!(snapshot.is_some());
    assert_eq!(producer.topic, "orders");
    assert_eq!(broker.produce(&producer, b"a"), Ok(0));
    assert_eq!(broker.produce(&producer, b"bb"), Ok(1));
    assert_eq!(broker.produce(&producer, b"ccc"), Ok(2));
    let consumer = broker.new_consumer("orders".to_string(), "g1".to_string());
    assert_eq!(consumer.topic, "orders");
    assert_eq!(consumer.consumer_group, "g1");
    assert_eq!(consumer.directory, producer.directory);
    assert_eq!(broker.consume(&consumer), Ok(b"a".to_vec()));
    assert_eq!(broker.consume(&consumer), Ok(b"bb".to_vec()));
    assert_eq!(broker.consume(&consumer), Ok(b"ccc".to_vec()));
    assert_eq!(groups_of(&broker, 0), vec![("g1".to_string(), 3)]);
    assert_eq!(
        broker.consume(&consumer),
        Err(BrokerError::Storage(CommitlogError::OffsetOutOfRange))
    );
    assert_eq!(groups_of(&broker, 0), vec![("g1".to_string(), 3)]);
}

#[test]
fn new_producer_creates_a_topic_once() {
    let mut broker = empty_broker("base");
    let (first, snapshot) = broker.new_producer("orders".to_string());
    assert_eq!(snapshot, Some(broker.flush()));
    let (second, snapshot) = broker.new_producer("orders".to_string());
    assert_eq!(snapshot, None);
    assert_eq!(first.directory, second.directory);
    assert_eq!(broker.topics.len(), 1);
    let (other, snapshot) = broker.new_producer("Orders".to_string());
    assert!(snapshot.is_some());
    assert_eq!(other.topic, "Orders");
    assert_eq!(broker.topics.len(), 2);
    assert_eq!(broker.check_topics(&"orders".to_string()), Some(0));
    assert_eq!(broker.check_topics(&"Orders".to_string()), Some(1));
    assert_eq!(broker.check_topics(&"none".to_string()), None);
}

#[test]
fn created_topics_live_under_the_base_directory() {
    let mut broker = empty_broker("base");
    let (producer, _) = broker.create_topic("orders".to_string(), "aB3dE".to_string());
    assert_eq!(producer.directory, "base/aB3dE");
    assert_eq!(broker.topics[0].directory, "base/aB3dE");
    let (producer, _) = broker.new_producer("payments".to_string());
    assert!(producer.directory.starts_with("base/"));
    assert_eq!(producer.directory.len(), "base/".len() + 5);
}

#[test]
fn new_consumer_finds_or_creates_topic_and_group() {
    let mut broker = empty_broker("base");
    let consumer = broker.new_consumer("orders".to_string(), "g1".to_string());
    assert_eq!(broker.topics.len(), 1);
    assert_eq!(consumer.directory, broker.topics[0].directory);
    assert_eq!(groups_of(&broker, 0), vec![("g1".to_string(), 0)]);
    broker.new_consumer("orders".to_string(), "g1".to_string());
    broker.new_consumer("orders".to_string(), "g2".to_string());
    assert_eq!(broker.topics.len(), 1);
    assert_eq!(groups_of(&broker, 0), vec![("g1".to_string(), 0), ("g2".to_string(), 0)]);
    let consumer = broker.create_topic_with_group(
        "payments".to_string(),
        "zzzzz".to_string(),
        "g9".to_string(),
    );
    assert_eq!(consumer.directory, "base/zzzzz");
    assert_eq!(groups_of(&broker, 1), vec![("g9".to_string(), 0)]);
}

#[test]
fn unknown_topics_and_groups_are_errors() {
    let mut broker = empty_broker("base");
    let producer = Producer { directory: "x".to_string(), topic: "none".to_string() };
    assert_eq!(broker.produce(&producer, b"a"), Err(BrokerError::UnknownTopic));
    let consumer = Consumer {
        directory: "x".to_string(),
        topic: "none".to_string(),
        consumer_group: "g".to_string(),
    };
    assert_eq!(broker.consume(&consumer), Err(BrokerError::UnknownTopic));
    broker.create_topic("orders".to_string(), "aaaaa".to_string());
    let consumer = Consumer {
        directory: "base/aaaaa".to_string(),
        topic: "orders".to_string(),
        consumer_group: "g".to_string(),
    };
    assert_eq!(broker.consume(&consumer), Err(BrokerError::UnknownGroup));
}

#[test]
fn a_record_too_large_for_a_segment_is_a_storage_error() {
    let mut broker = empty_broker("base");
    let (producer, _) = broker.new_producer("orders".to_string());
    assert_eq!(
        broker.produce(&producer, &vec![0u8; 101]),
        Err(BrokerError::Storage(CommitlogError::RecordTooLarge))
    );
    assert_eq!(broker.produce(&producer, &vec![0u8; 100]), Ok(0));
}

#[test]
fn flush_then_open_reproduces_the_registry() {
    let mut broker = empty_broker("base");
    broker.create_topic("orders".to_string(), "aaaaa".to_string());
    broker.create_topic_with_group("payments".to_string(), "bbbbb".to_string(), "g1".to_string());
    broker.new_consumer("orders".to_string(), "g1".to_string());
    broker.new_consumer("orders".to_string(), "größe".to_string());
    broker.topics[0].consumer_groups[1].store(77);
    broker.topics[1].consumer_groups[0].store(u32::MAX);
    let bytes = broker.flush();

    let reopened = LucidMQ::new("elsewhere".to_string(), Some(bytes.clone()), &Vec::new()).unwrap();
    assert_eq!(reopened.base_directory, "base");
    assert_eq!(reopened.topics.len(), 2);
    assert_eq!(reopened.topics[0].name, "orders");
    assert_eq!(reopened.topics[0].directory, "base/aaaaa");
    assert_eq!(reopened.topics[1].name, "payments");
    assert_eq!(reopened.topics[1].directory, "base/bbbbb");
    assert_eq!(groups_of(&reopened, 0), vec![("g1".to_string(), 0), ("größe".to_string(), 77)]);
    assert_eq!(groups_of(&reopened, 1), vec![("g1".to_string(), u32::MAX)]);
    assert_eq!(reopened.flush(), bytes);
}

#[test]
fn open_rebuilds_the_commit_logs_from_the_directories() {
    let mut broker = empty_broker("base");
    broker.create_topic("orders".to_string(), "aaaaa".to_string());
    broker.create_topic("payments".to_string(), "bbbbb".to_string());
    let bytes = broker.flush();
    let mut index = Entry { start: 0, total: 1 }.to_bytes();
    index.extend(Entry { start: 1, total: 2 }.to_bytes());
    let disk = vec![TopicFiles {
        directory: "base/bbbbb".to_string(),
        segments: vec![SegmentFiles { label: "00000".to_string(), log: b"abb".to_vec(), index }],
    }];
    let mut reopened = LucidMQ::new("base".to_string(), Some(bytes), &disk).unwrap();
    assert_eq!(reopened.topics[0].commitlog.next_offset(), 0);
    assert_eq!(reopened.topics[1].commitlog.next_offset(), 2);
    let consumer = reopened.new_consumer("payments".to_string(), "g".to_string());
    assert_eq!(reopened.consume(&consumer), Ok(b"a".to_vec()));
    assert_eq!(reopened.consume(&consumer), Ok(b"bb".to_vec()));
}

#[test]
fn open_fails_where_a_commit_log_does_not_open() {
    let mut broker = empty_broker("base");
    broker.create_topic("orders".to_string(), "aaaaa".to_string());
    let bytes = broker.flush();
    let disk = vec![TopicFiles {
        directory: "base/aaaaa".to_string(),
        segments: vec![SegmentFiles {
            label: "00000".to_string(),
            log: Vec::new(),
            index: vec![1, 2, 3],
        }],
    }];
    let r = LucidMQ::new("base".to_string(), Some(bytes), &disk);
    assert_eq!(
        r.err(),
        Some(BrokerError::Storage(CommitlogError::Segment(
            lucidmq::segment::SegmentError::CorruptIndex
        )))
    );
}

fn persisted_by_another_process() -> Vec<u8> {
    let mut other = empty_broker("base");
    other.create_topic_with_group("orders".to_string(), "aaaaa".to_string(), "g1".to_string());
    other.new_consumer("orders".to_string(), "g2".to_string());
    other.new_consumer("orders".to_string(), "g3".to_string());
    other.create_topic_with_group("audit".to_string(), "ccccc".to_string(), "g1".to_string());
    other.topics[0].consumer_groups[0].store(10);
    other.topics[0].consumer_groups[1].store(20);
    other.topics[0].consumer_groups[2].store(30);
    other.topics[1].consumer_groups[0].store(40);
    other.flush()
}

#[test]
fn sync_never_overwrites_the_group_in_use() {
    let mut broker = empty_broker("base");
    broker.create_topic_with_group("orders".to_string(), "aaaaa".to_string(), "g1".to_string());
    broker.new_consumer("orders".to_string(), "g2".to_string());
    broker.topics[0].consumer_groups[0].store(3);
    broker.topics[0].consumer_groups[1].store(4);
    let persisted = persisted_by_another_process();
    let written = broker.sync("g1".to_string(), &persisted, &Vec::new()).unwrap();
    assert_eq!(
        groups_of(&broker, 0),
        vec![("g1".to_string(), 3), ("g2".to_string(), 20), ("g3".to_string(), 30)]
    );
    assert_eq!(broker.topics.len(), 2);
    assert_eq!(broker.topics[1].name, "audit");
    assert_eq!(broker.topics[1].directory, "base/ccccc");
    assert_eq!(groups_of(&broker, 1), vec![("g1".to_string(), 40)]);
    assert_eq!(written, broker.flush());
}

#[test]
fn sync_overwrites_even_with_a_lower_offset() {
    let mut broker = empty_broker("base");
    broker.create_topic_with_group("orders".to_string(), "aaaaa".to_string(), "g1".to_string());
    broker.topics[0].consumer_groups[0].store(99);
    let persisted = persisted_by_another_process();
    broker.sync("nobody".to_string(), &persisted, &Vec::new()).unwrap();
    assert_eq!(groups_of(&broker, 0)[0], ("g1".to_string(), 10));
}

#[test]
fn sync_keeps_what_only_memory_has() {
    let mut broker = empty_broker("base");
    broker.create_topic_with_group("local".to_string(), "lllll".to_string(), "g1".to_string());
    broker.topics[0].consumer_groups[0].store(8);
    broker.topics[0].produce(b"kept").unwrap();
    let persisted = persisted_by_another_process();
    let written = broker.sync("g1".to_string(), &persisted, &Vec::new()).unwrap();
    let names: Vec<&str> = broker.topics.iter().map(|t| t.name.as_str()).collect();
    assert_eq!(names, vec!["local", "orders", "audit"]);
    assert_eq!(groups_of(&broker, 0), vec![("g1".to_string(), 8)]);
    assert_eq!(broker.topics[0].commitlog.read_at(0), Ok(b"kept".to_vec()));
    let decoded = decode_snapshot(&written).unwrap();
    assert_eq!(decoded.topics.len(), 3);
    assert_eq!(decoded.topics[0].name, "local");
}

#[test]
fn sync_opens_the_logs_of_adopted_topics() {
    let mut broker = empty_broker("base");
    let persisted = persisted_by_another_process();
    let disk = vec![TopicFiles {
        directory: "base/ccccc".to_string(),
        segments: vec![SegmentFiles {
            label: "00000".to_string(),
            log: b"xy".to_vec(),
            index: Entry { start: 0, total: 2 }.to_bytes(),
        }],
    }];
    broker.sync("g1".to_string(), &persisted, &disk).unwrap();
    assert_eq!(broker.topics[0].commitlog.next_offset(), 0);
    assert_eq!(broker.topics[1].commitlog.read_at(0), Ok(b"xy".to_vec()));
}

#[test]
fn sync_rejects_what_is_no_snapshot() {
    let mut broker = empty_broker("base");
    broker.create_topic_with_group("orders".to_string(), "aaaaa".to_string(), "g1".to_string());
    let before = broker.flush();
    assert_eq!(
        broker.sync("g1".to_string(), b"not a snapshot", &Vec::new()),
        Err(BrokerError::CorruptMetadata)
    );
    assert_eq!(broker.sync("g1".to_string(), b"", &Vec::new()), Err(BrokerError::CorruptMetadata));
    assert_eq!(broker.flush(), before);
}

#[test]
fn sync_stops_at_a_topic_whose_log_does_not_open() {
    let mut broker = empty_broker("base");
    let persisted = persisted_by_another_process();
    let disk = vec![TopicFiles {
        directory: "base/ccccc".to_string(),
        segments: vec![SegmentFiles {
            label: "bad".to_string(),
            log: Vec::new(),
            index: Vec::new(),
        }],
    }];
    assert_eq!(
        broker.sync("g1".to_string(), &persisted, &disk),
        Err(BrokerError::Storage(CommitlogError::Segment(
            lucidmq::segment::SegmentError::InvalidLabel
        )))
    );
    assert_eq!(broker.topics.len(), 1);
    assert_eq!(broker.topics[0].name, "orders");
}
