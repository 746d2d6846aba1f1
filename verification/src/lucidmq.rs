//! The broker: the registry of topics, its snapshot on disk, and the
//! reconciliation of the registry in memory with the snapshot that another
//! process sharing the directory may have written.

use vstd::prelude::*;
use vstd::string::StringExecFns;
use crate::commitlog::{
    append_refusal, first_offset, next_offset, open_error, opened, record_at, retained, written,
    CommitlogError, SegmentFiles,
};
use crate::segment::SegmentView;
use crate::random::{is_identifier, random_alphanumeric};
use crate::snapshot::{
    decode_snapshot, encode_snapshot, encode_topics, parse_snapshot, registry_fits, topic_fits,
    write_header, write_topic, RegistryView,
};
use crate::topic::{
    find_group, group_views, keeps_groups, lemma_merge_groups_keeps_in_use, merge_groups,
    topic_directory, with_group, ConsumerGroup, DeserTopic, GroupView, Topic, TopicView,
    DIRECTORY_NAME_LENGTH, MAX_RETENTION_BYTES, MAX_SEGMENT_BYTES,
};

verus! {

/// Why a broker operation failed.
#[derive(Clone, Copy, Debug, PartialEq, Eq)]
pub enum BrokerError {
    /// The metadata file does not hold a snapshot.
    CorruptMetadata,
    /// The commit log of a topic failed.
    Storage(CommitlogError),
    /// The broker has no topic of that name.
    UnknownTopic,
    /// The topic has no consumer group of that name.
    UnknownGroup,
}

/// The path of the metadata file of a broker in `base_directory`.
pub open spec fn metadata_file_name(base_directory: Seq<char>) -> Seq<char> {
    base_directory + "/lucidmq.meta"@
}

/// The path of the metadata file of a broker in `base_directory`.
pub fn metadata_file_path(base_directory: &str) -> (path: String)
    ensures
        path@ == metadata_file_name(base_directory@),
{
    let mut path = String::from_str(base_directory);
    path.append("/lucidmq.meta");
    path
}

/// The segment files found in the directory of one topic.
pub struct TopicFiles {
    pub directory: String,
    pub segments: Vec<SegmentFiles>,
}

/// A handle for appending to one topic.
#[derive(Debug)]
pub struct Producer {
    pub directory: String,
    pub topic: String,
}

/// A handle for reading one topic on behalf of one consumer group.
#[derive(Debug)]
pub struct Consumer {
    pub directory: String,
    pub topic: String,
    pub consumer_group: String,
}

/// The values of a run of topics.
pub open spec fn topic_views(topics: Seq<Topic>) -> Seq<TopicView> {
    Seq::new(topics.len(), |i: int| topics[i]@)
}

/// The position of the first topic named `name`, if there is one.
pub open spec fn find_topic(topics: Seq<TopicView>, name: Seq<char>) -> Option<int>
    decreases topics.len(),
{
    if topics.len() == 0 {
        None
    } else {
        match find_topic(topics.drop_last(), name) {
            Some(i) => Some(i),
            None => if topics.last().name == name {
                Some(topics.len() - 1)
            } else {
                None
            },
        }
    }
}

/// What `find_topic` finds: a position within the topics, whose topic has the
/// name and before which no topic has it; and nothing only where no topic has
/// the name.
pub proof fn lemma_find_topic(topics: Seq<TopicView>, name: Seq<char>)
    ensures
        match find_topic(topics, name) {
            Some(i) => {
                &&& 0 <= i < topics.len()
                &&& topics[i].name == name
                &&& forall|j: int| 0 <= j < i ==> (#[trigger] topics[j]).name != name
            },
            None => forall|j: int| 0 <= j < topics.len() ==> (#[trigger] topics[j]).name != name,
        },
    decreases topics.len(),
{
    if topics.len() > 0 {
        let front = topics.drop_last();
        lemma_find_topic(front, name);
        match find_topic(front, name) {
            Some(i) => {
                assert(topics[i] == front[i]);
                assert forall|j: int| 0 <= j < i implies (#[trigger] topics[j]).name != name by {
                    assert(topics[j] == front[j]);
                }
            },
            None => {
                assert forall|j: int| 0 <= j < front.len() implies (#[trigger] topics[j]).name
                    != name by {
                    assert(topics[j] == front[j]);
                }
            },
        }
    }
}

/// A topic found among the first `k` topics is the topic found among all.
pub proof fn lemma_find_topic_prefix(topics: Seq<TopicView>, name: Seq<char>, k: int)
    requires
        0 <= k <= topics.len(),
        find_topic(topics.take(k), name) is Some,
    ensures
        find_topic(topics, name) == find_topic(topics.take(k), name),
    decreases topics.len() - k,
{
    if k == topics.len() {
        assert(topics.take(k) =~= topics);
    } else {
        assert(topics.take(k + 1).drop_last() =~= topics.take(k));
        lemma_find_topic_prefix(topics, name, k + 1);
    }
}

/// The position of the first entry of `disk` for `directory`, if there is one.
pub open spec fn find_files(disk: Seq<TopicFiles>, directory: Seq<char>) -> Option<int>
    decreases disk.len(),
{
    if disk.len() == 0 {
        None
    } else {
        match find_files(disk.drop_last(), directory) {
            Some(i) => Some(i),
            None => if disk.last().directory@ == directory {
                Some(disk.len() - 1)
            } else {
                None
            },
        }
    }
}

/// An entry found among the first `k` entries is the entry found among all.
pub proof fn lemma_find_files_prefix(disk: Seq<TopicFiles>, directory: Seq<char>, k: int)
    requires
        0 <= k <= disk.len(),
        find_files(disk.take(k), directory) is Some,
    ensures
        find_files(disk, directory) == find_files(disk.take(k), directory),
        0 <= find_files(disk, directory)->Some_0 < k,
    decreases disk.len() - k,
{
    if k == disk.len() {
        assert(disk.take(k) =~= disk);
        lemma_find_files_bound(disk, directory);
    } else {
        assert(disk.take(k + 1).drop_last() =~= disk.take(k));
        lemma_find_files_prefix(disk, directory, k + 1);
        lemma_find_files_bound(disk.take(k), directory);
    }
}

/// An entry that is found lies within the entries.
pub proof fn lemma_find_files_bound(disk: Seq<TopicFiles>, directory: Seq<char>)
    ensures
        find_files(disk, directory) is Some ==> 0 <= find_files(disk, directory)->Some_0
            < disk.len(),
    decreases disk.len(),
{
    if disk.len() > 0 {
        lemma_find_files_bound(disk.drop_last(), directory);
    }
}

/// The segment files that `disk` holds for `directory`: those of its first
/// entry for that directory, and none where it has no such entry.
pub open spec fn files_of(disk: Seq<TopicFiles>, directory: Seq<char>) -> Seq<SegmentFiles> {
    match find_files(disk, directory) {
        Some(i) => disk[i].segments@,
        None => Seq::empty(),
    }
}

/// The error of the first topic whose commit log does not open on the files
/// that `disk` holds for it, if there is one.
pub open spec fn first_open_error(topics: Seq<TopicView>, disk: Seq<TopicFiles>) -> Option<
    CommitlogError,
>
    decreases topics.len(),
{
    if topics.len() == 0 {
        None
    } else {
        match first_open_error(topics.drop_last(), disk) {
            Some(e) => Some(e),
            None => open_error(files_of(disk, topics.last().directory)),
        }
    }
}

/// Whether `after` has the commit log of every topic of `before`, at the
/// topic's place.
pub open spec fn logs_kept(before: Seq<Topic>, after: Seq<Topic>) -> bool {
    &&& before.len() <= after.len()
    &&& forall|i: int|
        0 <= i < before.len() ==> (#[trigger] after[i]).commitlog == before[i].commitlog
}

/// Whether the commit log of each topic from position `from` on is the one
/// that opens on the files that `disk` holds for the topic's directory.
pub open spec fn logs_opened(topics: Seq<Topic>, from: int, disk: Seq<TopicFiles>) -> bool {
    forall|i: int|
        from <= i < topics.len() ==> (#[trigger] topics[i]).commitlog@ == opened(
            files_of(disk, topics[i].directory@),
        )
}

/// The topics of a registry in the course of a merge, and the error that
/// stopped the merge, if one did.
pub struct Merge {
    pub topics: Seq<TopicView>,
    pub error: Option<CommitlogError>,
}

/// The topics in memory after one persisted topic has been merged in. A topic
/// that memory does not have is adopted with its groups, once its commit log
/// has opened on the files that `disk` holds for it; where it does not open,
/// memory stays and the error is reported. For a topic that memory has, the
/// persisted groups are merged into its groups.
pub open spec fn merge_topic(
    memory: Seq<TopicView>,
    persisted: TopicView,
    in_use: Seq<char>,
    disk: Seq<TopicFiles>,
) -> Merge {
    match find_topic(memory, persisted.name) {
        None => match open_error(files_of(disk, persisted.directory)) {
            Some(e) => Merge { topics: memory, error: Some(e) },
            None => Merge { topics: memory.push(persisted), error: None },
        },
        Some(i) => Merge {
            topics: memory.update(
                i,
                TopicView {
                    name: memory[i].name,
                    directory: memory[i].directory,
                    groups: merge_groups(memory[i].groups, persisted.groups, in_use),
                },
            ),
            error: None,
        },
    }
}

/// The topics in memory after the persisted topics have been merged in, one
/// after the other, up to the first whose commit log does not open.
pub open spec fn merge_topics(
    memory: Seq<TopicView>,
    persisted: Seq<TopicView>,
    in_use: Seq<char>,
    disk: Seq<TopicFiles>,
) -> Merge
    decreases persisted.len(),
{
    if persisted.len() == 0 {
        Merge { topics: memory, error: None }
    } else {
        let before = merge_topics(memory, persisted.drop_last(), in_use, disk);
        if before.error is Some {
            before
        } else {
            merge_topic(before.topics, persisted.last(), in_use, disk)
        }
    }
}

/// Whether `after` has every topic of `before` at its place, under its name
/// and in its directory, with every one of its groups at its place and under
/// its name, and the groups named `in_use` with their offsets.
pub open spec fn keeps_topics(before: Seq<TopicView>, after: Seq<TopicView>, in_use: Seq<char>)
    -> bool {
    &&& before.len() <= after.len()
    &&& forall|i: int|
        0 <= i < before.len() ==> {
            &&& (#[trigger] after[i]).name == before[i].name
            &&& after[i].directory == before[i].directory
            &&& keeps_groups(before[i].groups, after[i].groups, in_use)
        }
}

/// Reconciling the registry with a snapshot never overwrites the offset of
/// the group in use, whatever the snapshot says of it: every topic of memory
/// stays at its place, with every group at its place, and each group named
/// `in_use` keeps its offset.
pub proof fn lemma_sync_keeps_group_in_use(
    memory: Seq<TopicView>,
    persisted: Seq<TopicView>,
    in_use: Seq<char>,
    disk: Seq<TopicFiles>,
)
    ensures
        keeps_topics(memory, merge_topics(memory, persisted, in_use, disk).topics, in_use),
    decreases persisted.len(),
{
    if persisted.len() > 0 {
        let before = merge_topics(memory, persisted.drop_last(), in_use, disk);
        lemma_sync_keeps_group_in_use(memory, persisted.drop_last(), in_use, disk);
        if before.error is None {
            let last = persisted.last();
            let after = merge_topic(before.topics, last, in_use, disk).topics;
            lemma_find_topic(before.topics, last.name);
            assert forall|i: int| 0 <= i < memory.len() implies {
                &&& (#[trigger] after[i]).name == memory[i].name
                &&& after[i].directory == memory[i].directory
                &&& keeps_groups(memory[i].groups, after[i].groups, in_use)
            } by {
                assert(before.topics[i].name == memory[i].name);
                assert(keeps_groups(memory[i].groups, before.topics[i].groups, in_use));
                if find_topic(before.topics, last.name) == Some(i) {
                    lemma_merge_groups_keeps_in_use(before.topics[i].groups, last.groups, in_use);
                    let merged = merge_groups(before.topics[i].groups, last.groups, in_use);
                    assert(after[i].groups == merged);
                    assert forall|j: int| 0 <= j < memory[i].groups.len() implies (
                    #[trigger] merged[j]).name == memory[i].groups[j].name && (
                    memory[i].groups[j].name == in_use ==> merged[j].offset
                        == memory[i].groups[j].offset) by {
                        assert(before.topics[i].groups[j].name == memory[i].groups[j].name);
                    }
                } else {
                    assert(after[i] == before.topics[i]);
                }
            }
        }
    }
}

/// The registry of topics with the directory under which their directories
/// and the metadata file live.
pub struct LucidMQ {
    pub base_directory: String,
    pub topics: Vec<Topic>,
}

impl View for LucidMQ {
    type V = RegistryView;

    open spec fn view(&self) -> RegistryView {
        RegistryView { base_directory: self.base_directory@, topics: topic_views(self.topics@) }
    }
}

/// Copies a run of consumer groups.
fn copy_groups(groups: &Vec<ConsumerGroup>) -> (copy: Vec<ConsumerGroup>)
    ensures
        group_views(copy@) == group_views(groups@),
{
    let mut copy: Vec<ConsumerGroup> = Vec::new();
    let count: usize = groups.len();
    let mut at: usize = 0;
    while at < count
        invariant
            at <= count,
            count == groups@.len(),
            group_views(copy@) == group_views(groups@).take(at as int),
        decreases count - at,
    {
        let cg = &groups[at];
        let ghost before = group_views(copy@);
        copy.push(ConsumerGroup { name: cg.name.clone(), offset: cg.offset });
        assert(group_views(copy@) =~= before.push(cg@));
        assert(group_views(groups@).take(at + 1) =~= group_views(groups@).take(at as int).push(
            cg@,
        ));
        at = at + 1;
    }
    assert(group_views(groups@).take(at as int) =~= group_views(groups@));
    copy
}

/// The position in `disk` of the files of `directory`, if it has any.
fn locate_files(disk: &Vec<TopicFiles>, directory: &String) -> (position: Option<usize>)
    ensures
        match position {
            Some(i) => find_files(disk@, directory@) == Some(i as int) && i < disk@.len(),
            None => find_files(disk@, directory@) is None,
        },
{
    let count: usize = disk.len();
    let mut at: usize = 0;
    while at < count
        invariant
            at <= count,
            count == disk@.len(),
            find_files(disk@.take(at as int), directory@) is None,
        decreases count - at,
    {
        proof {
            assert(disk@.take(at + 1).drop_last() =~= disk@.take(at as int));
            assert(disk@.take(at + 1).last() == disk@[at as int]);
        }
        if disk[at].directory == *directory {
            proof {
                lemma_find_files_prefix(disk@, directory@, at + 1);
            }
            return Some(at);
        }
        at = at + 1;
    }
    assert(disk@.take(at as int) =~= disk@);
    None
}

/// Opens the topic that persisted metadata describes on the files that `disk`
/// holds for its directory.
fn open_topic(persisted: &DeserTopic, disk: &Vec<TopicFiles>) -> (r: Result<Topic, CommitlogError>)
    ensures
        match r {
            Ok(topic) => {
                &&& open_error(files_of(disk@, persisted.directory@)) is None
                &&& topic.wf()
                &&& topic@ == persisted@
                &&& topic.commitlog@ == opened(files_of(disk@, persisted.directory@))
            },
            Err(e) => open_error(files_of(disk@, persisted.directory@)) == Some(e),
        },
{
    let copy = DeserTopic {
        name: persisted.name.clone(),
        directory: persisted.directory.clone(),
        consumer_groups: copy_groups(&persisted.consumer_groups),
    };
    match locate_files(disk, &persisted.directory) {
        Some(i) => Topic::from(copy, &disk[i].segments),
        None => {
            let none: Vec<SegmentFiles> = Vec::new();
            assert(none@ =~= Seq::<SegmentFiles>::empty());
            Topic::from(copy, &none)
        },
    }
}

impl LucidMQ {
    /// The invariant of a broker: every topic is well formed.
    pub open spec fn wf(&self) -> bool {
        forall|i: int| 0 <= i < self.topics@.len() ==> (#[trigger] self.topics@[i]).wf()
    }

    /// The broker of `directory`. `persisted` is the content of the metadata
    /// file, or `None` where the file could not be read; `disk` holds the
    /// segment files of the topic directories. Where `persisted` holds a
    /// snapshot, the broker has its base directory and its topics, each with
    /// its commit log opened on its files, and a commit log that does not
    /// open is an error. Else the broker starts empty in `directory`.
    pub fn new(directory: String, persisted: Option<Vec<u8>>, disk: &Vec<TopicFiles>) -> (r:
        Result<LucidMQ, BrokerError>)
        ensures
            ({
                let decoded = match persisted {
                    Some(bytes) => parse_snapshot(bytes@),
                    None => None,
                };
                match decoded {
                    None => {
                        &&& r is Ok
                        &&& r->Ok_0.wf()
                        &&& r->Ok_0.base_directory == directory
                        &&& r->Ok_0.topics@.len() == 0
                    },
                    Some(found) => match r {
                        Ok(broker) => {
                            &&& first_open_error(found.topics, disk@) is None
                            &&& broker.wf()
                            &&& broker@ == found
                            &&& logs_opened(broker.topics@, 0, disk@)
                        },
                        Err(e) => {
                            &&& first_open_error(found.topics, disk@) is Some
                            &&& e == BrokerError::Storage(
                                first_open_error(found.topics, disk@)->Some_0,
                            )
                        },
                    },
                }
            }),
    {
        let snapshot = match persisted {
            Some(bytes) => decode_snapshot(bytes.as_slice()),
            None => None,
        };
        let snapshot = match snapshot {
            Some(found) => found,
            None => {
                return Ok(LucidMQ { base_directory: directory, topics: Vec::new() });
            },
        };
        let ghost all = snapshot@.topics;
        let mut topics: Vec<Topic> = Vec::new();
        let count: usize = snapshot.topics.len();
        let mut at: usize = 0;
        assert(topic_views(topics@) =~= all.take(0));
        while at < count
            invariant
                at <= count,
                count == snapshot.topics@.len(),
                all == snapshot@.topics,
                (match persisted {
                    Some(bytes) => parse_snapshot(bytes@),
                    None => None,
                }) == Some(snapshot@),
                topics@.len() == at,
                first_open_error(all.take(at as int), disk@) is None,
                topic_views(topics@) == all.take(at as int),
                forall|i: int| 0 <= i < topics@.len() ==> (#[trigger] topics@[i]).wf(),
                logs_opened(topics@, 0, disk@),
            decreases count - at,
        {
            proof {
                assert(all.take(at + 1).drop_last() =~= all.take(at as int));
                assert(all.take(at + 1).last() == snapshot.topics@[at as int]@);
            }
            let ghost before = topic_views(topics@);
            let ghost opened_before = topics@;
            match open_topic(&snapshot.topics[at], disk) {
                Ok(topic) => {
                    topics.push(topic);
                    assert forall|i: int| 0 <= i < topics@.len() implies (
                    #[trigger] topics@[i]).commitlog@ == opened(
                        files_of(disk@, topics@[i].directory@),
                    ) by {
                        if i < opened_before.len() {
                            assert(topics@[i] == opened_before[i]);
                        }
                    }
                    assert(all[at as int].directory == snapshot.topics@[at as int].directory@);
                    assert(first_open_error(all.take(at + 1), disk@) is None);
                    assert(topic_views(topics@) =~= before.push(topic@));
                    assert(all.take(at + 1) =~= all.take(at as int).push(all[at as int]));
                },
                Err(e) => {
                    proof {
                        assert(all[at as int].directory == snapshot.topics@[at as int].directory@);
                        assert(first_open_error(all.take(at + 1), disk@) == Some(e));
                        Self::lemma_first_open_error_prefix(all, disk@, at + 1);
                    }
                    return Err(BrokerError::Storage(e));
                },
            }
            at = at + 1;
        }
        assert(all.take(at as int) =~= all);
        let broker = LucidMQ { base_directory: snapshot.base_directory, topics };
        assert(broker@.topics == all);
        Ok(broker)
    }

    /// A failure among the first `k` topics is the failure of the whole run.
    proof fn lemma_first_open_error_prefix(topics: Seq<TopicView>, disk: Seq<TopicFiles>, k: int)
        requires
            0 <= k <= topics.len(),
            first_open_error(topics.take(k), disk) is Some,
        ensures
            first_open_error(topics, disk) == first_open_error(topics.take(k), disk),
        decreases topics.len() - k,
    {
        if k == topics.len() {
            assert(topics.take(k) =~= topics);
        } else {
            assert(topics.take(k + 1).drop_last() =~= topics.take(k));
            Self::lemma_first_open_error_prefix(topics, disk, k + 1);
        }
    }

    /// The path of the file that holds the snapshot of the registry.
    pub fn metadata_path(&self) -> (path: String)
        ensures
            path@ == metadata_file_name(self.base_directory@),
    {
        metadata_file_path(self.base_directory.as_str())
    }

    /// The position of the topic named `topic_to_find`, if the broker has
    /// one.
    pub fn check_topics(&self, topic_to_find: &String) -> (position: Option<usize>)
        ensures
            match position {
                Some(i) => find_topic(self@.topics, topic_to_find@) == Some(i as int) && i
                    < self.topics@.len(),
                None => find_topic(self@.topics, topic_to_find@) is None,
            },
    {
        let ghost all = self@.topics;
        let count: usize = self.topics.len();
        let mut at: usize = 0;
        while at < count
            invariant
                at <= count,
                count == self.topics@.len(),
                all == self@.topics,
                find_topic(all.take(at as int), topic_to_find@) is None,
            decreases count - at,
        {
            proof {
                assert(all.take(at + 1).drop_last() =~= all.take(at as int));
                assert(all.take(at + 1).last() == self.topics@[at as int]@);
            }
            if self.topics[at].name == *topic_to_find {
                proof {
                    lemma_find_topic_prefix(all, topic_to_find@, at + 1);
                }
                return Some(at);
            }
            at = at + 1;
        }
        assert(all.take(at as int) =~= all);
        None
    }

    /// The snapshot of the registry, to be written to the metadata file in
    /// place of what it held.
    pub fn flush(&self) -> (bytes: Vec<u8>)
        ensures
            bytes@ == encode_snapshot(self@),
            registry_fits(self@),
    {
        let ghost all = self@.topics;
        let count: usize = self.topics.len();
        let mut out = write_header(self.base_directory.as_str(), count);
        let ghost header = out@;
        let mut at: usize = 0;
        assert(all.skip(0) =~= all);
        while at < count
            invariant
                at <= count,
                count == self.topics@.len(),
                all == self@.topics,
                out@ + encode_topics(all.skip(at as int)) == header + encode_topics(all),
                forall|i: int| 0 <= i < at ==> topic_fits(#[trigger] all[i]),
            decreases count - at,
        {
            let topic = &self.topics[at];
            let ghost before = out@;
            let ghost tail = all.skip(at as int);
            assert(tail[0] == topic@);
            assert(tail.skip(1) =~= all.skip(at + 1));
            write_topic(
                &mut out,
                topic.name.as_str(),
                topic.directory.as_str(),
                &topic.consumer_groups,
            );
            assert(out@ + encode_topics(all.skip(at + 1)) =~= before + encode_topics(tail));
            at = at + 1;
        }
        assert(encode_topics(all.skip(at as int)) =~= Seq::<u8>::empty());
        assert(out@ =~= header + encode_topics(all));
        out
    }

    /// A producer for the topic named `topic`. Where the broker has no such
    /// topic, one is created in a new directory with a random name and the
    /// snapshot to persist is returned with the producer.
    pub fn new_producer(&mut self, topic: String) -> (r: (Producer, Option<Vec<u8>>))
        requires
            old(self).wf(),
        ensures
            final(self).wf(),
            final(self).base_directory == old(self).base_directory,
            logs_kept(old(self).topics@, final(self).topics@),
            r.0.topic@ == topic@,
            match find_topic(old(self)@.topics, topic@) {
                Some(i) => {
                    &&& final(self).topics == old(self).topics
                    &&& r.0.directory@ == old(self)@.topics[i].directory
                    &&& r.1 is None
                },
                None => {
                    &&& exists|directory_name: Seq<char>|
                        is_identifier(directory_name, DIRECTORY_NAME_LENGTH as int)
                            && final(self)@.topics == old(self)@.topics.push(
                            TopicView {
                                name: topic@,
                                directory: topic_directory(
                                    old(self).base_directory@,
                                    directory_name,
                                ),
                                groups: Seq::empty(),
                            },
                        )
                    &&& r.0.directory@ == final(self)@.topics.last().directory
                    &&& final(self).topics@.last().commitlog@ == seq![SegmentView::fresh(0)]
                    &&& r.1 is Some
                    &&& r.1->Some_0@ == encode_snapshot(final(self)@)
                },
            },
    {
        proof {
            lemma_find_topic(self@.topics, topic@);
        }
        match self.check_topics(&topic) {
            Some(position) => {
                let found_topic = &self.topics[position];
                let producer = Producer {
                    directory: found_topic.directory.clone(),
                    topic: found_topic.name.clone(),
                };
                (producer, None)
            },
            None => {
                let directory_name = random_alphanumeric(DIRECTORY_NAME_LENGTH);
                let ghost chosen = directory_name@;
                let created = self.create_topic(topic, directory_name);
                assert(is_identifier(chosen, DIRECTORY_NAME_LENGTH as int) && self@.topics
                    == old(self)@.topics.push(
                    TopicView {
                        name: topic@,
                        directory: topic_directory(old(self).base_directory@, chosen),
                        groups: Seq::empty(),
                    },
                ));
                created
            },
        }
    }

    /// Creates the topic named `topic` in the subdirectory `directory_name`
    /// of the base directory, and returns a producer for it with the snapshot
    /// to persist.
    pub fn create_topic(&mut self, topic: String, directory_name: String) -> (r: (
        Producer,
        Option<Vec<u8>>,
    ))
        requires
            old(self).wf(),
        ensures
            final(self).wf(),
            final(self).base_directory == old(self).base_directory,
            final(self)@.topics == old(self)@.topics.push(
                TopicView {
                    name: topic@,
                    directory: topic_directory(old(self).base_directory@, directory_name@),
                    groups: Seq::empty(),
                },
            ),
            final(self).topics@.len() == old(self).topics@.len() + 1,
            forall|i: int|
                0 <= i < old(self).topics@.len() ==> final(self).topics@[i] == old(self).topics@[i],
            final(self).topics@.last().commitlog@ == seq![SegmentView::fresh(0)],
            r.0.topic@ == topic@,
            r.0.directory@ == topic_directory(old(self).base_directory@, directory_name@),
            r.1 is Some,
            r.1->Some_0@ == encode_snapshot(final(self)@),
    {
        let ghost before = self@.topics;
        let new_topic = Topic::with_directory_name(
            topic,
            self.base_directory.clone(),
            directory_name,
        );
        let producer = Producer {
            directory: new_topic.directory.clone(),
            topic: new_topic.name.clone(),
        };
        assert(new_topic@.groups =~= Seq::<GroupView>::empty());
        self.topics.push(new_topic);
        assert(self@.topics =~= before.push(new_topic@));
        let bytes = self.flush();
        (producer, Some(bytes))
    }

    /// A consumer of the topic named `topic` for the group named
    /// `consumer_group_name`. The topic is created where the broker has none
    /// of that name, in a new directory with a random name, and the group is
    /// added to the topic where the topic has none of that name.
    pub fn new_consumer(&mut self, topic: String, consumer_group_name: String) -> (consumer:
        Consumer)
        requires
            old(self).wf(),
        ensures
            final(self).wf(),
            final(self).base_directory == old(self).base_directory,
            logs_kept(old(self).topics@, final(self).topics@),
            consumer.topic@ == topic@,
            consumer.consumer_group@ == consumer_group_name@,
            match find_topic(old(self)@.topics, topic@) {
                Some(i) => {
                    &&& final(self)@.topics == old(self)@.topics.update(
                        i,
                        TopicView {
                            name: old(self)@.topics[i].name,
                            directory: old(self)@.topics[i].directory,
                            groups: with_group(old(self)@.topics[i].groups, consumer_group_name@),
                        },
                    )
                    &&& consumer.directory@ == old(self)@.topics[i].directory
                },
                None => {
                    &&& exists|directory_name: Seq<char>|
                        is_identifier(directory_name, DIRECTORY_NAME_LENGTH as int)
                            && final(self)@.topics == old(self)@.topics.push(
                            TopicView {
                                name: topic@,
                                directory: topic_directory(
                                    old(self).base_directory@,
                                    directory_name,
                                ),
                                groups: seq![GroupView { name: consumer_group_name@, offset: 0 }],
                            },
                        )
                    &&& consumer.directory@ == final(self)@.topics.last().directory
                    &&& final(self).topics@.last().commitlog@ == seq![SegmentView::fresh(0)]
                },
            },
    {
        proof {
            lemma_find_topic(self@.topics, topic@);
        }
        match self.check_topics(&topic) {
            Some(position) => self.join_topic(position, consumer_group_name),
            None => {
                let directory_name = random_alphanumeric(DIRECTORY_NAME_LENGTH);
                let ghost chosen = directory_name@;
                let consumer = self.create_topic_with_group(
                    topic,
                    directory_name,
                    consumer_group_name,
                );
                assert(is_identifier(chosen, DIRECTORY_NAME_LENGTH as int) && self@.topics
                    == old(self)@.topics.push(
                    TopicView {
                        name: topic@,
                        directory: topic_directory(old(self).base_directory@, chosen),
                        groups: seq![GroupView { name: consumer_group_name@, offset: 0 }],
                    },
                ));
                consumer
            },
        }
    }

    /// A consumer of the topic at `position` for the group named
    /// `consumer_group_name`, which is added to the topic where the topic has
    /// none of that name.
    pub fn join_topic(&mut self, position: usize, consumer_group_name: String) -> (consumer:
        Consumer)
        requires
            old(self).wf(),
            position < old(self).topics@.len(),
        ensures
            final(self).wf(),
            final(self).base_directory == old(self).base_directory,
            final(self)@.topics == old(self)@.topics.update(
                position as int,
                TopicView {
                    name: old(self)@.topics[position as int].name,
                    directory: old(self)@.topics[position as int].directory,
                    groups: with_group(
                        old(self)@.topics[position as int].groups,
                        consumer_group_name@,
                    ),
                },
            ),
            logs_kept(old(self).topics@, final(self).topics@),
            consumer.topic@ == old(self)@.topics[position as int].name,
            consumer.directory@ == old(self)@.topics[position as int].directory,
            consumer.consumer_group@ == consumer_group_name@,
    {
        let ghost before = self@.topics;
        let ghost before_topics = self.topics@;
        let found_topic = &mut self.topics[position];
        let directory = found_topic.directory.clone();
        let topic_name = found_topic.name.clone();
        found_topic.load_consumer_group(consumer_group_name.as_str());
        proof {
            assert(self.topics@.len() == before_topics.len());
            assert forall|i: int| 0 <= i < before_topics.len() implies (
            #[trigger] self.topics@[i]).commitlog == before_topics[i].commitlog by {
                if i != position {
                    assert(self.topics@[i] == before_topics[i]);
                }
            }
            assert forall|i: int| 0 <= i < self.topics@.len() implies (
            #[trigger] self.topics@[i]).wf() by {
                if i != position {
                    assert(self.topics@[i] == before_topics[i]);
                } else {
                    assert(before_topics[i].wf());
                }
            }
            assert(self@.topics =~= before.update(
                position as int,
                TopicView {
                    name: before[position as int].name,
                    directory: before[position as int].directory,
                    groups: with_group(before[position as int].groups, consumer_group_name@),
                },
            )) by {
                assert forall|i: int| 0 <= i < self.topics@.len() && i != position implies
                    self@.topics[i] == before[i] by {
                    assert(self.topics@[i] == before_topics[i]);
                }
            }
        }
        Consumer { directory, topic: topic_name, consumer_group: consumer_group_name }
    }

    /// Creates the topic named `topic` in the subdirectory `directory_name`
    /// of the base directory with the one group named `consumer_group_name`,
    /// and returns a consumer for it.
    pub fn create_topic_with_group(
        &mut self,
        topic: String,
        directory_name: String,
        consumer_group_name: String,
    ) -> (consumer: Consumer)
        requires
            old(self).wf(),
        ensures
            final(self).wf(),
            final(self).base_directory == old(self).base_directory,
            final(self)@.topics == old(self)@.topics.push(
                TopicView {
                    name: topic@,
                    directory: topic_directory(old(self).base_directory@, directory_name@),
                    groups: seq![GroupView { name: consumer_group_name@, offset: 0 }],
                },
            ),
            final(self).topics@.len() == old(self).topics@.len() + 1,
            forall|i: int|
                0 <= i < old(self).topics@.len() ==> final(self).topics@[i] == old(self).topics@[i],
            final(self).topics@.last().commitlog@ == seq![SegmentView::fresh(0)],
            consumer.topic@ == topic@,
            consumer.directory@ == topic_directory(old(self).base_directory@, directory_name@),
            consumer.consumer_group@ == consumer_group_name@,
    {
        let ghost before = self@.topics;
        let user_cg = ConsumerGroup::new(consumer_group_name.as_str());
        let mut new_topic = Topic::with_directory_name(
            topic,
            self.base_directory.clone(),
            directory_name,
        );
        new_topic.consumer_groups.push(user_cg);
        assert(new_topic@.groups =~= seq![GroupView { name: consumer_group_name@, offset: 0 }]);
        let new_directory_name = new_topic.directory.clone();
        let new_topic_name = new_topic.name.clone();
        self.topics.push(new_topic);
        assert(self@.topics =~= before.push(new_topic@));
        Consumer {
            directory: new_directory_name,
            topic: new_topic_name,
            consumer_group: consumer_group_name,
        }
    }

    /// Appends `data` to the topic of `producer` and returns the offset it
    /// got; `UnknownTopic` where the broker has no topic of that name.
    pub fn produce(&mut self, producer: &Producer, data: &[u8]) -> (r: Result<u16, BrokerError>)
        requires
            old(self).wf(),
        ensures
            final(self).wf(),
            final(self)@ == old(self)@,
            final(self).topics@.len() == old(self).topics@.len(),
            match find_topic(old(self)@.topics, producer.topic@) {
                None => {
                    &&& r == Err::<u16, BrokerError>(BrokerError::UnknownTopic)
                    &&& final(self).topics == old(self).topics
                },
                Some(i) => {
                    let log = old(self).topics@[i].commitlog@;
                    let now = final(self).topics@[i].commitlog@;
                    &&& forall|k: int|
                        0 <= k < old(self).topics@.len() && k != i ==> final(self).topics@[k]
                            == old(self).topics@[k]
                    &&& match r {
                        Ok(offset) => {
                            &&& append_refusal(log, data@.len() as int, MAX_SEGMENT_BYTES) is None
                            &&& offset == next_offset(log)
                            &&& next_offset(now) == offset + 1
                            &&& now == retained(
                                written(log, data@, MAX_SEGMENT_BYTES),
                                MAX_RETENTION_BYTES,
                            )
                            &&& first_offset(now) <= offset
                            &&& record_at(now, offset as int) == data@
                        },
                        Err(e) => {
                            &&& append_refusal(log, data@.len() as int, MAX_SEGMENT_BYTES) is Some
                            &&& e == BrokerError::Storage(
                                append_refusal(log, data@.len() as int, MAX_SEGMENT_BYTES)->Some_0,
                            )
                            &&& now == log
                        },
                    }
                },
            },
    {
        let position = match self.check_topics(&producer.topic) {
            Some(position) => position,
            None => {
                return Err(BrokerError::UnknownTopic);
            },
        };
        let ghost before = self@.topics;
        let ghost before_topics = self.topics@;
        assert(before_topics[position as int].wf());
        let topic = &mut self.topics[position];
        let outcome = topic.produce(data);
        proof {
            assert forall|i: int| 0 <= i < self.topics@.len() implies (
            #[trigger] self.topics@[i]).wf() by {
                if i != position {
                    assert(self.topics@[i] == before_topics[i]);
                }
            }
            assert(self@.topics =~= before) by {
                assert forall|i: int| 0 <= i < self.topics@.len() implies self@.topics[i]
                    == before[i] by {
                    if i != position {
                        assert(self.topics@[i] == before_topics[i]);
                    }
                }
            }
        }
        match outcome {
            Ok(offset) => Ok(offset),
            Err(e) => Err(BrokerError::Storage(e)),
        }
    }

    /// Reads the record that the group of `consumer` reads next in its topic
    /// and moves the group one past it. The result is `UnknownTopic` or
    /// `UnknownGroup` where the broker has no such topic or the topic no such
    /// group, and `OffsetOutOfRange` where the log retains no record at the
    /// group's offset; the group then stays where it is.
    pub fn consume(&mut self, consumer: &Consumer) -> (r: Result<Vec<u8>, BrokerError>)
        requires
            old(self).wf(),
        ensures
            final(self).wf(),
            final(self).base_directory == old(self).base_directory,
            final(self).topics@.len() == old(self).topics@.len(),
            match find_topic(old(self)@.topics, consumer.topic@) {
                None => {
                    &&& r == Err::<Vec<u8>, BrokerError>(BrokerError::UnknownTopic)
                    &&& final(self).topics == old(self).topics
                },
                Some(i) => {
                    let topic = old(self).topics@[i];
                    let now = final(self).topics@[i];
                    &&& forall|k: int|
                        0 <= k < old(self).topics@.len() && k != i ==> final(self).topics@[k]
                            == old(self).topics@[k]
                    &&& now.name == topic.name
                    &&& now.directory == topic.directory
                    &&& now.commitlog == topic.commitlog
                    &&& now.consumer_groups@.len() == topic.consumer_groups@.len()
                    &&& match find_group(topic@.groups, consumer.consumer_group@) {
                        None => r == Err::<Vec<u8>, BrokerError>(BrokerError::UnknownGroup)
                            && now.consumer_groups == topic.consumer_groups,
                        Some(j) => {
                            let offset = topic.consumer_groups@[j].offset;
                            let log = topic.commitlog@;
                            &&& forall|k: int|
                                0 <= k < topic.consumer_groups@.len() && k != j
                                    ==> now.consumer_groups@[k] == topic.consumer_groups@[k]
                            &&& now.consumer_groups@[j].name == topic.consumer_groups@[j].name
                            &&& match r {
                                Ok(bytes) => {
                                    &&& first_offset(log) <= offset < next_offset(log)
                                    &&& bytes@ == record_at(log, offset as int)
                                    &&& now.consumer_groups@[j].offset == offset + 1
                                },
                                Err(e) => {
                                    &&& e == BrokerError::Storage(
                                        CommitlogError::OffsetOutOfRange,
                                    )
                                    &&& !(first_offset(log) <= offset < next_offset(log))
                                    &&& now.consumer_groups@[j].offset == offset
                                },
                            }
                        },
                    }
                },
            },
    {
        let position = match self.check_topics(&consumer.topic) {
            Some(position) => position,
            None => {
                return Err(BrokerError::UnknownTopic);
            },
        };
        let ghost before_topics = self.topics@;
        assert(before_topics[position as int].wf());
        let group = match self.topics[position].find_consumer_group(&consumer.consumer_group) {
            Some(group) => group,
            None => {
                return Err(BrokerError::UnknownGroup);
            },
        };
        let topic = &mut self.topics[position];
        let outcome = topic.consume(group);
        proof {
            assert forall|i: int| 0 <= i < self.topics@.len() implies (
            #[trigger] self.topics@[i]).wf() by {
                if i != position {
                    assert(self.topics@[i] == before_topics[i]);
                }
            }
        }
        match outcome {
            Ok(bytes) => Ok(bytes),
            Err(e) => Err(BrokerError::Storage(e)),
        }
    }

    /// Reconciles the registry with `persisted`, the content of the metadata
    /// file as it is on disk now, and returns the snapshot of the merged
    /// registry to write back. A topic that only the snapshot has is adopted
    /// with its groups and its commit log is opened on the files that `disk`
    /// holds for it; a group that only the snapshot has is adopted; a group
    /// that both have takes the persisted offset, unless it is named
    /// `consumer_group_in_use`, which never changes. Where `persisted` holds
    /// no snapshot nothing changes and the result is `CorruptMetadata`; where
    /// the commit log of a topic to adopt does not open the merge stops there
    /// with that error.
    pub fn sync(
        &mut self,
        consumer_group_in_use: String,
        persisted: &[u8],
        disk: &Vec<TopicFiles>,
    ) -> (r: Result<Vec<u8>, BrokerError>)
        requires
            old(self).wf(),
        ensures
            final(self).wf(),
            final(self).base_directory == old(self).base_directory,
            match parse_snapshot(persisted@) {
                None => {
                    &&& r == Err::<Vec<u8>, BrokerError>(BrokerError::CorruptMetadata)
                    &&& final(self).topics == old(self).topics
                },
                Some(found) => {
                    let merged = merge_topics(
                        old(self)@.topics,
                        found.topics,
                        consumer_group_in_use@,
                        disk@,
                    );
                    &&& final(self)@.topics == merged.topics
                    &&& keeps_topics(old(self)@.topics, final(self)@.topics, consumer_group_in_use@)
                    &&& logs_kept(old(self).topics@, final(self).topics@)
                    &&& logs_opened(final(self).topics@, old(self).topics@.len() as int, disk@)
                    &&& match merged.error {
                        Some(e) => r == Err::<Vec<u8>, BrokerError>(BrokerError::Storage(e)),
                        None => r is Ok && r->Ok_0@ == encode_snapshot(final(self)@),
                    }
                },
            },
    {
        let snapshot = match decode_snapshot(persisted) {
            Some(found) => found,
            None => {
                return Err(BrokerError::CorruptMetadata);
            },
        };
        let ghost memory = self@.topics;
        let ghost memory_topics = self.topics@;
        let ghost all = snapshot@.topics;
        let ghost in_use = consumer_group_in_use@;
        proof {
            lemma_sync_keeps_group_in_use(memory, all, in_use, disk@);
        }
        let count: usize = snapshot.topics.len();
        let mut at: usize = 0;
        assert(all.take(0) =~= Seq::<TopicView>::empty());
        while at < count
            invariant
                at <= count,
                count == snapshot.topics@.len(),
                all == snapshot@.topics,
                parse_snapshot(persisted@) == Some(snapshot@),
                in_use == consumer_group_in_use@,
                memory == old(self)@.topics,
                keeps_topics(memory, merge_topics(memory, all, in_use, disk@).topics, in_use),
                self.wf(),
                self.base_directory == old(self).base_directory,
                memory_topics == old(self).topics@,
                logs_kept(memory_topics, self.topics@),
                logs_opened(self.topics@, memory_topics.len() as int, disk@),
                merge_topics(memory, all.take(at as int), in_use, disk@) == (Merge {
                    topics: self@.topics,
                    error: None,
                }),
            decreases count - at,
        {
            let topic = &snapshot.topics[at];
            proof {
                assert(all.take(at + 1).drop_last() =~= all.take(at as int));
                assert(all.take(at + 1).last() == topic@);
                lemma_find_topic(self@.topics, topic.name@);
            }
            let ghost before = self@.topics;
            let ghost before_topics = self.topics@;
            match self.check_topics(&topic.name) {
                None => {
                    match open_topic(topic, disk) {
                        Ok(topic_to_add) => {
                            self.topics.push(topic_to_add);
                            assert(self@.topics =~= before.push(topic@));
                            assert forall|i: int| 0 <= i < memory_topics.len() implies (
                            #[trigger] self.topics@[i]).commitlog
                                == memory_topics[i].commitlog by {
                                assert(self.topics@[i] == before_topics[i]);
                            }
                            assert forall|i: int|
                                memory_topics.len() <= i < self.topics@.len() implies (
                            #[trigger] self.topics@[i]).commitlog@ == opened(
                                files_of(disk@, self.topics@[i].directory@),
                            ) by {
                                if i < before_topics.len() {
                                    assert(self.topics@[i] == before_topics[i]);
                                }
                            }
                        },
                        Err(e) => {
                            proof {
                                assert(merge_topic(before, topic@, in_use, disk@) == (Merge {
                                    topics: before,
                                    error: Some(e),
                                }));
                                assert(merge_topics(memory, all.take(at + 1), in_use, disk@)
                                    == merge_topic(before, topic@, in_use, disk@));
                                Self::lemma_merge_stops(memory, all, in_use, disk@, at + 1);
                            }
                            return Err(BrokerError::Storage(e));
                        },
                    }
                },
                Some(index) => {
                    let found_topic = &mut self.topics[index];
                    found_topic.merge_groups(&topic.consumer_groups, &consumer_group_in_use);
                    proof {
                        assert forall|i: int| 0 <= i < self.topics@.len() implies (
                        #[trigger] self.topics@[i]).wf() by {
                            if i != index {
                                assert(self.topics@[i] == before_topics[i]);
                            } else {
                                assert(before_topics[i].wf());
                            }
                        }
                        assert forall|i: int| 0 <= i < memory_topics.len() implies (
                        #[trigger] self.topics@[i]).commitlog
                            == memory_topics[i].commitlog by {
                            if i != index {
                                assert(self.topics@[i] == before_topics[i]);
                            } else {
                                assert(before_topics[i].commitlog == memory_topics[i].commitlog);
                            }
                        }
                        assert forall|i: int|
                            memory_topics.len() <= i < self.topics@.len() implies (
                        #[trigger] self.topics@[i]).commitlog@ == opened(
                            files_of(disk@, self.topics@[i].directory@),
                        ) by {
                            if i != index {
                                assert(self.topics@[i] == before_topics[i]);
                            } else {
                                assert(before_topics[i].commitlog@ == opened(
                                    files_of(disk@, before_topics[i].directory@),
                                ));
                            }
                        }
                        assert(self@.topics =~= before.update(
                            index as int,
                            TopicView {
                                name: before[index as int].name,
                                directory: before[index as int].directory,
                                groups: merge_groups(
                                    before[index as int].groups,
                                    topic@.groups,
                                    in_use,
                                ),
                            },
                        )) by {
                            assert forall|i: int|
                                0 <= i < self.topics@.len() && i != index implies self@.topics[i]
                                == before[i] by {
                                assert(self.topics@[i] == before_topics[i]);
                            }
                        }
                    }
                },
            }
            at = at + 1;
        }
        assert(all.take(at as int) =~= all);
        Ok(self.flush())
    }

    /// A merge that has stopped on an error after the first `k` persisted
    /// topics is the merge of all of them.
    proof fn lemma_merge_stops(
        memory: Seq<TopicView>,
        persisted: Seq<TopicView>,
        in_use: Seq<char>,
        disk: Seq<TopicFiles>,
        k: int,
    )
        requires
            0 <= k <= persisted.len(),
            merge_topics(memory, persisted.take(k), in_use, disk).error is Some,
        ensures
            merge_topics(memory, persisted, in_use, disk) == merge_topics(
                memory,
                persisted.take(k),
                in_use,
                disk,
            ),
        decreases persisted.len() - k,
    {
        if k == persisted.len() {
            assert(persisted.take(k) =~= persisted);
        } else {
            assert(persisted.take(k + 1).drop_last() =~= persisted.take(k));
            Self::lemma_merge_stops(memory, persisted, in_use, disk, k + 1);
        }
    }
}

} // verus!
