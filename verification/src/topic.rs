//! Topics and their consumer groups: a commit log together with the named
//! read cursors into it.

use vstd::prelude::*;
use vstd::string::StringExecFns;
use crate::commitlog::{
    append_refusal, first_offset, next_offset, open_error, opened, record_at, retained,
    written, Commitlog, CommitlogError, SegmentFiles,
};
use crate::random::{is_identifier, random_alphanumeric};
use crate::segment::SegmentView;

verus! {

/// The byte budget of one segment of a topic's commit log.
pub const MAX_SEGMENT_BYTES: u64 = 100;

/// The byte budget of a topic's whole commit log.
pub const MAX_RETENTION_BYTES: u64 = 1000;

/// How many characters the random part of a topic's directory name has.
pub const DIRECTORY_NAME_LENGTH: usize = 5;

/// A consumer group as a mathematical value.
pub struct GroupView {
    pub name: Seq<char>,
    pub offset: u32,
}

/// A named read cursor into one topic: `offset` is the offset of the record
/// that the group will read next.
#[derive(Debug)]
pub struct ConsumerGroup {
    pub name: String,
    pub offset: u32,
}

impl View for ConsumerGroup {
    type V = GroupView;

    open spec fn view(&self) -> GroupView {
        GroupView { name: self.name@, offset: self.offset }
    }
}

/// The outcome of a compare-and-swap on a cursor that holds `value`: the value
/// it then holds, and whether the swap took place. The swap takes place
/// exactly where the cursor holds `current`.
pub open spec fn compare_exchange(value: u32, current: u32, new: u32) -> (u32, Result<u32, u32>) {
    if value == current {
        (new, Ok(current))
    } else {
        (value, Err(value))
    }
}

impl ConsumerGroup {
    /// A group that starts reading at offset 0.
    pub fn new(consumer_group_name: &str) -> (group: ConsumerGroup)
        ensures
            group@ == (GroupView { name: consumer_group_name@, offset: 0 }),
    {
        ConsumerGroup { name: String::from_str(consumer_group_name), offset: 0 }
    }

    /// A group that starts reading at `offset_in`.
    pub fn new_cg(consumer_group_name: &str, offset_in: u32) -> (group: ConsumerGroup)
        ensures
            group@ == (GroupView { name: consumer_group_name@, offset: offset_in }),
    {
        ConsumerGroup { name: String::from_str(consumer_group_name), offset: offset_in }
    }

    /// The offset that the group will read next.
    pub fn load(&self) -> (offset: u32)
        ensures
            offset == self.offset,
    {
        self.offset
    }

    /// Sets the offset to `new` where it is `current`, and says whether it
    /// did: `Ok` with the previous offset, or `Err` with the offset found.
    pub fn compare_exchange(&mut self, current: u32, new: u32) -> (r: Result<u32, u32>)
        ensures
            final(self).name == old(self).name,
            (final(self).offset, r) == compare_exchange(old(self).offset, current, new),
    {
        if self.offset == current {
            self.offset = new;
            Ok(current)
        } else {
            Err(self.offset)
        }
    }

    /// Sets the offset to `value`, whatever it was: reads the offset, tries
    /// to swap it for `value`, and tries again with the offset found for as
    /// long as the swap fails.
    pub fn store(&mut self, value: u32)
        ensures
            final(self).name == old(self).name,
            final(self).offset == value,
    {
        let mut current: u32 = self.load();
        loop
            invariant
                self.name == old(self).name,
            ensures
                self.name == old(self).name,
                self.offset == value,
            decreases
                (if current == self.offset {
                    0int
                } else {
                    1int
                }),
        {
            match self.compare_exchange(current, value) {
                Ok(_) => {
                    break;
                },
                Err(found) => {
                    current = found;
                },
            }
        }
    }

    /// Claims the offset that the group reads next and moves the group one
    /// past it, as one compare-and-swap that is tried again for as long as it
    /// fails. Returns the claimed offset, or `None` and no change where the
    /// offset cannot go higher.
    pub fn advance(&mut self) -> (claimed: Option<u32>)
        ensures
            final(self).name == old(self).name,
            claimed == if old(self).offset < u32::MAX {
                Some(old(self).offset)
            } else {
                None
            },
            final(self).offset == if old(self).offset < u32::MAX {
                (old(self).offset + 1) as u32
            } else {
                old(self).offset
            },
    {
        let mut current: u32 = self.load();
        loop
            invariant
                self.name == old(self).name,
                self.offset == old(self).offset,
                current == self.offset,
            decreases
                (if current == self.offset {
                    0int
                } else {
                    1int
                }),
        {
            if current == 4294967295 {
                return None;
            }
            match self.compare_exchange(current, current + 1) {
                Ok(previous) => {
                    return Some(previous);
                },
                Err(found) => {
                    current = found;
                },
            }
        }
    }
}

/// One step of a task that advances a shared cursor: it either reads the
/// cursor, or tries to swap the value it read last for the next one.
pub enum Step {
    Read { task: int },
    Swap { task: int },
}

/// A shared cursor under advance by several tasks: the offset it holds, the
/// offset that each task read last, and the offsets that were claimed, in the
/// order of the swaps that claimed them.
pub struct Race {
    pub offset: u32,
    pub read: Map<int, u32>,
    pub claims: Seq<u32>,
}

impl Race {
    /// A cursor at `offset` that no task has touched.
    pub open spec fn start(offset: u32) -> Race {
        Race { offset, read: Map::empty(), claims: Seq::empty() }
    }

    /// The state after one step. A swap by a task that has read nothing, or
    /// whose value cannot go higher, changes nothing.
    pub open spec fn step(self, step: Step) -> Race {
        match step {
            Step::Read { task } => Race { read: self.read.insert(task, self.offset), ..self },
            Step::Swap { task } => {
                if self.read.dom().contains(task) && self.read[task] < u32::MAX {
                    let seen = self.read[task];
                    let (offset, outcome) = compare_exchange(
                        self.offset,
                        seen,
                        (seen + 1) as u32,
                    );
                    Race {
                        offset,
                        read: self.read.remove(task),
                        claims: if outcome is Ok {
                            self.claims.push(seen)
                        } else {
                            self.claims
                        },
                    }
                } else {
                    self
                }
            },
        }
    }

    /// The state after the steps of `schedule`, in order.
    pub open spec fn run(self, schedule: Seq<Step>) -> Race
        decreases schedule.len(),
    {
        if schedule.len() == 0 {
            self
        } else {
            self.run(schedule.drop_last()).step(schedule.last())
        }
    }
}

/// However the reads and swaps of any number of tasks interleave, the offsets
/// claimed are the consecutive offsets from the initial one, each claimed
/// once, and the cursor ends at the initial offset plus the number of
/// advances that took place.
pub proof fn lemma_concurrent_advances(initial: u32, schedule: Seq<Step>)
    ensures
        ({
            let end = Race::start(initial).run(schedule);
            &&& end.offset == initial + end.claims.len()
            &&& forall|i: int| 0 <= i < end.claims.len() ==> end.claims[i] == initial + i
        }),
    decreases schedule.len(),
{
    if schedule.len() > 0 {
        lemma_concurrent_advances(initial, schedule.drop_last());
    }
}

/// The values of a run of consumer groups.
pub open spec fn group_views(groups: Seq<ConsumerGroup>) -> Seq<GroupView> {
    Seq::new(groups.len(), |i: int| groups[i]@)
}

/// The position of the first group named `name`, if there is one.
pub open spec fn find_group(groups: Seq<GroupView>, name: Seq<char>) -> Option<int>
    decreases groups.len(),
{
    if groups.len() == 0 {
        None
    } else {
        match find_group(groups.drop_last(), name) {
            Some(i) => Some(i),
            None => if groups.last().name == name {
                Some(groups.len() - 1)
            } else {
                None
            },
        }
    }
}

/// The groups after the group named `name` has been asked for: unchanged
/// where there is one, else with a new group at offset 0 at the end.
pub open spec fn with_group(groups: Seq<GroupView>, name: Seq<char>) -> Seq<GroupView> {
    match find_group(groups, name) {
        Some(_) => groups,
        None => groups.push(GroupView { name, offset: 0 }),
    }
}

/// Whether no two groups have the same name.
pub open spec fn distinct_names(groups: Seq<GroupView>) -> bool {
    forall|i: int, j: int|
        0 <= i < j < groups.len() ==> (#[trigger] groups[i]).name != (#[trigger] groups[j]).name
}

/// What `find_group` finds: a position within the groups, whose group has the
/// name and before which no group has it; and nothing only where no group has
/// the name.
pub proof fn lemma_find_group(groups: Seq<GroupView>, name: Seq<char>)
    ensures
        match find_group(groups, name) {
            Some(i) => {
                &&& 0 <= i < groups.len()
                &&& groups[i].name == name
                &&& forall|j: int| 0 <= j < i ==> (#[trigger] groups[j]).name != name
            },
            None => forall|j: int| 0 <= j < groups.len() ==> (#[trigger] groups[j]).name != name,
        },
    decreases groups.len(),
{
    if groups.len() > 0 {
        let front = groups.drop_last();
        lemma_find_group(front, name);
        assert forall|j: int| 0 <= j < front.len() implies front[j] == groups[j] by {}
        match find_group(front, name) {
            Some(i) => {
                assert(groups[i] == front[i]);
                assert forall|j: int| 0 <= j < i implies (#[trigger] groups[j]).name != name by {
                    assert(groups[j] == front[j]);
                }
            },
            None => {
                assert forall|j: int| 0 <= j < front.len() implies (#[trigger] groups[j]).name
                    != name by {
                    assert(groups[j] == front[j]);
                }
            },
        }
    }
}

/// A group found among the first `k` groups is the group found among all.
pub proof fn lemma_find_group_prefix(groups: Seq<GroupView>, name: Seq<char>, k: int)
    requires
        0 <= k <= groups.len(),
        find_group(groups.take(k), name) is Some,
    ensures
        find_group(groups, name) == find_group(groups.take(k), name),
    decreases groups.len() - k,
{
    if k == groups.len() {
        assert(groups.take(k) =~= groups);
    } else {
        assert(groups.take(k + 1).drop_last() =~= groups.take(k));
        lemma_find_group_prefix(groups, name, k + 1);
    }
}

/// Asking for a group a second time finds the group of the first time and
/// changes nothing: the same position, the same groups, and no second group
/// of that name.
pub proof fn lemma_load_consumer_group_idempotent(groups: Seq<GroupView>, name: Seq<char>)
    ensures
        ({
            let once = with_group(groups, name);
            &&& find_group(once, name) is Some
            &&& find_group(once, name) == match find_group(groups, name) {
                Some(i) => Some(i),
                None => Some(groups.len() as int),
            }
            &&& with_group(once, name) == once
            &&& distinct_names(groups) ==> distinct_names(once)
        }),
{
    let once = with_group(groups, name);
    lemma_find_group(groups, name);
    if find_group(groups, name) is None {
        assert(once.drop_last() =~= groups);
        assert(once.last().name == name);
        assert forall|i: int, j: int| 0 <= i < j < once.len() && distinct_names(
            groups,
        ) implies (#[trigger] once[i]).name != (#[trigger] once[j]).name by {
            assert(once[i] == groups[i]);
            if j < groups.len() {
                assert(once[j] == groups[j]);
            }
        }
    }
}

/// The groups in memory after one persisted group has been merged in: a group
/// that memory does not have is adopted; one that it has takes the persisted
/// offset, unless it is the group in use, which stays as it is.
pub open spec fn merge_group(
    memory: Seq<GroupView>,
    persisted: GroupView,
    in_use: Seq<char>,
) -> Seq<GroupView> {
    match find_group(memory, persisted.name) {
        None => memory.push(persisted),
        Some(i) => if persisted.name == in_use {
            memory
        } else {
            memory.update(i, GroupView { name: memory[i].name, offset: persisted.offset })
        },
    }
}

/// The groups in memory after the persisted groups have been merged in, one
/// after the other.
pub open spec fn merge_groups(memory: Seq<GroupView>, persisted: Seq<GroupView>, in_use: Seq<char>)
    -> Seq<GroupView>
    decreases persisted.len(),
{
    if persisted.len() == 0 {
        memory
    } else {
        merge_group(
            merge_groups(memory, persisted.drop_last(), in_use),
            persisted.last(),
            in_use,
        )
    }
}

/// Whether `after` has every group of `before` at its place and under its
/// name, and the groups named `in_use` with their offsets.
pub open spec fn keeps_groups(before: Seq<GroupView>, after: Seq<GroupView>, in_use: Seq<char>)
    -> bool {
    &&& before.len() <= after.len()
    &&& forall|j: int|
        0 <= j < before.len() ==> (#[trigger] after[j]).name == before[j].name && (before[j].name
            == in_use ==> after[j].offset == before[j].offset)
}

/// Merging persisted groups into those in memory keeps every group of memory
/// at its place and never touches the offset of the group in use.
pub proof fn lemma_merge_groups_keeps_in_use(
    memory: Seq<GroupView>,
    persisted: Seq<GroupView>,
    in_use: Seq<char>,
)
    ensures
        keeps_groups(memory, merge_groups(memory, persisted, in_use), in_use),
    decreases persisted.len(),
{
    if persisted.len() > 0 {
        let before = merge_groups(memory, persisted.drop_last(), in_use);
        lemma_merge_groups_keeps_in_use(memory, persisted.drop_last(), in_use);
        lemma_find_group(before, persisted.last().name);
        let after = merge_group(before, persisted.last(), in_use);
        assert forall|j: int| 0 <= j < memory.len() implies (#[trigger] after[j]).name
            == memory[j].name && (memory[j].name == in_use ==> after[j].offset
            == memory[j].offset) by {
            assert(before[j].name == memory[j].name);
        }
    }
}

/// A topic as the registry's metadata states it: its name, its directory and
/// its consumer groups. The commit log is no part of it.
pub struct TopicView {
    pub name: Seq<char>,
    pub directory: Seq<char>,
    pub groups: Seq<GroupView>,
}

/// The metadata of a topic as it is persisted, before its commit log has been
/// opened.
#[derive(Debug)]
pub struct DeserTopic {
    pub name: String,
    pub directory: String,
    pub consumer_groups: Vec<ConsumerGroup>,
}

impl View for DeserTopic {
    type V = TopicView;

    open spec fn view(&self) -> TopicView {
        TopicView {
            name: self.name@,
            directory: self.directory@,
            groups: group_views(self.consumer_groups@),
        }
    }
}

/// A commit log and the consumer groups that read it.
pub struct Topic {
    pub name: String,
    pub directory: String,
    pub consumer_groups: Vec<ConsumerGroup>,
    pub commitlog: Commitlog,
}

impl View for Topic {
    type V = TopicView;

    open spec fn view(&self) -> TopicView {
        TopicView {
            name: self.name@,
            directory: self.directory@,
            groups: group_views(self.consumer_groups@),
        }
    }
}

/// The directory of a topic whose random directory name is `directory_name`.
pub open spec fn topic_directory(base_directory: Seq<char>, directory_name: Seq<char>) -> Seq<
    char,
> {
    base_directory + seq!['/'] + directory_name
}

impl Topic {
    /// The invariant of a topic: its commit log is well formed, lives in the
    /// topic's directory and has the budgets of a topic.
    pub open spec fn wf(&self) -> bool {
        &&& self.commitlog.wf()
        &&& self.commitlog.directory@ == self.directory@
        &&& self.commitlog.max_segment_bytes == MAX_SEGMENT_BYTES
        &&& self.commitlog.max_retention_bytes == MAX_RETENTION_BYTES
    }

    /// A new topic in a subdirectory of `base_directory` with a random name
    /// of five letters and digits, with an empty commit log and no consumer
    /// group.
    pub fn new(topic_name: String, base_directory: String) -> (topic: Topic)
        ensures
            topic.wf(),
            topic.name == topic_name,
            topic.consumer_groups@.len() == 0,
            topic.commitlog@ == seq![SegmentView::fresh(0)],
            topic.commitlog.evicted@.len() == 0,
            exists|directory_name: Seq<char>|
                is_identifier(directory_name, DIRECTORY_NAME_LENGTH as int) && topic.directory@
                    == topic_directory(base_directory@, directory_name),
    {
        let directory_name = random_alphanumeric(DIRECTORY_NAME_LENGTH);
        Topic::with_directory_name(topic_name, base_directory, directory_name)
    }

    /// A new topic in the subdirectory `directory_name` of `base_directory`,
    /// with an empty commit log and no consumer group.
    pub fn with_directory_name(
        topic_name: String,
        base_directory: String,
        directory_name: String,
    ) -> (topic: Topic)
        ensures
            topic.wf(),
            topic.name == topic_name,
            topic.directory@ == topic_directory(base_directory@, directory_name@),
            topic.consumer_groups@.len() == 0,
            topic.commitlog@ == seq![SegmentView::fresh(0)],
            topic.commitlog.evicted@.len() == 0,
    {
        proof {
            reveal_strlit("/");
        }
        let mut directory = base_directory;
        directory.append("/");
        directory.append(directory_name.as_str());
        assert("/"@ =~= seq!['/']);
        let commitlog = Commitlog::fresh(
            directory.clone(),
            MAX_SEGMENT_BYTES,
            MAX_RETENTION_BYTES,
        );
        Topic { name: topic_name, directory, consumer_groups: Vec::new(), commitlog }
    }

    /// The topic that persisted metadata describes, with its commit log
    /// opened on the files found in its directory.
    pub fn from(tmp: DeserTopic, files: &Vec<SegmentFiles>) -> (r: Result<Topic, CommitlogError>)
        ensures
            match r {
                Ok(topic) => {
                    &&& open_error(files@) is None
                    &&& topic.wf()
                    &&& topic.name == tmp.name
                    &&& topic.directory == tmp.directory
                    &&& topic.consumer_groups == tmp.consumer_groups
                    &&& topic.commitlog.evicted@.len() == 0
                    &&& topic.commitlog@ == opened(files@)
                },
                Err(e) => open_error(files@) == Some(e),
            },
    {
        let commitlog = match Commitlog::new(
            tmp.directory.clone(),
            MAX_SEGMENT_BYTES,
            MAX_RETENTION_BYTES,
            files,
        ) {
            Ok(log) => log,
            Err(e) => {
                return Err(e);
            },
        };
        Ok(
            Topic {
                name: tmp.name,
                directory: tmp.directory,
                consumer_groups: tmp.consumer_groups,
                commitlog,
            },
        )
    }

    /// The position of the consumer group named `consumer_group_name`. Where
    /// the topic has no such group, one that starts at offset 0 is added at
    /// the end, and that is the only way in which a group joins a topic.
    pub fn load_consumer_group(&mut self, consumer_group_name: &str) -> (position: usize)
        ensures
            final(self).name == old(self).name,
            final(self).directory == old(self).directory,
            final(self).commitlog == old(self).commitlog,
            group_views(final(self).consumer_groups@) == with_group(
                group_views(old(self).consumer_groups@),
                consumer_group_name@,
            ),
            find_group(group_views(final(self).consumer_groups@), consumer_group_name@) == Some(
                position as int,
            ),
            position < final(self).consumer_groups@.len(),
            find_group(group_views(old(self).consumer_groups@), consumer_group_name@) is Some
                ==> final(self).consumer_groups == old(self).consumer_groups,
    {
        let wanted = String::from_str(consumer_group_name);
        let ghost groups = group_views(self.consumer_groups@);
        proof {
            lemma_load_consumer_group_idempotent(groups, consumer_group_name@);
            lemma_find_group(groups, consumer_group_name@);
        }
        let count: usize = self.consumer_groups.len();
        let mut at: usize = 0;
        while at < count
            invariant
                at <= count,
                count == self.consumer_groups@.len(),
                *self == *old(self),
                wanted@ == consumer_group_name@,
                groups == group_views(self.consumer_groups@),
                find_group(groups.take(at as int), consumer_group_name@) is None,
            decreases count - at,
        {
            proof {
                assert(groups.take(at + 1).drop_last() =~= groups.take(at as int));
                assert(groups.take(at + 1).last() == self.consumer_groups@[at as int]@);
            }
            if self.consumer_groups[at].name == wanted {
                proof {
                    lemma_find_group_prefix(groups, consumer_group_name@, at + 1);
                }
                return at;
            }
            at = at + 1;
        }
        assert(groups.take(at as int) =~= groups);
        let new_gc = ConsumerGroup::new(consumer_group_name);
        self.consumer_groups.push(new_gc);
        assert(group_views(self.consumer_groups@) =~= groups.push(
            GroupView { name: consumer_group_name@, offset: 0 },
        ));
        count
    }

    /// The position of the consumer group named `consumer_group_name`, if the
    /// topic has one.
    pub fn find_consumer_group(&self, consumer_group_name: &String) -> (position: Option<usize>)
        ensures
            match position {
                Some(i) => find_group(self@.groups, consumer_group_name@) == Some(i as int) && i
                    < self.consumer_groups@.len(),
                None => find_group(self@.groups, consumer_group_name@) is None,
            },
    {
        let ghost groups = group_views(self.consumer_groups@);
        let count: usize = self.consumer_groups.len();
        let mut at: usize = 0;
        while at < count
            invariant
                at <= count,
                count == self.consumer_groups@.len(),
                groups == group_views(self.consumer_groups@),
                find_group(groups.take(at as int), consumer_group_name@) is None,
            decreases count - at,
        {
            proof {
                assert(groups.take(at + 1).drop_last() =~= groups.take(at as int));
                assert(groups.take(at + 1).last() == self.consumer_groups@[at as int]@);
            }
            if self.consumer_groups[at].name == *consumer_group_name {
                proof {
                    lemma_find_group_prefix(groups, consumer_group_name@, at + 1);
                }
                return Some(at);
            }
            at = at + 1;
        }
        assert(groups.take(at as int) =~= groups);
        None
    }

    /// A second handle on the topic that `topic_ref` describes: the same
    /// name, directory and consumer groups, with the commit log opened anew
    /// on the files found in the directory.
    pub fn new_topic_from_ref(topic_ref: &Topic, files: &Vec<SegmentFiles>) -> (r: Result<
        Topic,
        CommitlogError,
    >)
        ensures
            match r {
                Ok(topic) => {
                    &&& open_error(files@) is None
                    &&& topic.wf()
                    &&& topic@ == topic_ref@
                    &&& topic.commitlog.evicted@.len() == 0
                    &&& topic.commitlog@ == opened(files@)
                },
                Err(e) => open_error(files@) == Some(e),
            },
    {
        let mut new_consumer_groups: Vec<ConsumerGroup> = Vec::new();
        let count: usize = topic_ref.consumer_groups.len();
        let mut at: usize = 0;
        while at < count
            invariant
                at <= count,
                count == topic_ref.consumer_groups@.len(),
                group_views(new_consumer_groups@) == group_views(topic_ref.consumer_groups@).take(
                    at as int,
                ),
            decreases count - at,
        {
            let cg = &topic_ref.consumer_groups[at];
            let ghost before = group_views(new_consumer_groups@);
            new_consumer_groups.push(ConsumerGroup { name: cg.name.clone(), offset: cg.offset });
            assert(group_views(new_consumer_groups@) =~= before.push(cg@));
            assert(group_views(topic_ref.consumer_groups@).take(at + 1) =~= group_views(
                topic_ref.consumer_groups@,
            ).take(at as int).push(cg@));
            at = at + 1;
        }
        assert(group_views(topic_ref.consumer_groups@).take(at as int) =~= group_views(
            topic_ref.consumer_groups@,
        ));
        Topic::from(
            DeserTopic {
                name: topic_ref.name.clone(),
                directory: topic_ref.directory.clone(),
                consumer_groups: new_consumer_groups,
            },
            files,
        )
    }

    /// Merges one persisted group into the topic: adopts it where the topic
    /// has no group of that name; else sets the group's offset to the
    /// persisted one, unless the group is the one named `in_use`.
    pub fn merge_group(&mut self, persisted: &ConsumerGroup, in_use: &String)
        ensures
            final(self).name == old(self).name,
            final(self).directory == old(self).directory,
            final(self).commitlog == old(self).commitlog,
            group_views(final(self).consumer_groups@) == merge_group(
                group_views(old(self).consumer_groups@),
                persisted@,
                in_use@,
            ),
    {
        let ghost groups = group_views(self.consumer_groups@);
        proof {
            lemma_find_group(groups, persisted.name@);
        }
        let count: usize = self.consumer_groups.len();
        let mut at: usize = 0;
        while at < count
            invariant
                at <= count,
                count == self.consumer_groups@.len(),
                *self == *old(self),
                groups == group_views(self.consumer_groups@),
                find_group(groups.take(at as int), persisted.name@) is None,
            decreases count - at,
        {
            proof {
                assert(groups.take(at + 1).drop_last() =~= groups.take(at as int));
                assert(groups.take(at + 1).last() == self.consumer_groups@[at as int]@);
            }
            if self.consumer_groups[at].name == persisted.name {
                proof {
                    lemma_find_group_prefix(groups, persisted.name@, at + 1);
                }
                if self.consumer_groups[at].name == *in_use {
                    return ;
                }
                let saved_current_offset = persisted.load();
                let group = &mut self.consumer_groups[at];
                group.store(saved_current_offset);
                assert(group_views(self.consumer_groups@) =~= groups.update(
                    at as int,
                    GroupView { name: groups[at as int].name, offset: persisted.offset },
                ));
                return ;
            }
            at = at + 1;
        }
        assert(groups.take(at as int) =~= groups);
        self.consumer_groups.push(
            ConsumerGroup { name: persisted.name.clone(), offset: persisted.offset },
        );
        assert(group_views(self.consumer_groups@) =~= groups.push(persisted@));
    }

    /// Merges the persisted groups into the topic, one after the other.
    pub fn merge_groups(&mut self, persisted: &Vec<ConsumerGroup>, in_use: &String)
        ensures
            final(self).name == old(self).name,
            final(self).directory == old(self).directory,
            final(self).commitlog == old(self).commitlog,
            group_views(final(self).consumer_groups@) == merge_groups(
                group_views(old(self).consumer_groups@),
                group_views(persisted@),
                in_use@,
            ),
    {
        let ghost all = group_views(persisted@);
        let count: usize = persisted.len();
        let mut at: usize = 0;
        assert(all.take(0) =~= Seq::<GroupView>::empty());
        while at < count
            invariant
                at <= count,
                count == persisted@.len(),
                all == group_views(persisted@),
                self.name == old(self).name,
                self.directory == old(self).directory,
                self.commitlog == old(self).commitlog,
                group_views(self.consumer_groups@) == merge_groups(
                    group_views(old(self).consumer_groups@),
                    all.take(at as int),
                    in_use@,
                ),
            decreases count - at,
        {
            proof {
                assert(all.take(at + 1).drop_last() =~= all.take(at as int));
                assert(all.take(at + 1).last() == persisted@[at as int]@);
            }
            self.merge_group(&persisted[at], in_use);
            at = at + 1;
        }
        assert(all.take(at as int) =~= all);
    }

    /// Appends a record to the topic's commit log and returns its offset.
    pub fn produce(&mut self, data: &[u8]) -> (r: Result<u16, CommitlogError>)
        requires
            old(self).wf(),
        ensures
            final(self).wf(),
            final(self)@ == old(self)@,
            final(self).consumer_groups == old(self).consumer_groups,
            match r {
                Ok(offset) => {
                    let after = written(old(self).commitlog@, data@, MAX_SEGMENT_BYTES);
                    &&& append_refusal(old(self).commitlog@, data@.len() as int, MAX_SEGMENT_BYTES)
                        is None
                    &&& offset == next_offset(old(self).commitlog@)
                    &&& next_offset(final(self).commitlog@) == offset + 1
                    &&& final(self).commitlog@ == retained(after, MAX_RETENTION_BYTES)
                    &&& first_offset(final(self).commitlog@) <= offset
                    &&& record_at(final(self).commitlog@, offset as int) == data@
                },
                Err(e) => {
                    &&& append_refusal(old(self).commitlog@, data@.len() as int, MAX_SEGMENT_BYTES)
                        == Some(e)
                    &&& final(self).commitlog@ == old(self).commitlog@
                },
            },
    {
        self.commitlog.append(data)
    }

    /// Reads the record that the group at `position` reads next, and moves
    /// the group one past it. Where the log retains no record at the group's
    /// offset the result is `OffsetOutOfRange` and the group stays.
    pub fn consume(&mut self, position: usize) -> (r: Result<Vec<u8>, CommitlogError>)
        requires
            old(self).wf(),
            position < old(self).consumer_groups@.len(),
        ensures
            final(self).wf(),
            final(self).name == old(self).name,
            final(self).directory == old(self).directory,
            final(self).commitlog == old(self).commitlog,
            final(self).consumer_groups@.len() == old(self).consumer_groups@.len(),
            forall|i: int|
                0 <= i < old(self).consumer_groups@.len() && i != position
                    ==> final(self).consumer_groups@[i] == old(self).consumer_groups@[i],
            final(self).consumer_groups@[position as int].name == old(
                self
            ).consumer_groups@[position as int].name,
            ({
                let offset = old(self).consumer_groups@[position as int].offset;
                let log = old(self).commitlog@;
                match r {
                    Ok(bytes) => {
                        &&& first_offset(log) <= offset < next_offset(log)
                        &&& bytes@ == record_at(log, offset as int)
                        &&& final(self).consumer_groups@[position as int].offset == offset + 1
                    },
                    Err(e) => {
                        &&& e == CommitlogError::OffsetOutOfRange
                        &&& !(first_offset(log) <= offset < next_offset(log))
                        &&& final(self).consumer_groups@[position as int].offset == offset
                    },
                }
            }),
    {
        let offset: u32 = self.consumer_groups[position].load();
        let bytes = match self.commitlog.read_at(offset as usize) {
            Ok(bytes) => bytes,
            Err(e) => {
                return Err(e);
            },
        };
        proof {
            let last = self.commitlog@.last();
            assert(last.wf());
        }
        let group = &mut self.consumer_groups[position];
        group.advance();
        Ok(bytes)
    }
}

} // verus!
